//! The environment: the bindings from names to runtime values.
use crate::text::{owned, same_text};
use crate::types::{Error, Object, ObjectView};
use vstd::prelude::*;
use vstd::string::StringExecFns;

verus! {

/// Bindings from names to values. No name is bound twice.
pub struct Environment {
    store: Vec<(String, Object)>,
}

/// The map that a sequence of bindings stands for; of two bindings of a name
/// the later one counts.
pub open spec fn bindings(entries: Seq<(String, Object)>) -> Map<Seq<char>, ObjectView>
    decreases entries,
{
    if entries.len() == 0 {
        Map::empty()
    } else {
        bindings(entries.drop_last()).insert(entries.last().0@, entries.last().1.view())
    }
}

/// Whether no name occurs twice in `entries`.
pub open spec fn distinct(entries: Seq<(String, Object)>) -> bool {
    forall|i: int, j: int|
        0 <= i < j < entries.len() ==> (#[trigger] entries[i]).0@ != (#[trigger] entries[j]).0@
}

/// The message of the error that stands for an unbound name.
pub open spec fn unknown_identifier(name: Seq<char>) -> Seq<char> {
    "unknown identifier: "@ + name
}

/// What a name stands for in an environment: its value, or the error that
/// says the name is unknown.
pub open spec fn lookup(env: Map<Seq<char>, ObjectView>, name: Seq<char>) -> ObjectView {
    if env.contains_key(name) {
        env[name]
    } else {
        ObjectView::Error(unknown_identifier(name))
    }
}

/// The names bound by `entries` are the names that occur in it, and with
/// distinct names each entry is what its name is bound to.
pub proof fn lemma_bindings(entries: Seq<(String, Object)>)
    ensures
        forall|k: Seq<char>|
            bindings(entries).contains_key(k) <==> exists|i: int|
                0 <= i < entries.len() && (#[trigger] entries[i]).0@ == k,
        bindings(entries).dom().finite(),
        distinct(entries) ==> forall|i: int|
            0 <= i < entries.len() ==> bindings(entries)[(#[trigger] entries[i]).0@]
                == entries[i].1@,
    decreases entries.len(),
{
    reveal_with_fuel(bindings, 3);
    if entries.len() > 0 {
        let front = entries.drop_last();
        let last = entries.last();
        lemma_bindings(front);
        assert(bindings(entries) == bindings(front).insert(last.0@, last.1.view()));
        assert forall|k: Seq<char>| bindings(entries).contains_key(k) implies exists|i: int|
            0 <= i < entries.len() && (#[trigger] entries[i]).0@ == k by {
            if k == last.0@ {
                assert(entries[entries.len() - 1].0@ == k);
            } else {
                let i = choose|i: int| 0 <= i < front.len() && (#[trigger] front[i]).0@ == k;
                assert(entries[i].0@ == k);
            }
        }
        assert forall|k: Seq<char>|
            (exists|i: int|
                0 <= i < entries.len() && (#[trigger] entries[i]).0@ == k) implies bindings(
            entries,
        ).contains_key(k) by {
            let i = choose|i: int| 0 <= i < entries.len() && (#[trigger] entries[i]).0@ == k;
            if i < front.len() {
                assert(front[i].0@ == k);
            }
        }
        if distinct(entries) {
            assert forall|i: int| 0 <= i < entries.len() implies bindings(entries)[(
            #[trigger] entries[i]).0@] == entries[i].1@ by {
                if i < front.len() {
                    assert(front[i] == entries[i]);
                    assert(entries[i].0@ != entries[entries.len() - 1].0@);
                    assert(distinct(front)) by {
                        assert forall|a: int, b: int| 0 <= a < b < front.len() implies (
                        #[trigger] front[a]).0@ != (#[trigger] front[b]).0@ by {
                            assert(front[a] == entries[a]);
                            assert(front[b] == entries[b]);
                        }
                    }
                }
            }
        }
    }
}

/// Two sequences of bindings with the same names and the same values, entry
/// by entry, stand for the same map.
pub proof fn lemma_bindings_alike(a: Seq<(String, Object)>, b: Seq<(String, Object)>)
    requires
        a.len() == b.len(),
        forall|i: int|
            0 <= i < a.len() ==> (#[trigger] a[i]).0@ == b[i].0@ && a[i].1@ == b[i].1@,
    ensures
        bindings(a) == bindings(b),
    decreases a.len(),
{
    reveal_with_fuel(bindings, 3);
    if a.len() > 0 {
        lemma_bindings_alike(a.drop_last(), b.drop_last());
        assert(a[a.len() - 1].0@ == b[a.len() - 1].0@);
        assert(bindings(a) == bindings(a.drop_last()).insert(a.last().0@, a.last().1.view()));
        assert(bindings(b) == bindings(b.drop_last()).insert(b.last().0@, b.last().1.view()));
    }
}

/// Taking one entry out of distinct bindings takes its name out of the map.
pub proof fn lemma_bindings_remove(entries: Seq<(String, Object)>, at: int)
    requires
        distinct(entries),
        0 <= at < entries.len(),
    ensures
        distinct(entries.remove(at)),
        bindings(entries.remove(at)) == bindings(entries).remove(entries[at].0@),
{
    let rest = entries.remove(at);
    assert forall|i: int, j: int| 0 <= i < j < rest.len() implies (#[trigger] rest[i]).0@ != (
    #[trigger] rest[j]).0@ by {
        let a = if i < at {
            i
        } else {
            i + 1
        };
        let b = if j < at {
            j
        } else {
            j + 1
        };
        assert(rest[i] == entries[a]);
        assert(rest[j] == entries[b]);
    }
    lemma_bindings(entries);
    lemma_bindings(rest);
    let left = bindings(rest);
    let right = bindings(entries).remove(entries[at].0@);
    assert forall|k: Seq<char>| left.contains_key(k) <==> right.contains_key(k) by {
        if left.contains_key(k) {
            let i = choose|i: int| 0 <= i < rest.len() && (#[trigger] rest[i]).0@ == k;
            let a = if i < at {
                i
            } else {
                i + 1
            };
            assert(rest[i] == entries[a]);
            assert(entries[a].0@ == k);
            if a < at {
                assert(entries[a].0@ != entries[at].0@);
            } else {
                assert(entries[at].0@ != entries[a].0@);
            }
        }
        if right.contains_key(k) {
            let a = choose|a: int| 0 <= a < entries.len() && (#[trigger] entries[a]).0@ == k;
            let i = if a < at {
                a
            } else {
                a - 1
            };
            assert(rest[i] == entries[a]);
            assert(rest[i].0@ == k);
        }
    }
    assert forall|k: Seq<char>| left.contains_key(k) implies left[k] == right[k] by {
        let i = choose|i: int| 0 <= i < rest.len() && (#[trigger] rest[i]).0@ == k;
        let a = if i < at {
            i
        } else {
            i + 1
        };
        assert(rest[i] == entries[a]);
        assert(left[rest[i].0@] == rest[i].1@);
        assert(bindings(entries)[entries[a].0@] == entries[a].1@);
    }
    assert(left =~= right);
}

/// The index of the binding of `key` in `entries`, if there is one.
fn find(entries: &Vec<(String, Object)>, key: &str) -> (at: Option<usize>)
    ensures
        match at {
            Some(i) => i < entries.len() && entries[i as int].0@ == key@,
            None => forall|i: int| 0 <= i < entries.len() ==> entries[i].0@ != key@,
        },
{
    let mut i: usize = 0;
    while i < entries.len()
        invariant
            i <= entries.len(),
            forall|j: int| 0 <= j < i ==> entries[j].0@ != key@,
        decreases entries.len() - i,
    {
        if same_text(entries[i].0.as_str(), key) {
            return Some(i);
        }
        i += 1;
    }
    None
}

impl View for Environment {
    type V = Map<Seq<char>, ObjectView>;

    /// The bindings, as a map from names to values.
    closed spec fn view(&self) -> Map<Seq<char>, ObjectView>
        decreases self,
    {
        bindings(self.store@)
    }
}

impl Environment {
    /// No name is bound twice.
    #[verifier::type_invariant]
    spec fn inv(self) -> bool {
        distinct(self.store@)
    }

    /// An environment without bindings.
    pub fn new() -> (env: Environment)
        ensures
            env@ == Map::<Seq<char>, ObjectView>::empty(),
    {
        Environment { store: Vec::new() }
    }

    /// Binds `key` to `value`, in place of what `key` was bound to before.
    pub fn update(&mut self, key: String, value: Object)
        ensures
            final(self)@ == old(self)@.insert(key@, value@),
    {
        let mut taken = Environment::new();
        core::mem::swap(self, &mut taken);
        proof {
            use_type_invariant(&taken);
        }
        let mut store = taken.store;
        let ghost before = store@;
        proof {
            lemma_bindings(before);
        }
        match find(&store, key.as_str()) {
            Some(i) => {
                proof {
                    lemma_bindings_remove(before, i as int);
                    lemma_bindings(before.remove(i as int));
                }
                store.remove(i);
            },
            None => {},
        }
        let ghost middle = store@;
        proof {
            lemma_bindings(middle);
            assert(!bindings(middle).contains_key(key@));
            assert(middle.push((key, value)).drop_last() =~= middle);
            assert(bindings(middle.push((key, value))) =~= old(self)@.insert(key@, value@));
            assert forall|i: int, j: int| 0 <= i < j < middle.len() + 1 implies (
            #[trigger] middle.push((key, value))[i]).0@ != (#[trigger] middle.push(
                (key, value),
            )[j]).0@ by {
                if j < middle.len() {
                    assert(middle[i].0@ != middle[j].0@);
                } else {
                    assert(middle[i].0@ != key@);
                }
            }
        }
        store.push((key, value));
        *self = Environment { store };
    }

    /// The bound names, each once, in no particular order.
    pub fn list_keys(&self) -> (keys: Vec<&String>)
        ensures
            forall|i: int| 0 <= i < keys.len() ==> self@.contains_key(#[trigger] keys[i]@),
            forall|k: Seq<char>|
                self@.contains_key(k) ==> exists|i: int|
                    0 <= i < keys.len() && (#[trigger] keys[i])@ == k,
            forall|i: int, j: int|
                0 <= i < j < keys.len() ==> (#[trigger] keys[i])@ != (#[trigger] keys[j])@,
    {
        proof {
            use_type_invariant(self);
            lemma_bindings(self.store@);
        }
        let mut keys: Vec<&String> = Vec::new();
        let mut i: usize = 0;
        while i < self.store.len()
            invariant
                i <= self.store.len(),
                keys.len() == i,
                forall|j: int| 0 <= j < i ==> (#[trigger] keys[j])@ == self.store[j].0@,
            decreases self.store.len() - i,
        {
            keys.push(&self.store[i].0);
            i += 1;
        }
        proof {
            assert forall|k: Seq<char>| self@.contains_key(k) implies exists|i: int|
                0 <= i < keys.len() && (#[trigger] keys[i])@ == k by {
                let j = choose|j: int| 0 <= j < self.store.len() && (#[trigger] self.store[j]).0@
                    == k;
                assert(keys[j]@ == k);
            }
            assert forall|i: int| 0 <= i < keys.len() implies self@.contains_key(
                #[trigger] keys[i]@,
            ) by {
                assert(self.store[i].0@ == keys[i]@);
            }
        }
        keys
    }

    /// Whether `key` is bound.
    pub fn has_key(&self, key: &str) -> (r: bool)
        ensures
            r == self@.contains_key(key@),
    {
        proof {
            use_type_invariant(self);
            lemma_bindings(self.store@);
        }
        find(&self.store, key).is_some()
    }

    /// A copy of what `key` is bound to; for an unbound name, the error that
    /// says so.
    pub fn get(&self, key: &str) -> (value: Object)
        ensures
            value@ == lookup(self@, key@),
        decreases self, 1int,
    {
        proof {
            use_type_invariant(self);
            lemma_bindings(self.store@);
        }
        match find(&self.store, key) {
            Some(i) => {
                proof {
                    vstd::std_specs::vec::axiom_vec_index_decreases(self.store, i as int);
                }
                self.store[i].1.get_copy()
            },
            None => {
                let mut message = owned("unknown identifier: ");
                message.append(key);
                Object::Error(Error { message })
            },
        }
    }

    /// A deep copy of the environment.
    pub fn get_copy(&self) -> (copy: Environment)
        ensures
            copy@ == self@,
        decreases self, 1int,
    {
        proof {
            use_type_invariant(self);
        }
        let mut store: Vec<(String, Object)> = Vec::new();
        let mut i: usize = 0;
        while i < self.store.len()
            invariant
                i <= self.store.len(),
                store.len() == i,
                forall|j: int|
                    0 <= j < i ==> (#[trigger] store[j]).0@ == self.store[j].0@ && store[j].1@
                        == self.store[j].1@,
            decreases self.store.len() - i,
        {
            proof {
                vstd::std_specs::vec::axiom_vec_index_decreases(self.store, i as int);
            }
            let name = self.store[i].0.clone();
            let value = self.store[i].1.get_copy();
            store.push((name, value));
            i += 1;
        }
        proof {
            lemma_bindings_alike(store@, self.store@);
            assert forall|a: int, b: int| 0 <= a < b < store.len() implies (
            #[trigger] store[a]).0@ != (#[trigger] store[b]).0@ by {
                assert(self.store[a].0@ != self.store[b].0@);
            }
        }
        Environment { store }
    }

    /// Adds the bindings of `other`; where both bind a name, that of `other`
    /// counts.
    pub fn extend(&mut self, other: &Environment)
        ensures
            final(self)@ == old(self)@.union_prefer_right(other@),
    {
        let mut i: usize = 0;
        proof {
            assert(other.store@.take(0) =~= Seq::empty());
            assert(self@ =~= old(self)@.union_prefer_right(bindings(other.store@.take(0))));
        }
        while i < other.store.len()
            invariant
                i <= other.store.len(),
                self@ == old(self)@.union_prefer_right(bindings(other.store@.take(i as int))),
            decreases other.store.len() - i,
        {
            let name = other.store[i].0.clone();
            let value = other.store[i].1.get_copy();
            proof {
                reveal_with_fuel(bindings, 3);
                let longer = other.store@.take(i + 1);
                assert(longer.drop_last() =~= other.store@.take(i as int));
                assert(longer.last() == other.store@[i as int]);
                assert(bindings(longer) == bindings(longer.drop_last()).insert(
                    longer.last().0@,
                    longer.last().1.view(),
                ));
                assert(old(self)@.union_prefer_right(bindings(longer)) =~= old(
                    self,
                )@.union_prefer_right(bindings(other.store@.take(i as int))).insert(
                    name@,
                    value@,
                ));
            }
            self.update(name, value);
            i += 1;
        }
        proof {
            assert(other.store@.take(i as int) =~= other.store@);
        }
    }
}

} // verus!
