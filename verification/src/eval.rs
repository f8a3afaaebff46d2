//! The evaluator: a walk over the syntax tree that follows `semantics`.
use crate::environment::Environment;
use crate::semantics::{
    apply_infix, apply_prefix, bind, boolean_infix, eval_block, eval_call, gather, integer_infix,
    is_failure, or_null, tag_of, truthy, wrapping_quotient, Gathered, Outcome,
};
use crate::statements::{
    copy_nodes, lemma_node_views, node_views, CallExpression, FunctionLiteralExpression,
    IfExpression, InfixExpression, LetStatement, NodeView, PrefixExpression, ProgramNode,
    ReturnStatement,
};
use crate::text::{natural, owned, same_text};
use crate::types::{Boolean, Error, Function, Integer, Null, Object, ObjectView, Type};
use vstd::prelude::*;
use vstd::string::StringExecFns;

verus! {

/// How many calls may be nested one inside the other where nothing else is
/// chosen. Every nested call takes a handful of frames on the stack of the
/// evaluating thread; two hundred of them fit the stack that a thread gets by
/// default with room to spare. `ProgramNode::eval_within` and
/// `Program::set_call_depth` take another bound.
pub const MAX_CALL_DEPTH: usize = 200;

/// How one evaluation ended: the value it gave, if any, and whether a
/// `return` is unwinding to the enclosing call.
pub struct Completion {
    pub value: Option<Object>,
    pub returned: bool,
}

/// The content of an optional value.
pub open spec fn value_view(value: Option<Object>) -> Option<ObjectView> {
    match value {
        Some(object) => Some(object@),
        None => None,
    }
}

/// The contents of a sequence of values, in order.
pub open spec fn object_views(objects: Seq<Object>) -> Seq<ObjectView> {
    objects.map_values(|o: Object| o@)
}

/// Whether `completion` and `env` are what `outcome` describes.
pub open spec fn ended(completion: Completion, env: Environment, outcome: Outcome) -> bool {
    &&& value_view(completion.value) == outcome.value
    &&& completion.returned == outcome.returned
    &&& env@ == outcome.env
}

/// Whether `object` is an error.
pub fn is_error(object: Option<&Object>) -> (r: bool)
    ensures
        r == match object {
            Some(o) => is_failure(Some(o@)),
            None => false,
        },
{
    match object {
        Some(Object::Error(_)) => true,
        _ => false,
    }
}

impl Completion {
    /// Whether this ends the evaluation around it too.
    pub fn halts(&self) -> (r: bool)
        ensures
            r == (self.returned || is_failure(value_view(self.value))),
    {
        self.returned || is_error(self.value.as_ref())
    }

    /// This as an operand sees it: a `return` in an operand goes no further
    /// than the operand.
    pub fn settled(self) -> (c: Completion)
        ensures
            c.value == self.value,
            !c.returned,
    {
        Completion { value: self.value, returned: false }
    }
}

/// The tag of a value; of no value, `NULL`.
fn tag(value: &Option<Object>) -> (t: Type)
    ensures
        t == tag_of(value_view(*value)),
{
    match value {
        Some(object) => object.type_(),
        None => Type::NULL,
    }
}

/// The error with the given message.
fn failure(message: String) -> (o: Object)
    ensures
        o@ == ObjectView::Error(message@),
{
    Object::Error(Error { message })
}

/// A prefix operator applied to its operand.
pub fn prefix_value(operator: &str, right: Option<Object>) -> (o: Object)
    ensures
        o@ == apply_prefix(operator@, value_view(right)),
{
    if same_text(operator, "!") {
        match right {
            Some(Object::Boolean(b)) => Object::Boolean(Boolean { value: !b.value }),
            _ => Object::Boolean(Boolean { value: false }),
        }
    } else if same_text(operator, "-") {
        match right {
            Some(Object::Integer(i)) => {
                let zero: i64 = 0;
                Object::Integer(Integer { value: zero.wrapping_sub(i.value) })
            },
            _ => {
                let mut message = owned("invalid type: -");
                message.append(tag(&right).name());
                failure(message)
            },
        }
    } else {
        let mut message = owned("unknown operator: ");
        message.append(operator);
        message.append(tag(&right).name());
        failure(message)
    }
}

/// The quotient, rounded toward zero and wrapping around.
fn divide(a: i64, b: i64) -> (q: i64)
    requires
        b != 0,
    ensures
        q == wrapping_quotient(a, b),
{
    proof {
        lemma_quotient_bounds(if a < 0 {
            -a
        } else {
            a as int
        }, if b < 0 {
            -b
        } else {
            b as int
        });
    }
    match a.checked_div(b) {
        Some(q) => q,
        None => i64::MIN,
    }
}

/// The quotient of a number that is not negative by a positive one lies
/// between zero and the number.
proof fn lemma_quotient_bounds(x: int, d: int)
    requires
        x >= 0,
        d > 0,
    ensures
        0 <= x / d <= x,
        d >= 2 ==> 2 * (x / d) <= x,
        x == 0 ==> x / d == 0,
        x * -1 == -x,
        d * -1 == -d,
        (x / d) * -1 == -(x / d),
{
    assert(0 <= x / d <= x) by (nonlinear_arith)
        requires
            x >= 0,
            d > 0,
    ;
    assert(d >= 2 ==> 2 * (x / d) <= x) by (nonlinear_arith)
        requires
            x >= 0,
            d > 0,
    ;
}

/// An infix operator applied to two integers.
fn integer_value(operator: &str, a: i64, b: i64) -> (o: Option<Object>)
    ensures
        value_view(o) == integer_infix(operator@, a, b),
{
    if same_text(operator, "-") {
        Some(Object::Integer(Integer { value: a.wrapping_sub(b) }))
    } else if same_text(operator, "+") {
        Some(Object::Integer(Integer { value: a.wrapping_add(b) }))
    } else if same_text(operator, "/") {
        if b == 0 {
            Some(failure(owned("division by zero")))
        } else {
            Some(Object::Integer(Integer { value: divide(a, b) }))
        }
    } else if same_text(operator, "*") {
        Some(Object::Integer(Integer { value: a.wrapping_mul(b) }))
    } else if same_text(operator, ">") {
        Some(Object::Boolean(Boolean { value: a > b }))
    } else if same_text(operator, "<") {
        Some(Object::Boolean(Boolean { value: a < b }))
    } else if same_text(operator, "==") {
        Some(Object::Boolean(Boolean { value: a == b }))
    } else if same_text(operator, "!=") {
        Some(Object::Boolean(Boolean { value: a != b }))
    } else {
        None
    }
}

/// An infix operator applied to two booleans.
fn boolean_value(operator: &str, a: bool, b: bool) -> (o: Option<Object>)
    ensures
        value_view(o) == boolean_infix(operator@, a, b),
{
    if same_text(operator, "==") {
        Some(Object::Boolean(Boolean { value: a == b }))
    } else if same_text(operator, "!=") {
        Some(Object::Boolean(Boolean { value: a != b }))
    } else {
        None
    }
}

/// An infix operator applied to its operands.
pub fn infix_value(operator: &str, left: Option<Object>, right: Option<Object>) -> (o: Option<
    Object,
>)
    ensures
        value_view(o) == apply_infix(operator@, value_view(left), value_view(right)),
{
    match (&left, &right) {
        (Some(Object::Integer(a)), Some(Object::Integer(b))) => integer_value(
            operator,
            a.value,
            b.value,
        ),
        (Some(Object::Boolean(a)), Some(Object::Boolean(b))) => boolean_value(
            operator,
            a.value,
            b.value,
        ),
        _ => {
            let mut message = owned("type mismatch: ");
            message.append(tag(&left).name());
            message.append(" ");
            message.append(operator);
            message.append(" ");
            message.append(tag(&right).name());
            Some(failure(message))
        },
    }
}

/// Whether a condition holds.
pub fn is_truthy(value: &Option<Object>) -> (r: bool)
    ensures
        r == truthy(value_view(*value)),
{
    match value {
        Some(Object::Boolean(b)) => b.value,
        Some(Object::Null(_)) => false,
        Some(_) => true,
        None => false,
    }
}

/// The content of a sequence of values with one more value.
pub proof fn lemma_object_views_push(objects: Seq<Object>, object: Object)
    ensures
        object_views(objects.push(object)) == object_views(objects).push(object@),
{
    assert(object_views(objects.push(object)) =~= object_views(objects).push(object@));
}

/// Evaluates the statements of a block in order, each in the environment
/// that the one before it left, up to the first that halts.
pub fn eval_statements(statements: &Vec<ProgramNode>, env: &mut Environment, depth: usize) -> (c:
    Completion)
    ensures
        ended(
            c,
            *final(env),
            eval_block(node_views(statements@), 0, old(env)@, depth as nat, None),
        ),
    decreases depth, statements,
{
    let ghost views = node_views(statements@);
    let ghost start = env@;
    proof {
        lemma_node_views(statements@);
    }
    let mut last: Option<Object> = None;
    let mut i: usize = 0;
    while i < statements.len()
        invariant
            i <= statements.len(),
            views == node_views(statements@),
            start == old(env)@,
            views.len() == statements.len(),
            forall|k: int| 0 <= k < statements.len() ==> (#[trigger] views[k]) == statements[k]@,
            eval_block(views, 0, start, depth as nat, None) == eval_block(
                views,
                i as int,
                env@,
                depth as nat,
                value_view(last),
            ),
        decreases statements.len() - i,
    {
        proof {
            vstd::std_specs::vec::axiom_vec_index_decreases(*statements, i as int);
        }
        let ghost before = env@;
        let r = statements[i].eval_within(env, depth);
        proof {
            assert(views[i as int] == statements[i as int]@);
            let step = crate::semantics::eval(views[i as int], before, depth as nat);
            assert(eval_block(views, i as int, before, depth as nat, value_view(last)) == if step.halts() {
                step
            } else {
                eval_block(views, i + 1, step.env, depth as nat, step.value)
            });
        }
        if r.halts() {
            return r;
        }
        last = r.value;
        i += 1;
    }
    Completion { value: last, returned: false }
}

/// Evaluates the arguments of a call in order, up to the first that gives
/// an error.
pub fn eval_arguments(arguments: &Vec<ProgramNode>, env: &mut Environment, depth: usize) -> (r:
    Result<Vec<Object>, Completion>)
    ensures
        ({
            let g = gather(node_views(arguments@), 0, old(env)@, depth as nat, Seq::empty());
            &&& final(env)@ == g.env
            &&& match g.stopped {
                Some(stop) => match r {
                    Err(c) => value_view(c.value) == stop.value && c.returned == stop.returned,
                    Ok(_) => false,
                },
                None => match r {
                    Ok(values) => object_views(values@) == g.values,
                    Err(_) => false,
                },
            }
        }),
    decreases depth, arguments,
{
    let ghost views = node_views(arguments@);
    let ghost start = env@;
    proof {
        lemma_node_views(arguments@);
    }
    let mut values: Vec<Object> = Vec::new();
    let mut i: usize = 0;
    proof {
        assert(object_views(values@) =~= Seq::<ObjectView>::empty());
    }
    while i < arguments.len()
        invariant
            i <= arguments.len(),
            views == node_views(arguments@),
            start == old(env)@,
            views.len() == arguments.len(),
            forall|k: int| 0 <= k < arguments.len() ==> (#[trigger] views[k]) == arguments[k]@,
            gather(views, 0, start, depth as nat, Seq::empty()) == gather(
                views,
                i as int,
                env@,
                depth as nat,
                object_views(values@),
            ),
        decreases arguments.len() - i,
    {
        proof {
            vstd::std_specs::vec::axiom_vec_index_decreases(*arguments, i as int);
        }
        let ghost before = env@;
        let c = arguments[i].eval_within(env, depth);
        proof {
            assert(views[i as int] == arguments[i as int]@);
            let step = crate::semantics::eval(views[i as int], before, depth as nat);
            assert(gather(views, i as int, before, depth as nat, object_views(values@)) == if is_failure(
                step.value,
            ) {
                Gathered {
                    values: object_views(values@),
                    env: step.env,
                    stopped: Some(step.settled()),
                }
            } else {
                gather(
                    views,
                    i + 1,
                    step.env,
                    depth as nat,
                    object_views(values@).push(or_null(step.value)),
                )
            });
        }
        if is_error(c.value.as_ref()) {
            return Err(c.settled());
        }
        let value = match c.value {
            Some(object) => object,
            None => Object::Null(Null {  }),
        };
        proof {
            lemma_object_views_push(values@, value);
        }
        values.push(value);
        i += 1;
    }
    Ok(values)
}

/// Binds each parameter that has a value to a copy of that value.
pub fn bind_parameters(parameters: &Vec<ProgramNode>, values: &Vec<Object>, env: &mut Environment)
    requires
        values.len() <= parameters.len(),
    ensures
        final(env)@ == bind(node_views(parameters@), object_views(values@), 0, old(env)@),
{
    let ghost names = node_views(parameters@);
    let ghost given = object_views(values@);
    let ghost start = env@;
    proof {
        lemma_node_views(parameters@);
    }
    let mut i: usize = 0;
    while i < values.len()
        invariant
            i <= values.len() <= parameters.len(),
            names == node_views(parameters@),
            given == object_views(values@),
            start == old(env)@,
            names.len() == parameters.len(),
            forall|k: int| 0 <= k < parameters.len() ==> (#[trigger] names[k]) == parameters[k]@,
            bind(names, given, 0, start) == bind(names, given, i as int, env@),
        decreases values.len() - i,
    {
        proof {
            reveal_with_fuel(bind, 2);
            assert(names[i as int] == parameters[i as int]@);
            assert(given[i as int] == values[i as int]@);
        }
        env.update(parameters[i].to_string(), values[i].get_copy());
        i += 1;
    }
    proof {
        reveal_with_fuel(bind, 2);
    }
}

impl LetStatement {
    /// Evaluates the value and binds the name to it. The statement itself
    /// has no value.
    pub fn eval_within(&self, env: &mut Environment, depth: usize) -> (c: Completion)
        ensures
            ended(
                c,
                *final(env),
                crate::semantics::eval(ProgramNode::Let(*self)@, old(env)@, depth as nat),
            ),
        decreases depth, self,
    {
        let v = self.value.eval_within(env, depth);
        if is_error(v.value.as_ref()) {
            return v.settled();
        }
        match v.value {
            Some(object) => {
                env.update(self.name.to_string(), object);
            },
            None => {},
        }
        Completion { value: None, returned: false }
    }
}

impl ReturnStatement {
    /// Evaluates the value and starts unwinding to the enclosing call.
    pub fn eval_within(&self, env: &mut Environment, depth: usize) -> (c: Completion)
        ensures
            ended(
                c,
                *final(env),
                crate::semantics::eval(ProgramNode::Return(*self)@, old(env)@, depth as nat),
            ),
        decreases depth, self,
    {
        let v = self.value.eval_within(env, depth);
        Completion { value: v.value, returned: true }
    }
}

impl PrefixExpression {
    /// Evaluates the operand and applies the operator to it.
    pub fn eval_within(&self, env: &mut Environment, depth: usize) -> (c: Completion)
        ensures
            ended(
                c,
                *final(env),
                crate::semantics::eval(ProgramNode::Prefix(*self)@, old(env)@, depth as nat),
            ),
        decreases depth, self,
    {
        let r = self.right.eval_within(env, depth);
        if is_error(r.value.as_ref()) {
            return r.settled();
        }
        Completion { value: Some(prefix_value(self.operator.as_str(), r.value)), returned: false }
    }
}

impl InfixExpression {
    /// Evaluates the left operand, then the right one, and applies the
    /// operator to them.
    pub fn eval_within(&self, env: &mut Environment, depth: usize) -> (c: Completion)
        ensures
            ended(
                c,
                *final(env),
                crate::semantics::eval(ProgramNode::Infix(*self)@, old(env)@, depth as nat),
            ),
        decreases depth, self,
    {
        let l = self.left.eval_within(env, depth);
        if is_error(l.value.as_ref()) {
            return l.settled();
        }
        let r = self.right.eval_within(env, depth);
        if is_error(r.value.as_ref()) {
            return r.settled();
        }
        Completion {
            value: infix_value(self.operator.as_str(), l.value, r.value),
            returned: false,
        }
    }
}

impl IfExpression {
    /// Evaluates the condition and then the branch that it selects.
    pub fn eval_within(&self, env: &mut Environment, depth: usize) -> (c: Completion)
        ensures
            ended(
                c,
                *final(env),
                crate::semantics::eval(ProgramNode::If(*self)@, old(env)@, depth as nat),
            ),
        decreases depth, self,
    {
        let c = self.condition.eval_within(env, depth);
        if is_error(c.value.as_ref()) {
            return c.settled();
        }
        if is_truthy(&c.value) {
            self.consequence.eval_within(env, depth)
        } else {
            match &self.alternative {
                Some(other) => other.eval_within(env, depth),
                None => Completion { value: None, returned: false },
            }
        }
    }
}

impl FunctionLiteralExpression {
    /// The function value: copies of the parameters, the body and the
    /// environment as it is now.
    pub fn eval_within(&self, env: &mut Environment, depth: usize) -> (c: Completion)
        ensures
            ended(
                c,
                *final(env),
                crate::semantics::eval(ProgramNode::Function(*self)@, old(env)@, depth as nat),
            ),
    {
        let function = Function {
            parameters: copy_nodes(&self.parameters),
            body: Box::new(self.body.get_copy()),
            env: env.get_copy(),
        };
        Completion { value: Some(Object::Function(function)), returned: false }
    }
}

impl CallExpression {
    /// Evaluates the call in a scope of its own.
    pub fn eval_within(&self, env: &mut Environment, depth: usize) -> (c: Completion)
        ensures
            ended(
                c,
                *final(env),
                crate::semantics::eval(ProgramNode::Call(*self)@, old(env)@, depth as nat),
            ),
        decreases depth, self,
    {
        let ghost node = ProgramNode::Call(*self)@;
        let ghost start = env@;
        proof {
            assert(crate::semantics::eval(node, start, depth as nat) == eval_call(
                node,
                start,
                depth as nat,
            ));
            assert(node == NodeView::Call {
                token: self.token@,
                function: Box::new(self.function@),
                arguments: node_views(self.arguments@),
            });
        }
        let mut scoped = env.get_copy();
        let f = self.function.eval_within(&mut scoped, depth);
        if is_error(f.value.as_ref()) {
            return f.settled();
        }
        let function = match f.value {
            Some(Object::Function(function)) => function,
            other => {
                let mut message = owned("not a function: ");
                message.append(tag(&other).name());
                return Completion { value: Some(failure(message)), returned: false };
            },
        };
        let values = match eval_arguments(&self.arguments, &mut scoped, depth) {
            Ok(values) => values,
            Err(stop) => {
                return stop.settled();
            },
        };
        proof {
            lemma_node_views(function.parameters@);
            assert(object_views(values@).len() == values.len());
        }
        if values.len() > function.parameters.len() {
            let mut message = owned("wrong number of arguments: want=");
            message.append(natural(function.parameters.len()).as_str());
            message.append(", got=");
            message.append(natural(values.len()).as_str());
            return Completion { value: Some(failure(message)), returned: false };
        }
        if depth == 0 {
            return Completion { value: Some(failure(owned("call depth exceeded"))), returned: false };
        }
        scoped.extend(&function.env);
        bind_parameters(&function.parameters, &values, &mut scoped);
        let r = function.body.eval_within(&mut scoped, depth - 1);
        Completion { value: r.value, returned: false }
    }
}

impl ProgramNode {
    /// Evaluates the node in `env`, with `depth` nested calls allowed.
    pub fn eval_within(&self, env: &mut Environment, depth: usize) -> (c: Completion)
        ensures
            ended(c, *final(env), crate::semantics::eval(self@, old(env)@, depth as nat)),
        decreases depth, self,
    {
        match self {
            ProgramNode::Let(s) => s.eval_within(env, depth),
            ProgramNode::Return(s) => s.eval_within(env, depth),
            ProgramNode::Expression(s) => s.expression.eval_within(env, depth),
            ProgramNode::Block(s) => eval_statements(&s.statements, env, depth),
            ProgramNode::Identifier(s) => Completion {
                value: Some(env.get(s.value.as_str())),
                returned: false,
            },
            ProgramNode::Integer(s) => Completion {
                value: Some(Object::Integer(Integer { value: s.value })),
                returned: false,
            },
            ProgramNode::Boolean(s) => Completion {
                value: Some(Object::Boolean(Boolean { value: s.value })),
                returned: false,
            },
            ProgramNode::Prefix(s) => s.eval_within(env, depth),
            ProgramNode::Infix(s) => s.eval_within(env, depth),
            ProgramNode::If(s) => s.eval_within(env, depth),
            ProgramNode::Function(s) => s.eval_within(env, depth),
            ProgramNode::Call(s) => s.eval_within(env, depth),
        }
    }

    /// Evaluates the node in `env`: its value, if it has one.
    ///
    /// Calls may nest `MAX_CALL_DEPTH` deep and no deeper: a call beyond
    /// that gives the error `call depth exceeded`. The bound is what makes
    /// every evaluation end; `eval_within` takes a bound of the caller's
    /// choice.
    pub fn eval(&self, env: &mut Environment) -> (value: Option<Object>)
        ensures
            value_view(value) == crate::semantics::eval(
                self@,
                old(env)@,
                MAX_CALL_DEPTH as nat,
            ).value,
            final(env)@ == crate::semantics::eval(self@, old(env)@, MAX_CALL_DEPTH as nat).env,
    {
        self.eval_within(env, MAX_CALL_DEPTH).value
    }
}

/// Evaluates `node` in `env`: its value, if it has one.
pub fn eval(node: &ProgramNode, env: &mut Environment) -> (value: Option<Object>)
    ensures
        value_view(value) == crate::semantics::eval(node@, old(env)@, MAX_CALL_DEPTH as nat).value,
        final(env)@ == crate::semantics::eval(node@, old(env)@, MAX_CALL_DEPTH as nat).env,
{
    node.eval(env)
}

} // verus!
