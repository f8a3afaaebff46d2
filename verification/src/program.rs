//! A program: the top-level statements of a session, the session's
//! environment, and how far evaluation has come.
use crate::environment::Environment;
use crate::eval::{is_error, value_view, MAX_CALL_DEPTH};
use crate::semantics::{is_failure, run, Run};
use crate::statements::{
    lemma_node_views, lemma_node_views_add, lemma_node_views_take, node_views, NodeView,
    ProgramNode,
};
use crate::types::{Object, ObjectView};
use vstd::prelude::*;

verus! {

/// The statements of a session with the environment they run in. Evaluation
/// resumes where it stopped.
pub struct Program {
    pub statements: Vec<ProgramNode>,
    pub environment: Environment,
    current_idx: usize,
    call_depth: usize,
}

impl Program {
    /// The index of the first statement that is not done.
    pub closed spec fn position(&self) -> int {
        self.current_idx as int
    }

    /// The statements, by their content.
    pub closed spec fn nodes(&self) -> Seq<NodeView> {
        node_views(self.statements@)
    }

    /// The bindings of the session environment.
    pub closed spec fn bindings(&self) -> Map<Seq<char>, ObjectView> {
        self.environment@
    }

    /// How many calls may be nested one inside the other while this program
    /// runs.
    pub closed spec fn call_depth(&self) -> nat {
        self.call_depth as nat
    }

    /// A program of `statements` with an empty environment, nothing done.
    /// Calls may nest `MAX_CALL_DEPTH` deep; `set_call_depth` changes that.
    pub fn new(statements: Vec<ProgramNode>) -> (program: Program)
        ensures
            program.nodes() == node_views(statements@),
            program.bindings() == Map::<Seq<char>, ObjectView>::empty(),
            program.position() == 0,
            program.call_depth() == MAX_CALL_DEPTH,
    {
        Program {
            statements,
            environment: Environment::new(),
            current_idx: 0,
            call_depth: MAX_CALL_DEPTH,
        }
    }

    /// Sets how many calls may be nested one inside the other. Every nested
    /// call takes room on the stack of the thread that evaluates, so the
    /// depth to choose is what that stack bears.
    pub fn set_call_depth(&mut self, depth: usize)
        ensures
            final(self).call_depth() == depth,
            final(self).nodes() == old(self).nodes(),
            final(self).bindings() == old(self).bindings(),
            final(self).position() == old(self).position(),
    {
        self.call_depth = depth;
    }

    /// The session environment.
    pub fn environment(&self) -> (environment: &Environment)
        ensures
            environment@ == self.bindings(),
    {
        &self.environment
    }

    /// The statements.
    pub fn statements(&self) -> (statements: &Vec<ProgramNode>)
        ensures
            node_views(statements@) == self.nodes(),
    {
        &self.statements
    }

    /// The index of the first statement that is not done.
    pub fn current_index(&self) -> (index: usize)
        ensures
            index == self.position(),
    {
        self.current_idx
    }

    /// How many calls may be nested one inside the other.
    pub fn call_limit(&self) -> (depth: usize)
        ensures
            depth == self.call_depth(),
    {
        self.call_depth
    }

    /// Adds `statements` at the end.
    pub fn extend(&mut self, statements: Vec<ProgramNode>)
        ensures
            final(self).nodes() == old(self).nodes() + node_views(statements@),
            final(self).bindings() == old(self).bindings(),
            final(self).position() == old(self).position(),
            final(self).call_depth() == old(self).call_depth(),
    {
        proof {
            lemma_node_views_add(self.statements@, statements@);
        }
        let mut statements = statements;
        self.statements.append(&mut statements);
    }

    fn total_statements(&self) -> (n: usize)
        ensures
            n == self.statements.len(),
    {
        self.statements.len()
    }

    /// Evaluates the statements that are not done yet, in order, and gives
    /// the value of the run.
    ///
    /// Calls may nest `call_depth()` deep and no deeper: a call beyond that
    /// gives the error `call depth exceeded`, which ends the run as any other
    /// error does. The bound is what makes every evaluation end; a new
    /// program has it at `MAX_CALL_DEPTH`, and `set_call_depth` sets it to
    /// what the stack of the evaluating thread bears.
    pub fn eval(&mut self) -> (value: Option<Object>)
        ensures
            final(self).nodes() == old(self).nodes(),
            final(self).call_depth() == old(self).call_depth(),
            ({
                let r = run(
                    old(self).nodes(),
                    old(self).position(),
                    old(self).bindings(),
                    old(self).call_depth(),
                    None,
                );
                &&& value_view(value) == r.value
                &&& final(self).bindings() == r.env
                &&& final(self).position() == r.position
            }),
    {
        let ghost views = node_views(self.statements@);
        let ghost start = self.environment@;
        let ghost first = self.current_idx as int;
        let depth = self.call_depth;
        proof {
            lemma_node_views(self.statements@);
        }
        if self.current_idx > self.total_statements() {
            return None;
        }
        let mut result: Option<Object> = None;
        while self.current_idx < self.statements.len()
            invariant
                self.statements == old(self).statements,
                views == node_views(self.statements@),
                views.len() == self.statements.len(),
                forall|k: int|
                    0 <= k < self.statements.len() ==> (#[trigger] views[k])
                        == self.statements[k]@,
                start == old(self).environment@,
                depth == old(self).call_depth,
                self.call_depth == depth,
                first == old(self).position(),
                self.current_idx <= self.statements.len(),
                run(views, first, start, depth as nat, None) == run(
                    views,
                    self.current_idx as int,
                    self.environment@,
                    depth as nat,
                    value_view(result),
                ),
            decreases self.statements.len() - self.current_idx,
        {
            let ghost before = self.environment@;
            let ghost at = self.current_idx as int;
            let mut trial = self.environment.get_copy();
            let c = self.statements[self.current_idx].eval_within(&mut trial, depth);
            proof {
                assert(views[at] == self.statements[at]@);
                let step = crate::semantics::eval(views[at], before, depth as nat);
                assert(run(views, at, before, depth as nat, value_view(result)) == if is_failure(
                    step.value,
                ) {
                    Run { value: step.value, env: before, position: at }
                } else if step.returned {
                    Run { value: step.value, env: step.env, position: at }
                } else {
                    run(views, at + 1, step.env, depth as nat, step.value)
                });
            }
            if is_error(c.value.as_ref()) {
                return c.value;
            }
            self.environment = trial;
            if c.returned {
                return c.value;
            }
            result = c.value;
            self.current_idx += 1;
        }
        result
    }

    /// Drops the statements that are not done, so that evaluation resumes
    /// with what is added next.
    pub fn walk_back_error(&mut self)
        ensures
            final(self).bindings() == old(self).bindings(),
            final(self).position() == old(self).position(),
            final(self).call_depth() == old(self).call_depth(),
            final(self).nodes() == if old(self).position() <= old(self).nodes().len() {
                old(self).nodes().take(old(self).position())
            } else {
                old(self).nodes()
            },
    {
        proof {
            lemma_node_views(self.statements@);
            if self.current_idx <= self.statements.len() {
                lemma_node_views_take(self.statements@, self.current_idx as int);
            }
        }
        self.statements.truncate(self.current_idx);
    }
}

} // verus!
