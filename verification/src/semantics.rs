//! What evaluation computes, as a function of the tree, the environment and
//! the number of nested calls still allowed.
use crate::environment::lookup;
use crate::statements::{print, NodeView};
use crate::text::int_text;
use crate::types::{tag_name, ObjectView, Type};
use vstd::prelude::*;
use vstd::wrapping::i64_specs::{wrapping_add, wrapping_mul, wrapping_sub};

verus! {

/// How one evaluation ends: the value it gives, if any, the environment it
/// leaves, and whether a `return` is unwinding to the enclosing call.
pub ghost struct Outcome {
    pub value: Option<ObjectView>,
    pub env: Map<Seq<char>, ObjectView>,
    pub returned: bool,
}

/// Whether `value` is an error.
pub open spec fn is_failure(value: Option<ObjectView>) -> bool {
    value matches Some(ObjectView::Error(_))
}

impl Outcome {
    /// Whether the evaluation that ended so ends the evaluation around it
    /// too: an error, or a `return` on its way out.
    pub open spec fn halts(self) -> bool {
        self.returned || is_failure(self.value)
    }

    /// The outcome as an operand sees it: a `return` in an operand goes no
    /// further than the operand.
    pub open spec fn settled(self) -> Outcome {
        Outcome { value: self.value, env: self.env, returned: false }
    }
}

/// The tag of a value; of no value, `NULL`.
pub open spec fn tag_of(value: Option<ObjectView>) -> Type {
    match value {
        Some(object) => object.type_(),
        None => Type::NULL,
    }
}

/// A value; in place of no value, null.
pub open spec fn or_null(value: Option<ObjectView>) -> ObjectView {
    match value {
        Some(object) => object,
        None => ObjectView::Null,
    }
}

/// Whether a condition holds: a boolean by its value, null and no value
/// never, anything else always.
pub open spec fn truthy(value: Option<ObjectView>) -> bool {
    match value {
        Some(ObjectView::Boolean(b)) => b,
        Some(ObjectView::Null) => false,
        Some(_) => true,
        None => false,
    }
}

/// The quotient of `a` by `b`, rounded toward zero.
pub open spec fn quotient(a: int, b: int) -> int
    recommends
        b != 0,
{
    if a >= 0 && b > 0 {
        a / b
    } else if a < 0 && b < 0 {
        (-a) / (-b)
    } else if a < 0 {
        -((-a) / b)
    } else {
        -(a / (-b))
    }
}

/// The quotient of two 64-bit integers, rounded toward zero. The one
/// quotient that does not fit, that of the least integer by -1, wraps around
/// to the least integer.
pub open spec fn wrapping_quotient(a: i64, b: i64) -> i64
    recommends
        b != 0,
{
    if a == i64::MIN && b == -1 {
        i64::MIN
    } else {
        quotient(a as int, b as int) as i64
    }
}

/// The message for a minus sign before a value that is no integer.
pub open spec fn invalid_type(operand: Type) -> Seq<char> {
    "invalid type: -"@ + tag_name(operand)
}

/// The message for a prefix operator that is neither `!` nor `-`: the
/// operator and the tag of its operand.
pub open spec fn unknown_operator(operator: Seq<char>, operand: Type) -> Seq<char> {
    "unknown operator: "@ + operator + tag_name(operand)
}

/// The message for an infix operator between values that are neither two
/// integers nor two booleans.
pub open spec fn type_mismatch(left: Type, operator: Seq<char>, right: Type) -> Seq<char> {
    "type mismatch: "@ + tag_name(left) + " "@ + operator + " "@ + tag_name(right)
}

/// The message for a division by zero.
pub open spec fn division_by_zero() -> Seq<char> {
    "division by zero"@
}

/// The message for a call of a value that is no function.
pub open spec fn not_a_function(found: Type) -> Seq<char> {
    "not a function: "@ + tag_name(found)
}

/// The message for a call with more arguments than the function has
/// parameters.
pub open spec fn wrong_arity(want: int, got: int) -> Seq<char> {
    "wrong number of arguments: want="@ + int_text(want) + ", got="@ + int_text(got)
}

/// The message for a call that would nest deeper than is allowed.
pub open spec fn too_deep() -> Seq<char> {
    "call depth exceeded"@
}

/// A prefix operator applied to its operand. `!` negates a boolean and gives
/// `false` for anything else; `-` negates an integer, wrapping around, and is
/// an error on anything else; any other operator is an error.
pub open spec fn apply_prefix(operator: Seq<char>, right: Option<ObjectView>) -> ObjectView {
    if operator == "!"@ {
        match right {
            Some(ObjectView::Boolean(b)) => ObjectView::Boolean(!b),
            _ => ObjectView::Boolean(false),
        }
    } else if operator == "-"@ {
        match right {
            Some(ObjectView::Integer(i)) => ObjectView::Integer(wrapping_sub(0, i)),
            _ => ObjectView::Error(invalid_type(tag_of(right))),
        }
    } else {
        ObjectView::Error(unknown_operator(operator, tag_of(right)))
    }
}

/// An infix operator applied to two integers. Arithmetic wraps around;
/// division by zero is an error; an operator that is none of the eight gives
/// no value.
pub open spec fn integer_infix(operator: Seq<char>, a: i64, b: i64) -> Option<ObjectView> {
    if operator == "-"@ {
        Some(ObjectView::Integer(wrapping_sub(a, b)))
    } else if operator == "+"@ {
        Some(ObjectView::Integer(wrapping_add(a, b)))
    } else if operator == "/"@ {
        if b == 0 {
            Some(ObjectView::Error(division_by_zero()))
        } else {
            Some(ObjectView::Integer(wrapping_quotient(a, b)))
        }
    } else if operator == "*"@ {
        Some(ObjectView::Integer(wrapping_mul(a, b)))
    } else if operator == ">"@ {
        Some(ObjectView::Boolean(a > b))
    } else if operator == "<"@ {
        Some(ObjectView::Boolean(a < b))
    } else if operator == "=="@ {
        Some(ObjectView::Boolean(a == b))
    } else if operator == "!="@ {
        Some(ObjectView::Boolean(a != b))
    } else {
        None
    }
}

/// An infix operator applied to two booleans: `==` and `!=` compare, any
/// other operator gives no value.
pub open spec fn boolean_infix(operator: Seq<char>, a: bool, b: bool) -> Option<ObjectView> {
    if operator == "=="@ {
        Some(ObjectView::Boolean(a == b))
    } else if operator == "!="@ {
        Some(ObjectView::Boolean(a != b))
    } else {
        None
    }
}

/// An infix operator applied to its operands: two integers, two booleans, or
/// a type mismatch.
pub open spec fn apply_infix(
    operator: Seq<char>,
    left: Option<ObjectView>,
    right: Option<ObjectView>,
) -> Option<ObjectView> {
    match (left, right) {
        (Some(ObjectView::Integer(a)), Some(ObjectView::Integer(b))) => integer_infix(
            operator,
            a,
            b,
        ),
        (Some(ObjectView::Boolean(a)), Some(ObjectView::Boolean(b))) => boolean_infix(
            operator,
            a,
            b,
        ),
        _ => Some(ObjectView::Error(type_mismatch(tag_of(left), operator, tag_of(right)))),
    }
}

/// The environment `env` with the parameters from index `from` on bound to
/// the values at their positions. A parameter's name is its printed form.
/// Parameters without a value stay as they are in `env`.
pub open spec fn bind(
    parameters: Seq<NodeView>,
    values: Seq<ObjectView>,
    from: int,
    env: Map<Seq<char>, ObjectView>,
) -> Map<Seq<char>, ObjectView>
    decreases values.len() - from,
{
    if 0 <= from < values.len() && from < parameters.len() {
        bind(parameters, values, from + 1, env.insert(print(parameters[from]), values[from]))
    } else {
        env
    }
}

/// Why a function of `parameters` parameters cannot be applied to `values`
/// values: there are more values than parameters, or no nested call is
/// allowed any more. Nothing when it can.
pub open spec fn refusal(parameters: nat, values: nat, depth: nat) -> Option<ObjectView> {
    if values > parameters {
        Some(ObjectView::Error(wrong_arity(parameters as int, values as int)))
    } else if depth == 0 {
        Some(ObjectView::Error(too_deep()))
    } else {
        None
    }
}

/// The values of a call's arguments, or the evaluation that ended the
/// gathering early.
pub ghost struct Gathered {
    pub values: Seq<ObjectView>,
    pub env: Map<Seq<char>, ObjectView>,
    pub stopped: Option<Outcome>,
}

/// The arguments from index `from` on, evaluated in order after `done`, each
/// in the environment that the one before it left. The first argument that
/// gives an error ends the gathering. An argument without a value counts as
/// null.
pub open spec fn gather(
    arguments: Seq<NodeView>,
    from: int,
    env: Map<Seq<char>, ObjectView>,
    depth: nat,
    done: Seq<ObjectView>,
) -> Gathered
    decreases depth, arguments, arguments.len() - from,
{
    if 0 <= from < arguments.len() {
        let r = eval(arguments[from], env, depth);
        if is_failure(r.value) {
            Gathered { values: done, env: r.env, stopped: Some(r.settled()) }
        } else {
            gather(arguments, from + 1, r.env, depth, done.push(or_null(r.value)))
        }
    } else {
        Gathered { values: done, env, stopped: None }
    }
}

/// The statements of a block from index `from` on, evaluated in order, each
/// in the environment that the one before it left. The block ends with the
/// first statement that halts; otherwise its value is that of its last
/// statement, `last` for an empty rest.
pub open spec fn eval_block(
    statements: Seq<NodeView>,
    from: int,
    env: Map<Seq<char>, ObjectView>,
    depth: nat,
    last: Option<ObjectView>,
) -> Outcome
    decreases depth, statements, statements.len() - from,
{
    if 0 <= from < statements.len() {
        let r = eval(statements[from], env, depth);
        if r.halts() {
            r
        } else {
            eval_block(statements, from + 1, r.env, depth, r.value)
        }
    } else {
        Outcome { value: last, env, returned: false }
    }
}

/// The evaluation of a call node, in a scope of its own: nothing it binds
/// reaches `env`. `depth` is the number of nested calls still allowed.
///
/// The function expression and then the arguments are evaluated in a copy of
/// `env`. The body runs in that copy overlaid with the function's captured
/// environment, with the parameters bound on top, so that a captured binding
/// wins over the caller's and a parameter over both. A `return` in the body
/// ends the call and goes no further.
pub open spec fn eval_call(call: NodeView, env: Map<Seq<char>, ObjectView>, depth: nat) -> Outcome
    decreases depth, call, 0nat,
{
    match call {
        NodeView::Call { function, arguments, .. } => {
            let f = eval(*function, env, depth);
            if is_failure(f.value) {
                Outcome { value: f.value, env, returned: false }
            } else {
                match f.value {
                    Some(ObjectView::Function { parameters, body, env: captured }) => {
                        let g = gather(arguments, 0, f.env, depth, Seq::empty());
                        match g.stopped {
                            Some(r) => Outcome { value: r.value, env, returned: false },
                            None => match refusal(parameters.len(), g.values.len(), depth) {
                                Some(error) => Outcome { value: Some(error), env, returned: false },
                                None => Outcome {
                                    value: eval(
                                        body,
                                        bind(
                                            parameters,
                                            g.values,
                                            0,
                                            g.env.union_prefer_right(captured),
                                        ),
                                        (depth - 1) as nat,
                                    ).value,
                                    env,
                                    returned: false,
                                },
                            },
                        }
                    },
                    other => Outcome {
                        value: Some(ObjectView::Error(not_a_function(tag_of(other)))),
                        env,
                        returned: false,
                    },
                }
            }
        },
        _ => Outcome { value: None, env, returned: false },
    }
}

/// The evaluation of `node` in `env`, with `depth` nested calls allowed.
///
/// An error from a part of a node is the node's value, and nothing after
/// that part is evaluated. A `return` ends the blocks around it, through
/// the `if`s whose branches they are, up to the nearest call or the program.
/// Where a `return` stands inside an operand, a condition, the value of a
/// `let` or an argument, it goes no further than that: what it returns is
/// the value of that part.
pub open spec fn eval(node: NodeView, env: Map<Seq<char>, ObjectView>, depth: nat) -> Outcome
    decreases depth, node, 1nat,
{
    match node {
        NodeView::Integer { value, .. } => Outcome {
            value: Some(ObjectView::Integer(value)),
            env,
            returned: false,
        },
        NodeView::Boolean { value, .. } => Outcome {
            value: Some(ObjectView::Boolean(value)),
            env,
            returned: false,
        },
        NodeView::Identifier { value, .. } => Outcome {
            value: Some(lookup(env, value)),
            env,
            returned: false,
        },
        NodeView::Prefix { operator, right, .. } => {
            let r = eval(*right, env, depth);
            if is_failure(r.value) {
                r.settled()
            } else {
                Outcome { value: Some(apply_prefix(operator, r.value)), env: r.env, returned: false }
            }
        },
        NodeView::Infix { left, operator, right, .. } => {
            let l = eval(*left, env, depth);
            if is_failure(l.value) {
                l.settled()
            } else {
                let r = eval(*right, l.env, depth);
                if is_failure(r.value) {
                    r.settled()
                } else {
                    Outcome {
                        value: apply_infix(operator, l.value, r.value),
                        env: r.env,
                        returned: false,
                    }
                }
            }
        },
        NodeView::If { condition, consequence, alternative, .. } => {
            let c = eval(*condition, env, depth);
            if is_failure(c.value) {
                c.settled()
            } else if truthy(c.value) {
                eval(*consequence, c.env, depth)
            } else {
                match alternative {
                    Some(other) => eval(*other, c.env, depth),
                    None => Outcome { value: None, env: c.env, returned: false },
                }
            }
        },
        NodeView::Block { statements, .. } => eval_block(statements, 0, env, depth, None),
        NodeView::Let { name, value, .. } => {
            let v = eval(*value, env, depth);
            if is_failure(v.value) {
                v.settled()
            } else {
                Outcome {
                    value: None,
                    env: match v.value {
                        Some(object) => v.env.insert(print(*name), object),
                        None => v.env,
                    },
                    returned: false,
                }
            }
        },
        NodeView::Return { value, .. } => {
            let v = eval(*value, env, depth);
            Outcome { value: v.value, env: v.env, returned: true }
        },
        NodeView::Expression { expression, .. } => eval(*expression, env, depth),
        NodeView::Function { parameters, body, .. } => Outcome {
            value: Some(ObjectView::Function { parameters, body: *body, env }),
            env,
            returned: false,
        },
        NodeView::Call { .. } => eval_call(node, env, depth),
    }
}

/// How a run of top-level statements ends: the value of the run, the
/// session environment it leaves, and the index of the first statement that
/// is not done.
pub ghost struct Run {
    pub value: Option<ObjectView>,
    pub env: Map<Seq<char>, ObjectView>,
    pub position: int,
}

/// The top-level statements from index `from` on, evaluated in order with
/// `depth` nested calls allowed, each in the environment that the one before
/// it left.
///
/// A statement whose value is an error ends the run with that error; what
/// the statement did to the environment is dropped, and the statement is not
/// done. A `return` ends the run with its value and is not done either, so
/// that no statement after it is ever evaluated. Otherwise the run's value is
/// that of the last statement, `last` when there is none.
pub open spec fn run(
    statements: Seq<NodeView>,
    from: int,
    env: Map<Seq<char>, ObjectView>,
    depth: nat,
    last: Option<ObjectView>,
) -> Run
    decreases statements.len() - from,
{
    if 0 <= from < statements.len() {
        let r = eval(statements[from], env, depth);
        if is_failure(r.value) {
            Run { value: r.value, env, position: from }
        } else if r.returned {
            Run { value: r.value, env: r.env, position: from }
        } else {
            run(statements, from + 1, r.env, depth, r.value)
        }
    } else {
        Run { value: last, env, position: from }
    }
}

/// The part of a node that is evaluated first, in the node's own
/// environment: the operand of a prefix operator, the left operand of an
/// infix operator, the condition of an `if`, the value of a `let` or a
/// `return`, the expression of an expression statement, the first statement
/// of a block, the function of a call. A node without such a part is its own
/// head.
pub open spec fn head(node: NodeView) -> NodeView {
    match node {
        NodeView::Prefix { right, .. } => *right,
        NodeView::Infix { left, .. } => *left,
        NodeView::If { condition, .. } => *condition,
        NodeView::Let { value, .. } => *value,
        NodeView::Return { value, .. } => *value,
        NodeView::Expression { expression, .. } => *expression,
        NodeView::Block { statements, .. } => if statements.len() > 0 {
            statements[0]
        } else {
            node
        },
        NodeView::Call { function, .. } => *function,
        _ => node,
    }
}

/// The head of the head, and so on, `steps` times.
pub open spec fn head_at(node: NodeView, steps: nat) -> NodeView
    decreases steps,
{
    if steps == 0 {
        node
    } else {
        head_at(head(node), (steps - 1) as nat)
    }
}

/// An error is absorbing, one step: when the part of a node that is
/// evaluated first gives an error, the node gives that same error.
pub proof fn lemma_error_of_head(node: NodeView, env: Map<Seq<char>, ObjectView>, depth: nat)
    requires
        is_failure(eval(head(node), env, depth).value),
    ensures
        eval(node, env, depth).value == eval(head(node), env, depth).value,
{
    match node {
        NodeView::Block { statements, .. } => {
            if statements.len() > 0 {
                assert(eval(node, env, depth) == eval_block(statements, 0, env, depth, None));
                assert(eval_block(statements, 0, env, depth, None) == eval(
                    statements[0],
                    env,
                    depth,
                ));
            }
        },
        NodeView::Call { function, .. } => {
            assert(eval(node, env, depth) == eval_call(node, env, depth));
        },
        _ => {},
    }
}

/// An error is absorbing: when a part of a node that is reached by going to
/// the part evaluated first, any number of times, gives an error, the node
/// gives that same error.
pub proof fn error_absorption(
    node: NodeView,
    steps: nat,
    env: Map<Seq<char>, ObjectView>,
    depth: nat,
)
    requires
        is_failure(eval(head_at(node, steps), env, depth).value),
    ensures
        eval(node, env, depth).value == eval(head_at(node, steps), env, depth).value,
    decreases steps,
{
    if steps > 0 {
        error_absorption(head(node), (steps - 1) as nat, env, depth);
        lemma_error_of_head(node, env, depth);
    }
}

/// An error is absorbing in the second place too: when the left operand of
/// an infix operator gives no error and the right operand gives one, the
/// infix expression gives that same error, and no error of its own.
pub proof fn error_absorption_right(node: NodeView, env: Map<Seq<char>, ObjectView>, depth: nat)
    requires
        node is Infix,
        !is_failure(eval(*node->Infix_left, env, depth).value),
        is_failure(
            eval(*node->Infix_right, eval(*node->Infix_left, env, depth).env, depth).value,
        ),
    ensures
        eval(node, env, depth) == eval(
            *node->Infix_right,
            eval(*node->Infix_left, env, depth).env,
            depth,
        ).settled(),
{
}

/// An error is absorbing in the first place: when the left operand of an
/// infix operator gives an error, the infix expression gives that same
/// error, in the environment that the left operand left: the right operand
/// is not evaluated.
pub proof fn error_absorption_left(node: NodeView, env: Map<Seq<char>, ObjectView>, depth: nat)
    requires
        node is Infix,
        is_failure(eval(*node->Infix_left, env, depth).value),
    ensures
        eval(node, env, depth) == eval(*node->Infix_left, env, depth).settled(),
{
}

/// An error is absorbing in a block: the first statement that gives an
/// error ends the block with that error, whatever comes after it. Here the
/// statements before index `at` neither fail nor return, and `envs[i]` is
/// the environment in which statement `i` is evaluated.
pub proof fn error_absorption_block(
    statements: Seq<NodeView>,
    from: int,
    at: int,
    envs: Seq<Map<Seq<char>, ObjectView>>,
    depth: nat,
    last: Option<ObjectView>,
)
    requires
        0 <= from <= at < statements.len(),
        envs.len() == statements.len(),
        forall|i: int|
            from <= i < at ==> !(#[trigger] eval(statements[i], envs[i], depth)).halts()
                && envs[i + 1] == eval(statements[i], envs[i], depth).env,
        is_failure(eval(statements[at], envs[at], depth).value),
    ensures
        eval_block(statements, from, envs[from], depth, last) == eval(
            statements[at],
            envs[at],
            depth,
        ),
    decreases at - from,
{
    if from < at {
        let step = eval(statements[from], envs[from], depth);
        assert(!step.halts());
        error_absorption_block(statements, from + 1, at, envs, depth, step.value);
    }
}

/// An error is absorbing in a call: an argument that gives an error, after
/// arguments that give none, is the value of gathering the arguments, and
/// then of the call.
pub proof fn error_absorption_arguments(
    arguments: Seq<NodeView>,
    from: int,
    at: int,
    envs: Seq<Map<Seq<char>, ObjectView>>,
    depth: nat,
    done: Seq<ObjectView>,
)
    requires
        0 <= from <= at < arguments.len(),
        envs.len() == arguments.len(),
        forall|i: int|
            from <= i < at ==> !is_failure((#[trigger] eval(arguments[i], envs[i], depth)).value)
                && envs[i + 1] == eval(arguments[i], envs[i], depth).env,
        is_failure(eval(arguments[at], envs[at], depth).value),
    ensures
        gather(arguments, from, envs[from], depth, done).stopped == Some(
            eval(arguments[at], envs[at], depth).settled(),
        ),
    decreases at - from,
{
    if from < at {
        let step = eval(arguments[from], envs[from], depth);
        assert(!is_failure(step.value));
        error_absorption_arguments(
            arguments,
            from + 1,
            at,
            envs,
            depth,
            done.push(or_null(step.value)),
        );
    }
}

/// A function literal captures the environment as it is when the literal is
/// evaluated.
pub proof fn function_captures_environment(
    node: NodeView,
    env: Map<Seq<char>, ObjectView>,
    depth: nat,
)
    requires
        node is Function,
    ensures
        eval(node, env, depth).value == Some(
            ObjectView::Function {
                parameters: node->Function_parameters,
                body: *node->Function_body,
                env,
            },
        ),
        eval(node, env, depth).env == env,
{
}

/// What a function captured wins over what its caller binds: in the
/// environment that the body runs in, a captured name that no parameter
/// takes over stands for what it stood for when the function was created.
pub proof fn captured_binding_wins(
    parameters: Seq<NodeView>,
    values: Seq<ObjectView>,
    from: int,
    scope: Map<Seq<char>, ObjectView>,
    captured: Map<Seq<char>, ObjectView>,
    name: Seq<char>,
)
    requires
        from >= 0,
        captured.contains_key(name),
        forall|i: int| from <= i < parameters.len() ==> print(#[trigger] parameters[i]) != name,
    ensures
        bind(parameters, values, from, scope.union_prefer_right(captured)).contains_key(name),
        bind(parameters, values, from, scope.union_prefer_right(captured))[name] == captured[name],
{
    lemma_bind_keeps(parameters, values, from, scope.union_prefer_right(captured), name);
}

/// Binding parameters leaves every other name as it is.
pub proof fn lemma_bind_keeps(
    parameters: Seq<NodeView>,
    values: Seq<ObjectView>,
    from: int,
    env: Map<Seq<char>, ObjectView>,
    name: Seq<char>,
)
    requires
        from >= 0,
        forall|i: int| from <= i < parameters.len() ==> print(#[trigger] parameters[i]) != name,
    ensures
        bind(parameters, values, from, env).contains_key(name) == env.contains_key(name),
        env.contains_key(name) ==> bind(parameters, values, from, env)[name] == env[name],
    decreases values.len() - from,
{
    if from < values.len() && from < parameters.len() {
        assert(print(parameters[from]) != name);
        lemma_bind_keeps(
            parameters,
            values,
            from + 1,
            env.insert(print(parameters[from]), values[from]),
            name,
        );
    }
}

/// A top-level `return` ends the run: its value is the value of the run,
/// and what stands after it has no say. The statements before index `at`
/// neither fail nor return; `envs[i]` is the environment in which statement
/// `i` is evaluated.
pub proof fn return_ends_run(
    statements: Seq<NodeView>,
    from: int,
    at: int,
    envs: Seq<Map<Seq<char>, ObjectView>>,
    depth: nat,
    last: Option<ObjectView>,
)
    requires
        0 <= from <= at < statements.len(),
        envs.len() == statements.len(),
        forall|i: int|
            from <= i < at ==> !(#[trigger] eval(statements[i], envs[i], depth)).halts()
                && envs[i + 1] == eval(statements[i], envs[i], depth).env,
        statements[at] is Return,
        !is_failure(eval(statements[at], envs[at], depth).value),
    ensures
        run(statements, from, envs[from], depth, last) == (Run {
            value: eval(statements[at], envs[at], depth).value,
            env: eval(statements[at], envs[at], depth).env,
            position: at,
        }),
    decreases at - from,
{
    if from < at {
        let step = eval(statements[from], envs[from], depth);
        assert(!step.halts());
        return_ends_run(statements, from + 1, at, envs, depth, step.value);
    } else {
        assert(eval(statements[at], envs[at], depth).returned);
    }
}

/// An error ends the run and leaves no trace: the run's value is the error,
/// and the environment is as the statements before the failing one left it.
pub proof fn error_ends_run(
    statements: Seq<NodeView>,
    from: int,
    at: int,
    envs: Seq<Map<Seq<char>, ObjectView>>,
    depth: nat,
    last: Option<ObjectView>,
)
    requires
        0 <= from <= at < statements.len(),
        envs.len() == statements.len(),
        forall|i: int|
            from <= i < at ==> !(#[trigger] eval(statements[i], envs[i], depth)).halts()
                && envs[i + 1] == eval(statements[i], envs[i], depth).env,
        is_failure(eval(statements[at], envs[at], depth).value),
    ensures
        run(statements, from, envs[from], depth, last) == (Run {
            value: eval(statements[at], envs[at], depth).value,
            env: envs[at],
            position: at,
        }),
    decreases at - from,
{
    if from < at {
        let step = eval(statements[from], envs[from], depth);
        assert(!step.halts());
        error_ends_run(statements, from + 1, at, envs, depth, step.value);
    }
}

/// A call leaves the caller's environment as it is: what the function
/// expression, the arguments and the body bind stays in the call's own scope.
pub proof fn call_leaves_environment(node: NodeView, env: Map<Seq<char>, ObjectView>, depth: nat)
    requires
        node is Call,
    ensures
        eval(node, env, depth).env == env,
{
    assert(eval(node, env, depth) == eval_call(node, env, depth));
}

} // verus!
