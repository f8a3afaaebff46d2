//! Runtime values: integers, booleans, null, errors, and functions that carry
//! the environment they were created in.
use crate::environment::Environment;
use crate::statements::{
    copy_nodes, node_views, print, print_list, print_nodes, NodeView, ProgramNode,
};
use vstd::string::StringExecFns;
use crate::text::{decimal, int_text, owned};
use vstd::prelude::*;

verus! {

/// The tag of a runtime value.
#[derive(Debug, Eq, PartialEq, Clone, Copy, Structural)]
pub enum Type {
    INTEGER,
    BOOLEAN,
    NULL,
    ERROR,
    FUNCTION,
}

/// A 64-bit signed integer.
pub struct Integer {
    pub value: i64,
}

/// A truth value.
pub struct Boolean {
    pub value: bool,
}

/// The absence of a value.
pub struct Null {}

/// A runtime error with its message.
pub struct Error {
    pub message: String,
}

/// A function value: parameters, body, and the environment captured when the
/// function literal was evaluated.
pub struct Function {
    pub parameters: Vec<ProgramNode>,
    pub body: Box<ProgramNode>,
    pub env: Environment,
}

/// A runtime value.
pub enum Object {
    Integer(Integer),
    Boolean(Boolean),
    Null(Null),
    Error(Error),
    Function(Function),
}

/// The mathematical content of an [`Object`].
pub ghost enum ObjectView {
    Integer(i64),
    Boolean(bool),
    Null,
    Error(Seq<char>),
    Function { parameters: Seq<NodeView>, body: NodeView, env: Map<Seq<char>, ObjectView> },
}

impl View for Object {
    type V = ObjectView;

    open spec fn view(&self) -> ObjectView
        decreases self,
    {
        match self {
            Object::Integer(i) => ObjectView::Integer(i.value),
            Object::Boolean(b) => ObjectView::Boolean(b.value),
            Object::Null(_) => ObjectView::Null,
            Object::Error(e) => ObjectView::Error(e.message@),
            Object::Function(f) => ObjectView::Function {
                parameters: node_views(f.parameters@),
                body: (*f.body)@,
                env: f.env@,
            },
        }
    }
}

/// The name of a type tag, as it appears in messages.
pub open spec fn tag_name(t: Type) -> Seq<char> {
    match t {
        Type::INTEGER => "INTEGER"@,
        Type::BOOLEAN => "BOOLEAN"@,
        Type::NULL => "NULL"@,
        Type::ERROR => "ERROR"@,
        Type::FUNCTION => "FUNCTION"@,
    }
}

impl Type {
    /// The name of this tag, as it appears in messages.
    pub fn name(&self) -> (s: &'static str)
        ensures
            s@ == tag_name(*self),
    {
        match self {
            Type::INTEGER => "INTEGER",
            Type::BOOLEAN => "BOOLEAN",
            Type::NULL => "NULL",
            Type::ERROR => "ERROR",
            Type::FUNCTION => "FUNCTION",
        }
    }
}

impl ObjectView {
    /// The tag of the value.
    pub open spec fn type_(self) -> Type {
        match self {
            ObjectView::Integer(_) => Type::INTEGER,
            ObjectView::Boolean(_) => Type::BOOLEAN,
            ObjectView::Null => Type::NULL,
            ObjectView::Error(_) => Type::ERROR,
            ObjectView::Function { .. } => Type::FUNCTION,
        }
    }

    /// The printable form of the value: a decimal numeral, `true` or
    /// `false`, `null`, an error's message, or a function in the form of a
    /// function literal.
    pub open spec fn inspect(self) -> Seq<char> {
        match self {
            ObjectView::Integer(value) => int_text(value as int),
            ObjectView::Boolean(value) => if value {
                "true"@
            } else {
                "false"@
            },
            ObjectView::Null => "null"@,
            ObjectView::Error(message) => message,
            ObjectView::Function { parameters, body, .. } => "fn("@ + print_list(
                parameters,
                0,
                Seq::empty(),
                ", "@,
            ) + ") { "@ + print(body) + " }"@,
        }
    }
}

impl Object {
    /// The tag of the value.
    pub fn type_(&self) -> (t: Type)
        ensures
            t == self@.type_(),
    {
        match self {
            Object::Integer(_) => Type::INTEGER,
            Object::Boolean(_) => Type::BOOLEAN,
            Object::Null(_) => Type::NULL,
            Object::Error(_) => Type::ERROR,
            Object::Function(_) => Type::FUNCTION,
        }
    }

    /// The printable form of the value.
    pub fn inspect(&self) -> (s: String)
        ensures
            s@ == self@.inspect(),
    {
        match self {
            Object::Integer(i) => decimal(i.value),
            Object::Boolean(b) => {
                if b.value {
                    owned("true")
                } else {
                    owned("false")
                }
            },
            Object::Null(_) => owned("null"),
            Object::Error(e) => e.message.clone(),
            Object::Function(f) => {
                proof {
                    reveal_strlit("");
                    assert(""@ =~= Seq::<char>::empty());
                }
                let mut out = owned("fn(");
                out.append(print_nodes(&f.parameters, "", ", ").as_str());
                out.append(") { ");
                out.append(f.body.to_string().as_str());
                out.append(" }");
                out
            },
        }
    }

    /// A deep copy of the value.
    pub fn get_copy(&self) -> (copy: Object)
        ensures
            copy@ == self@,
        decreases self, 0int,
    {
        match self {
            Object::Integer(i) => Object::Integer(Integer { value: i.value }),
            Object::Boolean(b) => Object::Boolean(Boolean { value: b.value }),
            Object::Null(_) => Object::Null(Null {  }),
            Object::Error(e) => Object::Error(Error { message: e.message.clone() }),
            Object::Function(f) => Object::Function(
                Function {
                    parameters: copy_nodes(&f.parameters),
                    body: Box::new(f.body.get_copy()),
                    env: f.env.get_copy(),
                },
            ),
        }
    }

    /// A deep copy of the value, boxed.
    pub fn get_box(&self) -> (copy: Box<Object>)
        ensures
            copy@ == self@,
    {
        Box::new(self.get_copy())
    }
}

} // verus!
