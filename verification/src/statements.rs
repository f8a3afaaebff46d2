//! The syntax tree: one struct per construct of the language, the sum of
//! them, and the canonical printed form of a tree.
use crate::text::{decimal, int_text, owned};
use crate::token::{Token, TokenView};
use vstd::prelude::*;
use vstd::string::StringExecFns;

verus! {

/// `let NAME = VALUE`.
pub struct LetStatement {
    pub token: Token,
    pub name: Box<ProgramNode>,
    pub value: Box<ProgramNode>,
}

/// `return VALUE`.
pub struct ReturnStatement {
    pub token: Token,
    pub value: Box<ProgramNode>,
}

/// An expression in statement position.
pub struct ExpressionStatement {
    pub token: Token,
    pub expression: Box<ProgramNode>,
}

/// `{ STATEMENT* }`.
pub struct BlockStatement {
    pub token: Token,
    pub statements: Vec<ProgramNode>,
}

/// A name.
pub struct IdentifierExpression {
    pub token: Token,
    pub value: String,
}

/// An integer literal.
pub struct IntegerLiteralExpression {
    pub token: Token,
    pub value: i64,
}

/// `true` or `false`.
pub struct BooleanExpression {
    pub token: Token,
    pub value: bool,
}

/// A unary operator applied to an operand.
pub struct PrefixExpression {
    pub token: Token,
    pub operator: String,
    pub right: Box<ProgramNode>,
}

/// A binary operator applied to two operands.
pub struct InfixExpression {
    pub token: Token,
    pub left: Box<ProgramNode>,
    pub operator: String,
    pub right: Box<ProgramNode>,
}

/// `if (CONDITION) CONSEQUENCE else ALTERNATIVE`, the last part optional.
pub struct IfExpression {
    pub token: Token,
    pub condition: Box<ProgramNode>,
    pub consequence: Box<ProgramNode>,
    pub alternative: Option<Box<ProgramNode>>,
}

/// `fn(PARAMETERS) BODY`.
pub struct FunctionLiteralExpression {
    pub token: Token,
    pub parameters: Vec<ProgramNode>,
    pub body: Box<ProgramNode>,
}

/// `FUNCTION(ARGUMENTS)`.
pub struct CallExpression {
    pub token: Token,
    pub function: Box<ProgramNode>,
    pub arguments: Vec<ProgramNode>,
}

/// A node of the syntax tree. Every node keeps the token it was read from.
pub enum ProgramNode {
    Let(LetStatement),
    Return(ReturnStatement),
    Expression(ExpressionStatement),
    Block(BlockStatement),
    Identifier(IdentifierExpression),
    Integer(IntegerLiteralExpression),
    Boolean(BooleanExpression),
    Prefix(PrefixExpression),
    Infix(InfixExpression),
    If(IfExpression),
    Function(FunctionLiteralExpression),
    Call(CallExpression),
}

/// The mathematical content of a [`ProgramNode`].
#[allow(inconsistent_fields)]
pub ghost enum NodeView {
    Let { token: TokenView, name: Box<NodeView>, value: Box<NodeView> },
    Return { token: TokenView, value: Box<NodeView> },
    Expression { token: TokenView, expression: Box<NodeView> },
    Block { token: TokenView, statements: Seq<NodeView> },
    Identifier { token: TokenView, value: Seq<char> },
    Integer { token: TokenView, value: i64 },
    Boolean { token: TokenView, value: bool },
    Prefix { token: TokenView, operator: Seq<char>, right: Box<NodeView> },
    Infix { token: TokenView, left: Box<NodeView>, operator: Seq<char>, right: Box<NodeView> },
    If {
        token: TokenView,
        condition: Box<NodeView>,
        consequence: Box<NodeView>,
        alternative: Option<Box<NodeView>>,
    },
    Function { token: TokenView, parameters: Seq<NodeView>, body: Box<NodeView> },
    Call { token: TokenView, function: Box<NodeView>, arguments: Seq<NodeView> },
}

/// The contents of a sequence of nodes, in order.
pub open spec fn node_views(nodes: Seq<ProgramNode>) -> Seq<NodeView>
    decreases nodes, 1int,
{
    if nodes.len() == 0 {
        Seq::empty()
    } else {
        node_views(nodes.drop_last()).push(nodes.last().view())
    }
}

/// `node_views` keeps the length and maps each node to its content.
pub proof fn lemma_node_views(nodes: Seq<ProgramNode>)
    ensures
        node_views(nodes).len() == nodes.len(),
        forall|k: int| 0 <= k < nodes.len() ==> (#[trigger] node_views(nodes)[k]) == nodes[k]@,
    decreases nodes.len(),
{
    reveal_with_fuel(node_views, 3);
    if nodes.len() > 0 {
        lemma_node_views(nodes.drop_last());
        assert(node_views(nodes) == node_views(nodes.drop_last()).push(nodes.last().view()));
    } else {
        assert(node_views(nodes).len() == 0);
    }
}

/// The content of a sequence with one more node is the content of the
/// sequence with the content of that node.
pub proof fn lemma_node_views_push(nodes: Seq<ProgramNode>, node: ProgramNode)
    ensures
        node_views(nodes.push(node)) == node_views(nodes).push(node@),
{
    reveal_with_fuel(node_views, 3);
    assert(nodes.push(node).drop_last() =~= nodes);
    assert(node_views(nodes.push(node)) == node_views(nodes.push(node).drop_last()).push(
        nodes.push(node).last().view(),
    ));
}

/// The content of two sequences of nodes one after the other.
pub proof fn lemma_node_views_add(front: Seq<ProgramNode>, back: Seq<ProgramNode>)
    ensures
        node_views(front + back) == node_views(front) + node_views(back),
{
    lemma_node_views(front);
    lemma_node_views(back);
    lemma_node_views(front + back);
    assert(node_views(front + back) =~= node_views(front) + node_views(back));
}

/// The content of the first `n` nodes of a sequence.
pub proof fn lemma_node_views_take(nodes: Seq<ProgramNode>, n: int)
    requires
        0 <= n <= nodes.len(),
    ensures
        node_views(nodes.take(n)) == node_views(nodes).take(n),
{
    lemma_node_views(nodes);
    lemma_node_views(nodes.take(n));
    assert(node_views(nodes.take(n)) =~= node_views(nodes).take(n));
}

impl View for ProgramNode {
    type V = NodeView;

    /// The content of the node: the same tree over mathematical sequences.
    open spec fn view(&self) -> NodeView
        decreases self, 0int,
    {
        match self {
            ProgramNode::Let(s) => NodeView::Let {
                token: s.token@,
                name: Box::new((*s.name).view()),
                value: Box::new((*s.value).view()),
            },
            ProgramNode::Return(s) => NodeView::Return {
                token: s.token@,
                value: Box::new((*s.value).view()),
            },
            ProgramNode::Expression(s) => NodeView::Expression {
                token: s.token@,
                expression: Box::new((*s.expression).view()),
            },
            ProgramNode::Block(s) => NodeView::Block {
                token: s.token@,
                statements: node_views(s.statements@),
            },
            ProgramNode::Identifier(s) => NodeView::Identifier { token: s.token@, value: s.value@ },
            ProgramNode::Integer(s) => NodeView::Integer { token: s.token@, value: s.value },
            ProgramNode::Boolean(s) => NodeView::Boolean { token: s.token@, value: s.value },
            ProgramNode::Prefix(s) => NodeView::Prefix {
                token: s.token@,
                operator: s.operator@,
                right: Box::new((*s.right).view()),
            },
            ProgramNode::Infix(s) => NodeView::Infix {
                token: s.token@,
                left: Box::new((*s.left).view()),
                operator: s.operator@,
                right: Box::new((*s.right).view()),
            },
            ProgramNode::If(s) => NodeView::If {
                token: s.token@,
                condition: Box::new((*s.condition).view()),
                consequence: Box::new((*s.consequence).view()),
                alternative: match s.alternative {
                    Some(a) => Some(Box::new((*a).view())),
                    None => None,
                },
            },
            ProgramNode::Function(s) => NodeView::Function {
                token: s.token@,
                parameters: node_views(s.parameters@),
                body: Box::new((*s.body).view()),
            },
            ProgramNode::Call(s) => NodeView::Call {
                token: s.token@,
                function: Box::new((*s.function).view()),
                arguments: node_views(s.arguments@),
            },
        }
    }
}

impl NodeView {
    /// The token that the node was read from.
    pub open spec fn token(self) -> TokenView {
        match self {
            NodeView::Let { token, .. } => token,
            NodeView::Return { token, .. } => token,
            NodeView::Expression { token, .. } => token,
            NodeView::Block { token, .. } => token,
            NodeView::Identifier { token, .. } => token,
            NodeView::Integer { token, .. } => token,
            NodeView::Boolean { token, .. } => token,
            NodeView::Prefix { token, .. } => token,
            NodeView::Infix { token, .. } => token,
            NodeView::If { token, .. } => token,
            NodeView::Function { token, .. } => token,
            NodeView::Call { token, .. } => token,
        }
    }
}

/// The printed forms of `items[from..]`, each followed by `after`, with
/// `between` between neighbours.
pub open spec fn print_list(
    items: Seq<NodeView>,
    from: int,
    after: Seq<char>,
    between: Seq<char>,
) -> Seq<char>
    decreases items, items.len() - from,
{
    if 0 <= from < items.len() {
        let head = print(items[from]) + after;
        if from + 1 < items.len() {
            head + between + print_list(items, from + 1, after, between)
        } else {
            head
        }
    } else {
        Seq::empty()
    }
}

/// The canonical printed form of a tree. Operators are fully parenthesised:
/// an infix expression prints as `(L OP R)` and a prefix expression as
/// `(OPX)`.
pub open spec fn print(node: NodeView) -> Seq<char>
    decreases node, 0int,
{
    match node {
        NodeView::Let { token, name, value } => token.text() + " "@ + print(*name) + " = "@ + print(
            *value,
        ),
        NodeView::Return { token, value } => token.text() + " "@ + print(*value) + ";"@,
        NodeView::Expression { expression, .. } => print(*expression),
        NodeView::Block { statements, .. } => print_list(statements, 0, ";"@, " "@),
        NodeView::Identifier { value, .. } => value,
        NodeView::Integer { value, .. } => int_text(value as int),
        NodeView::Boolean { value, .. } => if value {
            "true"@
        } else {
            "false"@
        },
        NodeView::Prefix { operator, right, .. } => "("@ + operator + print(*right) + ")"@,
        NodeView::Infix { left, operator, right, .. } => "("@ + print(*left) + " "@ + operator
            + " "@ + print(*right) + ")"@,
        NodeView::If { condition, consequence, alternative, .. } => match alternative {
            Some(other) => "if "@ + print(*condition) + " "@ + print(*consequence) + " else "@
                + print(*other),
            None => "if "@ + print(*condition) + " "@ + print(*consequence),
        },
        NodeView::Function { parameters, body, .. } => "fn("@ + print_list(
            parameters,
            0,
            Seq::empty(),
            ", "@,
        ) + ") { "@ + print(*body) + " }"@,
        NodeView::Call { function, arguments, .. } => print(*function) + "("@ + print_list(
            arguments,
            0,
            Seq::empty(),
            ", "@,
        ) + ")"@,
    }
}

impl LetStatement {
    /// A `let` of `name` to `value`, read from `token`.
    pub fn new(token: Token, name: Box<ProgramNode>, value: Box<ProgramNode>) -> (s: LetStatement)
        ensures
            s == (LetStatement { token, name, value }),
    {
        LetStatement { token, name, value }
    }
}

impl ReturnStatement {
    /// A `return` of `value`, read from `token`.
    pub fn new(token: Token, value: Box<ProgramNode>) -> (s: ReturnStatement)
        ensures
            s == (ReturnStatement { token, value }),
    {
        ReturnStatement { token, value }
    }
}

impl ExpressionStatement {
    /// The statement made of `expression`, with `token` as the token it starts with.
    pub fn new(token: Token, expression: Box<ProgramNode>) -> (s: ExpressionStatement)
        ensures
            s == (ExpressionStatement { token, expression }),
    {
        ExpressionStatement { token, expression }
    }
}

impl BlockStatement {
    /// The block of `statements`, read from `token`.
    pub fn new(token: Token, statements: Vec<ProgramNode>) -> (s: BlockStatement)
        ensures
            s == (BlockStatement { token, statements }),
    {
        BlockStatement { token, statements }
    }
}

impl IdentifierExpression {
    /// The name `value`, read from `token`.
    pub fn new(token: Token, value: String) -> (s: IdentifierExpression)
        ensures
            s == (IdentifierExpression { token, value }),
    {
        IdentifierExpression { token, value }
    }
}

impl IntegerLiteralExpression {
    /// The integer literal `value`, read from `token`.
    pub fn new(token: Token, value: i64) -> (s: IntegerLiteralExpression)
        ensures
            s == (IntegerLiteralExpression { token, value }),
    {
        IntegerLiteralExpression { token, value }
    }
}

impl BooleanExpression {
    /// The boolean literal `value`, read from `token`.
    pub fn new(token: Token, value: bool) -> (s: BooleanExpression)
        ensures
            s == (BooleanExpression { token, value }),
    {
        BooleanExpression { token, value }
    }
}

impl PrefixExpression {
    /// `operator` applied to `right`, read from `token`.
    pub fn new(token: Token, operator: String, right: Box<ProgramNode>) -> (s: PrefixExpression)
        ensures
            s == (PrefixExpression { token, operator, right }),
    {
        PrefixExpression { token, operator, right }
    }
}

impl InfixExpression {
    /// `operator` applied to `left` and `right`, read from `token`.
    pub fn new(
        token: Token,
        left: Box<ProgramNode>,
        operator: String,
        right: Box<ProgramNode>,
    ) -> (s: InfixExpression)
        ensures
            s == (InfixExpression { token, left, operator, right }),
    {
        InfixExpression { token, left, operator, right }
    }
}

impl IfExpression {
    /// The choice between `consequence` and `alternative` by `condition`, read
    /// from `token`.
    pub fn new(
        token: Token,
        condition: Box<ProgramNode>,
        consequence: Box<ProgramNode>,
        alternative: Option<Box<ProgramNode>>,
    ) -> (s: IfExpression)
        ensures
            s == (IfExpression { token, condition, consequence, alternative }),
    {
        IfExpression { token, condition, consequence, alternative }
    }
}

impl FunctionLiteralExpression {
    /// The function of `parameters` with `body`, read from `token`.
    pub fn new(token: Token, parameters: Vec<ProgramNode>, body: Box<ProgramNode>) -> (s:
        FunctionLiteralExpression)
        ensures
            s == (FunctionLiteralExpression { token, parameters, body }),
    {
        FunctionLiteralExpression { token, parameters, body }
    }
}

impl CallExpression {
    /// The call of `function` with `arguments`, read from `token`.
    pub fn new(token: Token, function: Box<ProgramNode>, arguments: Vec<ProgramNode>) -> (s:
        CallExpression)
        ensures
            s == (CallExpression { token, function, arguments }),
    {
        CallExpression { token, function, arguments }
    }
}

/// Copies of the nodes of `nodes`, in order.
pub fn copy_nodes(nodes: &Vec<ProgramNode>) -> (copies: Vec<ProgramNode>)
    ensures
        node_views(copies@) == node_views(nodes@),
    decreases nodes, 1int,
{
    let mut copies: Vec<ProgramNode> = Vec::new();
    let mut i: usize = 0;
    while i < nodes.len()
        invariant
            i <= nodes.len(),
            copies.len() == i,
            forall|k: int| 0 <= k < i ==> (#[trigger] copies[k])@ == nodes[k]@,
        decreases nodes.len() - i,
    {
        proof {
            vstd::std_specs::vec::axiom_vec_index_decreases(*nodes, i as int);
        }
        copies.push(nodes[i].get_copy());
        i += 1;
    }
    proof {
        lemma_node_views(copies@);
        lemma_node_views(nodes@);
        assert(node_views(copies@) =~= node_views(nodes@));
    }
    copies
}

/// The printed forms of `items`, each followed by `after`, with `between`
/// between neighbours.
pub fn print_nodes(items: &Vec<ProgramNode>, after: &str, between: &str) -> (out: String)
    ensures
        out@ == print_list(node_views(items@), 0, after@, between@),
    decreases items, 1int,
{
    let mut out = String::new();
    let mut i: usize = 0;
    let ghost views = node_views(items@);
    proof {
        lemma_node_views(items@);
        assert(out@ + print_list(views, 0, after@, between@) =~= print_list(
            views,
            0,
            after@,
            between@,
        ));
    }
    while i < items.len()
        invariant
            i <= items.len(),
            views == node_views(items@),
            views.len() == items.len(),
            forall|k: int| 0 <= k < items.len() ==> (#[trigger] views[k]) == items[k]@,
            out@ + print_list(views, i as int, after@, between@) == print_list(
                views,
                0,
                after@,
                between@,
            ),
        decreases items.len() - i,
    {
        proof {
            vstd::std_specs::vec::axiom_vec_index_decreases(*items, i as int);
        }
        let piece = items[i].to_string();
        let ghost before = out@;
        out.append(piece.as_str());
        out.append(after);
        if i + 1 < items.len() {
            out.append(between);
        }
        proof {
            reveal_with_fuel(print_list, 3);
            assert(piece@ == print(views[i as int]));
            assert(out@ + print_list(views, i + 1, after@, between@) =~= before + print_list(
                views,
                i as int,
                after@,
                between@,
            ));
        }
        i += 1;
    }
    proof {
        assert(out@ + print_list(views, i as int, after@, between@) =~= out@);
    }
    out
}

impl ProgramNode {
    /// The token that the node was read from.
    pub fn token(&self) -> (t: &Token)
        ensures
            t@ == self@.token(),
    {
        match self {
            ProgramNode::Let(s) => &s.token,
            ProgramNode::Return(s) => &s.token,
            ProgramNode::Expression(s) => &s.token,
            ProgramNode::Block(s) => &s.token,
            ProgramNode::Identifier(s) => &s.token,
            ProgramNode::Integer(s) => &s.token,
            ProgramNode::Boolean(s) => &s.token,
            ProgramNode::Prefix(s) => &s.token,
            ProgramNode::Infix(s) => &s.token,
            ProgramNode::If(s) => &s.token,
            ProgramNode::Function(s) => &s.token,
            ProgramNode::Call(s) => &s.token,
        }
    }

    /// The literal of the token that the node was read from.
    pub fn token_literal(&self) -> (literal: Option<String>)
        ensures
            match literal {
                Some(s) => self@.token().literal == Some(s@),
                None => self@.token().literal.is_none(),
            },
    {
        match &self.token().literal {
            Some(s) => Some(s.clone()),
            None => None,
        }
    }

    /// A deep copy of the node.
    pub fn get_copy(&self) -> (copy: ProgramNode)
        ensures
            copy@ == self@,
        decreases self, 0int,
    {
        match self {
            ProgramNode::Let(s) => ProgramNode::Let(
                LetStatement {
                    token: s.token.clone(),
                    name: Box::new(s.name.get_copy()),
                    value: Box::new(s.value.get_copy()),
                },
            ),
            ProgramNode::Return(s) => ProgramNode::Return(
                ReturnStatement { token: s.token.clone(), value: Box::new(s.value.get_copy()) },
            ),
            ProgramNode::Expression(s) => ProgramNode::Expression(
                ExpressionStatement {
                    token: s.token.clone(),
                    expression: Box::new(s.expression.get_copy()),
                },
            ),
            ProgramNode::Block(s) => ProgramNode::Block(
                BlockStatement { token: s.token.clone(), statements: copy_nodes(&s.statements) },
            ),
            ProgramNode::Identifier(s) => ProgramNode::Identifier(
                IdentifierExpression { token: s.token.clone(), value: s.value.clone() },
            ),
            ProgramNode::Integer(s) => ProgramNode::Integer(
                IntegerLiteralExpression { token: s.token.clone(), value: s.value },
            ),
            ProgramNode::Boolean(s) => ProgramNode::Boolean(
                BooleanExpression { token: s.token.clone(), value: s.value },
            ),
            ProgramNode::Prefix(s) => ProgramNode::Prefix(
                PrefixExpression {
                    token: s.token.clone(),
                    operator: s.operator.clone(),
                    right: Box::new(s.right.get_copy()),
                },
            ),
            ProgramNode::Infix(s) => ProgramNode::Infix(
                InfixExpression {
                    token: s.token.clone(),
                    left: Box::new(s.left.get_copy()),
                    operator: s.operator.clone(),
                    right: Box::new(s.right.get_copy()),
                },
            ),
            ProgramNode::If(s) => {
                let alternative = match &s.alternative {
                    Some(a) => Some(Box::new(a.get_copy())),
                    None => None,
                };
                ProgramNode::If(
                    IfExpression {
                        token: s.token.clone(),
                        condition: Box::new(s.condition.get_copy()),
                        consequence: Box::new(s.consequence.get_copy()),
                        alternative,
                    },
                )
            },
            ProgramNode::Function(s) => ProgramNode::Function(
                FunctionLiteralExpression {
                    token: s.token.clone(),
                    parameters: copy_nodes(&s.parameters),
                    body: Box::new(s.body.get_copy()),
                },
            ),
            ProgramNode::Call(s) => ProgramNode::Call(
                CallExpression {
                    token: s.token.clone(),
                    function: Box::new(s.function.get_copy()),
                    arguments: copy_nodes(&s.arguments),
                },
            ),
        }
    }
    /// The canonical printed form of the node.
    pub fn to_string(&self) -> (out: String)
        ensures
            out@ == print(self@),
        decreases self, 0int,
    {
        proof {
            reveal_with_fuel(print, 3);
            reveal_strlit("");
            assert(""@ =~= Seq::<char>::empty());
        }
        match self {
            ProgramNode::Let(s) => {
                let mut out = s.token.text();
                out.append(" ");
                out.append(s.name.to_string().as_str());
                out.append(" = ");
                out.append(s.value.to_string().as_str());
                out
            },
            ProgramNode::Return(s) => {
                let mut out = s.token.text();
                out.append(" ");
                out.append(s.value.to_string().as_str());
                out.append(";");
                out
            },
            ProgramNode::Expression(s) => s.expression.to_string(),
            ProgramNode::Block(s) => print_nodes(&s.statements, ";", " "),
            ProgramNode::Identifier(s) => s.value.clone(),
            ProgramNode::Integer(s) => decimal(s.value),
            ProgramNode::Boolean(s) => {
                if s.value {
                    owned("true")
                } else {
                    owned("false")
                }
            },
            ProgramNode::Prefix(s) => {
                let mut out = owned("(");
                out.append(s.operator.as_str());
                out.append(s.right.to_string().as_str());
                out.append(")");
                out
            },
            ProgramNode::Infix(s) => {
                let mut out = owned("(");
                out.append(s.left.to_string().as_str());
                out.append(" ");
                out.append(s.operator.as_str());
                out.append(" ");
                out.append(s.right.to_string().as_str());
                out.append(")");
                out
            },
            ProgramNode::If(s) => {
                let mut out = owned("if ");
                out.append(s.condition.to_string().as_str());
                out.append(" ");
                out.append(s.consequence.to_string().as_str());
                match &s.alternative {
                    Some(other) => {
                        out.append(" else ");
                        out.append(other.to_string().as_str());
                    },
                    None => {},
                }
                out
            },
            ProgramNode::Function(s) => {
                let mut out = owned("fn(");
                out.append(print_nodes(&s.parameters, "", ", ").as_str());
                out.append(") { ");
                out.append(s.body.to_string().as_str());
                out.append(" }");
                out
            },
            ProgramNode::Call(s) => {
                let mut out = s.function.to_string();
                out.append("(");
                out.append(print_nodes(&s.arguments, "", ", ").as_str());
                out.append(")");
                out
            },
        }
    }
}

} // verus!


