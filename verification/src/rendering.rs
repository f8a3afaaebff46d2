//! The way back from a tree to tokens: the canonical token sequence of a
//! tree, and the proof that the parser reads that sequence as the tree.
//!
//! The canonical sequence is the printed form token by token: operators
//! fully parenthesised, a semicolon after every statement. An `if` has no
//! canonical sequence, because its printed form leaves out the parentheses
//! and braces that the parser asks for.
use crate::grammar::{
    arguments, arguments_rest, block, block_rest, call, continues, expression,
    expression_statement, function, grouped, identifier_at, infix, kind_at, let_statement,
    operators, parameters, parameters_rest, precedence_of, prefix, prefix_operator, program,
    return_statement, statement, tok, Outline, Parsed, Precedence,
};
use crate::statements::NodeView;
use crate::text::{decimal_value, int_text, lemma_numeral_reads_back};
use crate::token::{token, TokenType, TokenView};
use vstd::prelude::*;

verus! {

/// The kind of a prefix operator; none for any other text.
pub open spec fn prefix_kind(operator: Seq<char>) -> Option<TokenType> {
    if operator == "!"@ {
        Some(TokenType::BANG)
    } else if operator == "-"@ {
        Some(TokenType::MINUS)
    } else {
        None
    }
}

/// The kind of a binary operator; none for any other text.
pub open spec fn infix_kind(operator: Seq<char>) -> Option<TokenType> {
    if operator == "+"@ {
        Some(TokenType::PLUS)
    } else if operator == "-"@ {
        Some(TokenType::MINUS)
    } else if operator == "*"@ {
        Some(TokenType::ASTERISK)
    } else if operator == "/"@ {
        Some(TokenType::SLASH)
    } else if operator == "<"@ {
        Some(TokenType::LT)
    } else if operator == ">"@ {
        Some(TokenType::GT)
    } else if operator == "=="@ {
        Some(TokenType::EQ)
    } else if operator == "!="@ {
        Some(TokenType::NEQ)
    } else {
        None
    }
}

/// The token `(`.
pub open spec fn left_paren() -> TokenView {
    token(TokenType::LPAREN, "("@)
}

/// The token `)`.
pub open spec fn right_paren() -> TokenView {
    token(TokenType::RPAREN, ")"@)
}

/// The token `{`.
pub open spec fn left_brace() -> TokenView {
    token(TokenType::LBRACE, "{"@)
}

/// The token `}`.
pub open spec fn right_brace() -> TokenView {
    token(TokenType::RBRACE, "}"@)
}

/// The token `,`.
pub open spec fn comma() -> TokenView {
    token(TokenType::COMMA, ","@)
}

/// The token `;`.
pub open spec fn semicolon() -> TokenView {
    token(TokenType::SEMICOLON, ";"@)
}

/// The token `=`.
pub open spec fn assign_sign() -> TokenView {
    token(TokenType::ASSIGN, "="@)
}

/// The token `let`.
pub open spec fn let_word() -> TokenView {
    token(TokenType::LET, "let"@)
}

/// The token `return`.
pub open spec fn return_word() -> TokenView {
    token(TokenType::RETURN, "return"@)
}

/// The token `fn`.
pub open spec fn fn_word() -> TokenView {
    token(TokenType::FUNCTION, "fn"@)
}

/// The token of a boolean literal.
pub open spec fn truth_word(value: bool) -> TokenView {
    if value {
        token(TokenType::TRUE, "true"@)
    } else {
        token(TokenType::FALSE, "false"@)
    }
}

/// The token of an operator, prefix or binary.
pub open spec fn operator_sign(kind: Option<TokenType>, operator: Seq<char>) -> TokenView {
    match kind {
        Some(k) => token(k, operator),
        None => token(TokenType::ILLEGAL, operator),
    }
}

/// The canonical tokens of `items[from..]`, with a comma between neighbours.
pub open spec fn render_list(items: Seq<NodeView>, from: int) -> Seq<TokenView>
    decreases items, items.len() - from,
{
    if 0 <= from < items.len() {
        if from + 1 < items.len() {
            render(items[from]) + seq![comma()] + render_list(items, from + 1)
        } else {
            render(items[from])
        }
    } else {
        Seq::empty()
    }
}

/// The canonical tokens of the statements `items[from..]`, with a semicolon
/// after each.
pub open spec fn render_statements(items: Seq<NodeView>, from: int) -> Seq<TokenView>
    decreases items, items.len() - from,
{
    if 0 <= from < items.len() {
        render(items[from]) + seq![semicolon()] + render_statements(items, from + 1)
    } else {
        Seq::empty()
    }
}

/// The canonical tokens of a tree: those of its printed form. An `if` has
/// none.
pub open spec fn render(node: NodeView) -> Seq<TokenView>
    decreases node, 0int,
{
    match node {
        NodeView::Identifier { value, .. } => seq![token(TokenType::IDENT, value)],
        NodeView::Integer { value, .. } => seq![token(TokenType::INT, int_text(value as int))],
        NodeView::Boolean { value, .. } => seq![truth_word(value)],
        NodeView::Prefix { operator, right, .. } => seq![
            left_paren(),
            operator_sign(prefix_kind(operator), operator),
        ] + render(*right) + seq![right_paren()],
        NodeView::Infix { left, operator, right, .. } => seq![left_paren()] + render(*left)
            + seq![operator_sign(infix_kind(operator), operator)] + render(*right)
            + seq![right_paren()],
        NodeView::Call { function, arguments, .. } => render(*function) + seq![left_paren()]
            + render_list(arguments, 0) + seq![right_paren()],
        NodeView::Function { parameters, body, .. } => seq![fn_word(), left_paren()]
            + render_list(parameters, 0) + seq![right_paren()] + render(*body),
        NodeView::Block { statements, .. } => seq![left_brace()] + render_statements(
            statements,
            0,
        ) + seq![right_brace()],
        NodeView::Let { name, value, .. } => seq![let_word()] + render(*name)
            + seq![assign_sign()] + render(*value),
        NodeView::Return { value, .. } => seq![return_word()] + render(*value)
            + seq![semicolon()],
        NodeView::Expression { expression, .. } => render(*expression),
        NodeView::If { .. } => Seq::empty(),
    }
}

/// Whether `node` is a name that carries its own token.
pub open spec fn plain_name(node: NodeView) -> bool {
    match node {
        NodeView::Identifier { token: t, value } => t == token(TokenType::IDENT, value),
        _ => false,
    }
}

/// Whether `node` is an expression in canonical shape: it holds no `if`,
/// its integers are not negative, its operators are the language's own, its
/// function bodies are blocks of canonical statements, and every node
/// carries the token that the parser would give it.
pub open spec fn plain_expression(node: NodeView) -> bool
    decreases node, 0int,
{
    match node {
        NodeView::Identifier { .. } => plain_name(node),
        NodeView::Integer { token: t, value } => value >= 0 && t == token(
            TokenType::INT,
            int_text(value as int),
        ),
        NodeView::Boolean { token: t, value } => t == truth_word(value),
        NodeView::Prefix { token: t, operator, right } => prefix_kind(operator).is_some() && t
            == operator_sign(prefix_kind(operator), operator) && plain_expression(*right),
        NodeView::Infix { token: t, left, operator, right } => infix_kind(operator).is_some() && t
            == operator_sign(infix_kind(operator), operator) && plain_expression(*left)
            && plain_expression(*right),
        NodeView::Call { token: t, function, arguments } => t == left_paren() && plain_expression(
            *function,
        ) && forall|i: int| 0 <= i < arguments.len() ==> plain_expression(#[trigger] arguments[i]),
        NodeView::Function { token: t, parameters, body } => t == fn_word() && (forall|i: int|
            0 <= i < parameters.len() ==> plain_name(#[trigger] parameters[i])) && match *body {
            NodeView::Block { token: brace, statements } => brace == left_brace() && forall|
                i: int,
            | 0 <= i < statements.len() ==> plain_statement(#[trigger] statements[i]),
            _ => false,
        },
        _ => false,
    }
}

/// Whether `node` is a statement in canonical shape.
pub open spec fn plain_statement(node: NodeView) -> bool
    decreases node, 1int,
{
    match node {
        NodeView::Let { token: t, name, value } => t == let_word() && plain_name(*name)
            && plain_expression(*value),
        NodeView::Return { token: t, value } => t == return_word() && plain_expression(*value),
        NodeView::Expression { token: t, expression } => plain_expression(*expression) && t
            == render(*expression)[0],
        _ => false,
    }
}

/// Whether the tokens `r` stand in `s` from position `i` on.
#[verifier::opaque]
pub open spec fn stands_at(s: Seq<TokenView>, i: int, r: Seq<TokenView>) -> bool {
    i >= 0 && forall|k: int| 0 <= k < r.len() ==> tok(s, i + k) == #[trigger] r[k]
}

/// Whether a token of kind `kind` can start an expression.
pub open spec fn starts_expression(kind: TokenType) -> bool {
    kind == TokenType::IDENT || kind == TokenType::INT || kind == TokenType::TRUE || kind
        == TokenType::FALSE || kind == TokenType::LPAREN || kind == TokenType::FUNCTION
}

/// Where two runs of tokens stand one after the other, each of them
/// stands.
proof fn lemma_stands_split(s: Seq<TokenView>, i: int, a: Seq<TokenView>, b: Seq<TokenView>)
    requires
        stands_at(s, i, a + b),
    ensures
        stands_at(s, i, a),
        stands_at(s, i + a.len(), b),
{
    reveal(stands_at);
    assert forall|k: int| 0 <= k < a.len() implies tok(s, i + k) == #[trigger] a[k] by {
        assert((a + b)[k] == a[k]);
    }
    assert forall|k: int| 0 <= k < b.len() implies tok(s, i + a.len() + k) == #[trigger] b[k] by {
        assert((a + b)[a.len() + k] == b[k]);
    }
}

/// Where a single token stands, it is the token at that position.
proof fn lemma_stands_one(s: Seq<TokenView>, i: int, t: TokenView)
    requires
        stands_at(s, i, seq![t]),
    ensures
        tok(s, i) == t,
{
    reveal(stands_at);
    assert(seq![t][0] == t);
}

/// Where two tokens stand, they are the tokens at that position and the
/// next.
proof fn lemma_stands_two(s: Seq<TokenView>, i: int, t: TokenView, u: TokenView)
    requires
        stands_at(s, i, seq![t, u]),
    ensures
        tok(s, i) == t,
        tok(s, i + 1) == u,
{
    reveal(stands_at);
    assert(seq![t, u][0] == t);
    assert(seq![t, u][1] == u);
}

/// Where a run of tokens stands, each of its tokens is at its position.
proof fn lemma_stands_index(s: Seq<TokenView>, i: int, r: Seq<TokenView>, k: int)
    requires
        stands_at(s, i, r),
        0 <= k < r.len(),
    ensures
        i >= 0,
        tok(s, i + k) == r[k],
{
    reveal(stands_at);
}

/// A sequence stands at its own start.
proof fn lemma_stands_whole(r: Seq<TokenView>)
    ensures
        stands_at(r, 0, r),
{
    reveal(stands_at);
}

/// The canonical tokens of a canonical expression start with a token that
/// can start an expression.
proof fn lemma_render_starts(e: NodeView)
    requires
        plain_expression(e),
    ensures
        render(e).len() >= 1,
        starts_expression(render(e)[0].token_type),
    decreases e,
{
    match e {
        NodeView::Call { function, .. } => {
            lemma_render_starts(*function);
        },
        _ => {},
    }
}

/// What is left of a list after the item before index `from`: a comma and
/// the items from `from` on, or nothing.
pub open spec fn render_rest(items: Seq<NodeView>, from: int) -> Seq<TokenView> {
    if 0 <= from < items.len() {
        seq![comma()] + render_list(items, from)
    } else {
        Seq::empty()
    }
}

/// A list is its first item and what is left after it.
proof fn lemma_render_list_unfolds(items: Seq<NodeView>, from: int)
    requires
        0 <= from < items.len(),
    ensures
        render_list(items, from) == render(items[from]) + render_rest(items, from + 1),
{
    if from + 1 < items.len() {
        assert(render(items[from]) + seq![comma()] + render_list(items, from + 1) =~= render(
            items[from],
        ) + (seq![comma()] + render_list(items, from + 1)));
    } else {
        assert(render(items[from]) + Seq::<TokenView>::empty() =~= render(items[from]));
    }
}

/// How far the parser moves over a canonical statement: to its last token,
/// not counting the semicolon that a `return` prints after itself.
pub open spec fn reach(statement: NodeView) -> int {
    if statement is Return {
        render(statement).len() - 2
    } else {
        render(statement).len() - 1
    }
}

/// The parser reads the canonical tokens of a canonical expression as
/// that expression, and goes on from there with whatever follows.
proof fn lemma_expression(e: NodeView, s: Seq<TokenView>, i: int, floor: Precedence)
    requires
        plain_expression(e),
        stands_at(s, i, render(e)),
        floor.rank() < Precedence::CALL.rank(),
    ensures
        render(e).len() >= 1,
        expression(s, i, floor) == operators(s, i + render(e).len() - 1, e, floor).later(
            (render(e).len() - 1) as nat,
        ),
    decreases e, 2int,
{
    lemma_render_starts(e);
    match e {
        NodeView::Identifier { value, .. } => {
            lemma_stands_one(s, i, token(TokenType::IDENT, value));
            assert(prefix(s, i) == (Parsed::Done { value: e, used: 0 }));
        },
        NodeView::Integer { value, .. } => {
            lemma_stands_one(s, i, token(TokenType::INT, int_text(value as int)));
            lemma_numeral_reads_back(value as nat);
            assert(decimal_value(int_text(value as int)) == Some(value));
            assert(prefix(s, i) == (Parsed::Done { value: e, used: 0 }));
        },
        NodeView::Boolean { value, .. } => {
            lemma_stands_one(s, i, truth_word(value));
            assert(prefix(s, i) == (Parsed::Done { value: e, used: 0 }));
        },
        NodeView::Prefix { .. } => {
            lemma_prefix_case(e, s, i);
        },
        NodeView::Infix { .. } => {
            lemma_infix_case(e, s, i);
        },
        NodeView::Function { .. } => {
            lemma_function_case(e, s, i);
        },
        NodeView::Call { .. } => {
            lemma_call_case(e, s, i, floor);
        },
        _ => {},
    }
    if !(e is Call) {
        let n = (render(e).len() - 1) as nat;
        assert(prefix(s, i) == (Parsed::Done { value: e, used: n }));
        assert(expression(s, i, floor) == operators(s, i + n, e, floor).later(n));
    }
}

/// The parser reads the canonical tokens of a canonical expression as
/// that expression and no more, where what follows does not continue it.
proof fn lemma_expression_alone(e: NodeView, s: Seq<TokenView>, i: int, floor: Precedence)
    requires
        plain_expression(e),
        stands_at(s, i, render(e)),
        floor.rank() < Precedence::CALL.rank(),
        !continues(s, i + render(e).len() - 1, floor),
    ensures
        render(e).len() >= 1,
        expression(s, i, floor) == (Parsed::Done { value: e, used: (render(e).len() - 1) as nat }),
    decreases e, 3int,
{
    lemma_expression(e, s, i, floor);
    let end = i + render(e).len() - 1;
    assert(operators(s, end, e, floor) == (Parsed::Done { value: e, used: 0 }));
}

/// The same of a prefix node.
proof fn lemma_prefix_case(e: NodeView, s: Seq<TokenView>, i: int)
    requires
        e is Prefix,
        plain_expression(e),
        stands_at(s, i, render(e)),
    ensures
        prefix(s, i) == (Parsed::Done { value: e, used: (render(e).len() - 1) as nat }),
    decreases e, 1int,
{
    let operator = e->Prefix_operator;
    let right = *e->Prefix_right;
    let sign = operator_sign(prefix_kind(operator), operator);
    let rr = render(right);
    let n = rr.len() as int;
    let opening = seq![left_paren(), sign];
    assert(render(e) == opening + rr + seq![right_paren()]);
    lemma_stands_split(s, i, opening + rr, seq![right_paren()]);
    lemma_stands_split(s, i, opening, rr);
    lemma_stands_two(s, i, left_paren(), sign);
    lemma_stands_one(s, i + 2 + n, right_paren());
    assert(kind_at(s, i + 2 + n) == TokenType::RPAREN);
    assert(!continues(s, i + 1 + n, Precedence::PREFIX));
    lemma_expression_alone(right, s, i + 2, Precedence::PREFIX);
    assert(expression(s, i + 2, Precedence::PREFIX) == (Parsed::Done {
        value: right,
        used: (n - 1) as nat,
    }));
    assert(tok(s, i + 1) == sign);
    assert(prefix_operator(s, i + 1) == (Parsed::Done { value: e, used: n as nat }));
    assert(prefix(s, i + 1) == prefix_operator(s, i + 1));
    assert(!continues(s, i + 1 + n, Precedence::LOWEST));
    assert(operators(s, i + 1 + n, e, Precedence::LOWEST) == (Parsed::Done {
        value: e,
        used: 0,
    }));
    assert(expression(s, i + 1, Precedence::LOWEST) == (Parsed::Done { value: e, used: n as nat }));
    assert(grouped(s, i) == (Parsed::Done { value: e, used: (n + 2) as nat }));
    assert(prefix(s, i) == grouped(s, i));
}

/// The same of an infix node.
proof fn lemma_infix_case(e: NodeView, s: Seq<TokenView>, i: int)
    requires
        e is Infix,
        plain_expression(e),
        stands_at(s, i, render(e)),
    ensures
        prefix(s, i) == (Parsed::Done { value: e, used: (render(e).len() - 1) as nat }),
    decreases e, 1int,
{
    let operator = e->Infix_operator;
    let left = *e->Infix_left;
    let right = *e->Infix_right;
    let sign = operator_sign(infix_kind(operator), operator);
    let rl = render(left);
    let rr = render(right);
    let a = rl.len() as int;
    let b = rr.len() as int;
    let low = Precedence::LOWEST;
    let strength = precedence_of(sign.token_type);
    assert(render(e) == seq![left_paren()] + rl + seq![sign] + rr + seq![right_paren()]);
    lemma_stands_split(s, i, seq![left_paren()] + rl + seq![sign] + rr, seq![right_paren()]);
    lemma_stands_split(s, i, seq![left_paren()] + rl + seq![sign], rr);
    lemma_stands_split(s, i, seq![left_paren()] + rl, seq![sign]);
    lemma_stands_split(s, i, seq![left_paren()], rl);
    lemma_stands_one(s, i, left_paren());
    lemma_stands_one(s, i + 1 + a, sign);
    lemma_stands_one(s, i + 2 + a + b, right_paren());
    lemma_expression(left, s, i + 1, low);
    assert(expression(s, i + 1, low) == operators(s, i + a, left, low).later((a - 1) as nat));
    assert(kind_at(s, i + a + 1) == sign.token_type);
    assert(1 <= strength.rank() < Precedence::CALL.rank());
    assert(continues(s, i + a, low));
    assert(kind_at(s, i + 2 + a + b) == TokenType::RPAREN);
    assert(!continues(s, i + 1 + a + b, strength));
    lemma_expression_alone(right, s, i + a + 2, strength);
    assert(expression(s, i + a + 2, strength) == (Parsed::Done {
        value: right,
        used: (b - 1) as nat,
    }));
    assert(infix(s, i + a + 1, left) == (Parsed::Done { value: e, used: b as nat }));
    assert(!continues(s, i + 1 + a + b, low));
    assert(operators(s, i + a + 1 + b, e, low) == (Parsed::Done { value: e, used: 0 }));
    assert(operators(s, i + a, left, low) == (Parsed::Done { value: e, used: (b + 1) as nat }));
    assert(expression(s, i + 1, low) == (Parsed::Done { value: e, used: (a + b) as nat }));
    assert(grouped(s, i) == (Parsed::Done { value: e, used: (a + b + 2) as nat }));
    assert(prefix(s, i) == grouped(s, i));
}

/// The same of a call.
#[verifier::rlimit(50)]
proof fn lemma_call_case(e: NodeView, s: Seq<TokenView>, i: int, floor: Precedence)
    requires
        e is Call,
        plain_expression(e),
        stands_at(s, i, render(e)),
        floor.rank() < Precedence::CALL.rank(),
    ensures
        expression(s, i, floor) == operators(s, i + render(e).len() - 1, e, floor).later(
            (render(e).len() - 1) as nat,
        ),
    decreases e, 1int,
{
    let callee = *e->Call_function;
    let items = e->Call_arguments;
    let rf = render(callee);
    let ra = render_list(items, 0);
    let a = rf.len() as int;
    let b = ra.len() as int;
    assert(render(e) == rf + seq![left_paren()] + ra + seq![right_paren()]);
    lemma_stands_split(s, i, rf + seq![left_paren()] + ra, seq![right_paren()]);
    lemma_stands_split(s, i, rf + seq![left_paren()], ra);
    lemma_stands_split(s, i, rf, seq![left_paren()]);
    lemma_stands_one(s, i + a, left_paren());
    lemma_stands_one(s, i + a + 1 + b, right_paren());
    lemma_expression(callee, s, i, floor);
    assert(expression(s, i, floor) == operators(s, i + a - 1, callee, floor).later(
        (a - 1) as nat,
    ));
    assert(kind_at(s, i + a) == TokenType::LPAREN);
    assert(continues(s, i + a - 1, floor));
    lemma_stands_join(s, i + a + 1, ra, right_paren());
    lemma_arguments(items, s, i + a);
    assert(arguments(s, i + a) == (Parsed::Done { value: items, used: (b + 1) as nat }));
    assert(call(s, i + a, callee) == (Parsed::Done { value: e, used: (b + 1) as nat }));
    assert(operators(s, i + a - 1, callee, floor) == operators(s, i + a + b + 1, e, floor).later(
        (b + 2) as nat,
    ));
}

/// The parser reads a canonical argument list as the arguments.
proof fn lemma_arguments(items: Seq<NodeView>, s: Seq<TokenView>, i: int)
    requires
        i >= 0,
        forall|k: int| 0 <= k < items.len() ==> plain_expression(#[trigger] items[k]),
        stands_at(s, i + 1, render_list(items, 0) + seq![right_paren()]),
    ensures
        arguments(s, i) == (Parsed::Done {
            value: items,
            used: (render_list(items, 0).len() + 1) as nat,
        }),
    decreases items, items.len() + 1,
{
    let low = Precedence::LOWEST;
    let all = render_list(items, 0);
    lemma_stands_split(s, i + 1, all, seq![right_paren()]);
    lemma_stands_one(s, i + 1 + all.len(), right_paren());
    if items.len() == 0 {
        assert(items =~= Seq::<NodeView>::empty());
    } else {
        let first = items[0];
        let n = render(first).len() as int;
        lemma_render_list_unfolds(items, 0);
        lemma_render_starts(first);
        lemma_stands_split(s, i + 1, render(first), render_rest(items, 1));
        lemma_stands_index(s, i + 1, render(first), 0);
        assert(kind_at(s, i + 1) != TokenType::RPAREN);
        lemma_follower(items, 1, s, i + 1 + n);
        assert(!continues(s, i + n, low));
        lemma_expression_alone(first, s, i + 1, low);
        assert(seq![first] =~= items.take(1));
        lemma_stands_join(s, i + n + 1, render_rest(items, 1), right_paren());
        lemma_arguments_rest(items, 1, s, i + n);
        assert(arguments(s, i) == arguments_rest(s, i + n, seq![first]).later(n as nat));
    }
}

/// After an item of a list comes a comma or the closing parenthesis, and
/// neither continues an expression.
proof fn lemma_follower(items: Seq<NodeView>, from: int, s: Seq<TokenView>, j: int)
    requires
        j >= 0,
        0 <= from <= items.len(),
        stands_at(s, j, render_rest(items, from)),
        tok(s, j + render_rest(items, from).len()) == right_paren(),
    ensures
        kind_at(s, j) == TokenType::COMMA || kind_at(s, j) == TokenType::RPAREN,
        from < items.len() <==> kind_at(s, j) == TokenType::COMMA,
{
    if from < items.len() {
        assert(render_rest(items, from)[0] == comma());
        lemma_stands_index(s, j, render_rest(items, from), 0);
    }
}

/// The parser reads what is left of a canonical argument list as the
/// arguments that were still to come.
proof fn lemma_arguments_rest(items: Seq<NodeView>, from: int, s: Seq<TokenView>, j: int)
    requires
        j >= 0,
        1 <= from <= items.len(),
        forall|k: int| 0 <= k < items.len() ==> plain_expression(#[trigger] items[k]),
        stands_at(s, j + 1, render_rest(items, from) + seq![right_paren()]),
    ensures
        arguments_rest(s, j, items.take(from)) == (Parsed::Done {
            value: items,
            used: (render_rest(items, from).len() + 1) as nat,
        }),
    decreases items, items.len() - from,
{
    let low = Precedence::LOWEST;
    let rest = render_rest(items, from);
    lemma_stands_split(s, j + 1, rest, seq![right_paren()]);
    lemma_stands_one(s, j + 1 + rest.len(), right_paren());
    lemma_follower(items, from, s, j + 1);
    if from < items.len() {
        let item = items[from];
        let n = render(item).len() as int;
        lemma_render_list_unfolds(items, from);
        let after = render_rest(items, from + 1);
        assert(rest == seq![comma()] + (render(item) + after));
        lemma_stands_split(s, j + 1, seq![comma()], render(item) + after);
        lemma_stands_split(s, j + 2, render(item), after);
        lemma_follower(items, from + 1, s, j + 2 + n);
        assert(!continues(s, j + 1 + n, low));
        lemma_expression_alone(item, s, j + 2, low);
        assert(items.take(from).push(item) =~= items.take(from + 1));
        lemma_stands_join(s, j + n + 2, after, right_paren());
        lemma_arguments_rest(items, from + 1, s, j + n + 1);
        assert(arguments_rest(s, j, items.take(from)) == arguments_rest(
            s,
            j + n + 1,
            items.take(from + 1),
        ).later((n + 1) as nat));
    } else {
        assert(items.take(from) =~= items);
    }
}

/// The parser reads what is left of a canonical parameter list as the
/// names that were still to come.
proof fn lemma_parameters_rest(items: Seq<NodeView>, from: int, s: Seq<TokenView>, j: int)
    requires
        j >= 0,
        1 <= from <= items.len(),
        forall|k: int| 0 <= k < items.len() ==> plain_name(#[trigger] items[k]),
        stands_at(s, j + 1, render_rest(items, from) + seq![right_paren()]),
    ensures
        parameters_rest(s, j, items.take(from)) == (Parsed::Done {
            value: items,
            used: (render_rest(items, from).len() + 1) as nat,
        }),
    decreases items.len() - from,
{
    let rest = render_rest(items, from);
    lemma_stands_split(s, j + 1, rest, seq![right_paren()]);
    lemma_stands_one(s, j + 1 + rest.len(), right_paren());
    lemma_follower(items, from, s, j + 1);
    if from < items.len() {
        let item = items[from];
        assert(plain_name(item));
        lemma_render_list_unfolds(items, from);
        let after = render_rest(items, from + 1);
        assert(rest == seq![comma()] + (render(item) + after));
        lemma_stands_split(s, j + 1, seq![comma()], render(item) + after);
        lemma_stands_split(s, j + 2, render(item), after);
        lemma_stands_index(s, j + 2, render(item), 0);
        assert(identifier_at(s, j + 2) == item);
        assert(items.take(from).push(item) =~= items.take(from + 1));
        lemma_stands_join(s, j + 3, after, right_paren());
        lemma_parameters_rest(items, from + 1, s, j + 2);
        assert(parameters_rest(s, j, items.take(from)) == parameters_rest(
            s,
            j + 2,
            items.take(from + 1),
        ).later(2));
    } else {
        assert(items.take(from) =~= items);
    }
}

/// The parser reads a canonical parameter list as the names.
proof fn lemma_parameters(items: Seq<NodeView>, s: Seq<TokenView>, i: int)
    requires
        i >= 0,
        forall|k: int| 0 <= k < items.len() ==> plain_name(#[trigger] items[k]),
        stands_at(s, i + 1, render_list(items, 0) + seq![right_paren()]),
    ensures
        parameters(s, i) == (Parsed::Done {
            value: items,
            used: (render_list(items, 0).len() + 1) as nat,
        }),
{
    let all = render_list(items, 0);
    lemma_stands_split(s, i + 1, all, seq![right_paren()]);
    lemma_stands_one(s, i + 1 + all.len(), right_paren());
    if items.len() == 0 {
        assert(items =~= Seq::<NodeView>::empty());
    } else {
        let first = items[0];
        assert(plain_name(first));
        lemma_render_list_unfolds(items, 0);
        lemma_stands_split(s, i + 1, render(first), render_rest(items, 1));
        lemma_stands_index(s, i + 1, render(first), 0);
        assert(identifier_at(s, i + 1) == first);
        assert(seq![first] =~= items.take(1));
        lemma_stands_join(s, i + 2, render_rest(items, 1), right_paren());
        lemma_parameters_rest(items, 1, s, i + 1);
    }
}

/// Where the parts of a function literal stand.
proof fn lemma_function_layout(e: NodeView, s: Seq<TokenView>, i: int)
    requires
        e is Function,
        *e->Function_body is Block,
        stands_at(s, i, render(e)),
    ensures
        ({
            let names = render_list(e->Function_parameters, 0);
            let statements = render_statements((*e->Function_body)->Block_statements, 0);
            let at = i + names.len() + 3;
            &&& render(e).len() == names.len() + statements.len() + 5
            &&& tok(s, i) == fn_word()
            &&& tok(s, i + 1) == left_paren()
            &&& stands_at(s, i + 2, names + seq![right_paren()])
            &&& tok(s, at) == left_brace()
            &&& stands_at(s, at + 1, statements)
            &&& tok(s, at + 1 + statements.len()) == right_brace()
        }),
{
    let body = *e->Function_body;
    let rp = render_list(e->Function_parameters, 0);
    let rs = render_statements(body->Block_statements, 0);
    let a = rp.len() as int;
    let opening = seq![fn_word(), left_paren()];
    assert(render(body) == seq![left_brace()] + rs + seq![right_brace()]);
    assert(render(e) == opening + rp + seq![right_paren()] + render(body));
    lemma_stands_split(s, i, opening + rp + seq![right_paren()], render(body));
    lemma_stands_split(s, i, opening + rp, seq![right_paren()]);
    lemma_stands_split(s, i, opening, rp);
    lemma_stands_two(s, i, fn_word(), left_paren());
    lemma_stands_one(s, i + 2 + a, right_paren());
    let at = i + a + 3;
    lemma_stands_split(s, at, seq![left_brace()] + rs, seq![right_brace()]);
    lemma_stands_split(s, at, seq![left_brace()], rs);
    lemma_stands_one(s, at, left_brace());
    lemma_stands_one(s, at + 1 + rs.len(), right_brace());
    lemma_stands_join(s, i + 2, rp, right_paren());
}

/// Where a run of tokens stands and a token follows it, the run with that
/// token stands.
proof fn lemma_stands_join(s: Seq<TokenView>, i: int, a: Seq<TokenView>, t: TokenView)
    requires
        stands_at(s, i, a),
        tok(s, i + a.len()) == t,
    ensures
        stands_at(s, i, a + seq![t]),
{
    reveal(stands_at);
    let whole = a + seq![t];
    assert forall|k: int| 0 <= k < whole.len() implies tok(s, i + k) == #[trigger] whole[k] by {
        if k < a.len() {
            assert(a[k] == whole[k]);
        }
    }
}

/// The same of a function literal.
proof fn lemma_function_case(e: NodeView, s: Seq<TokenView>, i: int)
    requires
        e is Function,
        plain_expression(e),
        stands_at(s, i, render(e)),
    ensures
        prefix(s, i) == (Parsed::Done { value: e, used: (render(e).len() - 1) as nat }),
    decreases e, 1int,
{
    let names = e->Function_parameters;
    let body = *e->Function_body;
    let statements = body->Block_statements;
    let a = render_list(names, 0).len() as int;
    let b = render_statements(statements, 0).len() as int;
    let at = i + a + 3;
    lemma_function_layout(e, s, i);
    lemma_parameters(names, s, i + 1);
    assert(parameters(s, i + 1) == (Parsed::Done { value: names, used: (a + 1) as nat }));
    assert(kind_at(s, i + 1) == TokenType::LPAREN);
    assert(kind_at(s, at) == TokenType::LBRACE);
    assert(kind_at(s, at + 1 + b) == TokenType::RBRACE);
    assert(statements.take(0) =~= Seq::<NodeView>::empty());
    lemma_statements(statements, 0, s, at + 1);
    reveal(rest_of_block);
    assert(block_rest(s, at + 1, Seq::empty()) == (Parsed::Done {
        value: statements,
        used: b as nat,
    }));
    assert(block(s, at) == (Parsed::Done { value: body, used: (b + 1) as nat }));
    assert(function(s, i) == (Parsed::Done { value: e, used: (a + b + 4) as nat }));
    assert(prefix(s, i) == function(s, i));
}

/// The canonical tokens of a canonical statement start with `let`,
/// `return`, or a token that can start an expression.
proof fn lemma_statement_starts(statement: NodeView)
    requires
        plain_statement(statement),
    ensures
        render(statement).len() >= 1,
        reach(statement) >= 0,
        ({
            let kind = render(statement)[0].token_type;
            if statement is Let {
                kind == TokenType::LET
            } else if statement is Return {
                kind == TokenType::RETURN
            } else {
                starts_expression(kind)
            }
        }),
{
    match statement {
        NodeView::Let { value, .. } => {
            lemma_render_starts(*value);
        },
        NodeView::Return { value, .. } => {
            lemma_render_starts(*value);
        },
        NodeView::Expression { expression, .. } => {
            lemma_render_starts(*expression);
        },
        _ => {},
    }
}

/// Where the parts of a `let` stand.
proof fn lemma_let_layout(st: NodeView, s: Seq<TokenView>, i: int)
    requires
        st is Let,
        plain_name(*st->Let_name),
        stands_at(s, i, render(st)),
    ensures
        render(st).len() == render(*st->Let_value).len() + 3,
        tok(s, i) == let_word(),
        kind_at(s, i + 1) == TokenType::IDENT,
        identifier_at(s, i + 1) == *st->Let_name,
        tok(s, i + 2) == assign_sign(),
        stands_at(s, i + 3, render(*st->Let_value)),
{
    let name = *st->Let_name;
    let rv = render(*st->Let_value);
    assert(render(st) == seq![let_word()] + render(name) + seq![assign_sign()] + rv);
    lemma_stands_split(s, i, seq![let_word()] + render(name) + seq![assign_sign()], rv);
    lemma_stands_split(s, i, seq![let_word()] + render(name), seq![assign_sign()]);
    lemma_stands_split(s, i, seq![let_word()], render(name));
    lemma_stands_one(s, i, let_word());
    lemma_stands_one(s, i + 2, assign_sign());
    lemma_stands_index(s, i + 1, render(name), 0);
}

/// Where the parts of a `return` stand.
proof fn lemma_return_layout(st: NodeView, s: Seq<TokenView>, i: int)
    requires
        st is Return,
        stands_at(s, i, render(st)),
    ensures
        render(st).len() == render(*st->Return_value).len() + 2,
        tok(s, i) == return_word(),
        stands_at(s, i + 1, render(*st->Return_value)),
        tok(s, i + 1 + render(*st->Return_value).len()) == semicolon(),
{
    let rv = render(*st->Return_value);
    assert(render(st) == seq![return_word()] + rv + seq![semicolon()]);
    lemma_stands_split(s, i, seq![return_word()] + rv, seq![semicolon()]);
    lemma_stands_split(s, i, seq![return_word()], rv);
    lemma_stands_one(s, i, return_word());
    lemma_stands_one(s, i + 1 + rv.len(), semicolon());
}

/// The parser reads the canonical tokens of a canonical `let` as that
/// statement.
proof fn lemma_let_case(st: NodeView, s: Seq<TokenView>, i: int)
    requires
        st is Let,
        plain_statement(st),
        stands_at(s, i, render(st)),
        kind_at(s, i + render(st).len()) == TokenType::SEMICOLON,
    ensures
        statement(s, i) == (Parsed::Done { value: st, used: (render(st).len() - 1) as nat }),
    decreases st, 4int,
{
    let low = Precedence::LOWEST;
    let value = *st->Let_value;
    let n = render(value).len() as int;
    lemma_let_layout(st, s, i);
    assert(!continues(s, i + 2 + n, low));
    lemma_expression_alone(value, s, i + 3, low);
    assert(expression(s, i + 3, low) == (Parsed::Done { value, used: (n - 1) as nat }));
    assert(kind_at(s, i + 2) == TokenType::ASSIGN);
    assert(let_statement(s, i) == (Parsed::Done { value: st, used: (n + 2) as nat }));
    assert(kind_at(s, i) == TokenType::LET);
    assert(statement(s, i) == let_statement(s, i));
}

/// The parser reads the canonical tokens of a canonical `return` as
/// that statement.
proof fn lemma_return_case(st: NodeView, s: Seq<TokenView>, i: int)
    requires
        st is Return,
        plain_statement(st),
        stands_at(s, i, render(st)),
    ensures
        render(st).len() >= 2,
        statement(s, i) == (Parsed::Done { value: st, used: (render(st).len() - 2) as nat }),
    decreases st, 4int,
{
    let low = Precedence::LOWEST;
    let value = *st->Return_value;
    let n = render(value).len() as int;
    lemma_return_layout(st, s, i);
    assert(kind_at(s, i + 1 + n) == TokenType::SEMICOLON);
    assert(!continues(s, i + n, low));
    lemma_expression_alone(value, s, i + 1, low);
    assert(expression(s, i + 1, low) == (Parsed::Done { value, used: (n - 1) as nat }));
    assert(return_statement(s, i) == (Parsed::Done { value: st, used: n as nat }));
    assert(kind_at(s, i) == TokenType::RETURN);
    assert(statement(s, i) == return_statement(s, i));
}

/// The parser reads the canonical tokens of a canonical expression
/// statement as that statement.
proof fn lemma_expression_case(st: NodeView, s: Seq<TokenView>, i: int)
    requires
        st is Expression,
        plain_statement(st),
        stands_at(s, i, render(st)),
        kind_at(s, i + render(st).len()) == TokenType::SEMICOLON,
    ensures
        render(st).len() >= 1,
        statement(s, i) == (Parsed::Done { value: st, used: (render(st).len() - 1) as nat }),
    decreases st, 4int,
{
    let low = Precedence::LOWEST;
    let inner = *st->Expression_expression;
    let n = render(inner).len() as int;
    lemma_render_starts(inner);
    assert(render(st) == render(inner));
    lemma_stands_index(s, i, render(inner), 0);
    lemma_stands_index(s, i, render(inner), n - 1);
    assert(!continues(s, i + n - 1, low));
    lemma_expression_alone(inner, s, i, low);
    assert(expression(s, i, low) == (Parsed::Done { value: inner, used: (n - 1) as nat }));
    assert(expression_statement(s, i) == (Parsed::Done { value: st, used: (n - 1) as nat }));
    assert(statement(s, i) == expression_statement(s, i));
}

/// The parser reads the canonical tokens of a canonical statement as
/// that statement, where a semicolon follows.
proof fn lemma_statement(st: NodeView, s: Seq<TokenView>, i: int)
    requires
        plain_statement(st),
        stands_at(s, i, render(st)),
        kind_at(s, i + reach(st) + 1) == TokenType::SEMICOLON,
    ensures
        reach(st) >= 0,
        statement(s, i) == (Parsed::Done { value: st, used: reach(st) as nat }),
    decreases st, 5int,
{
    lemma_statement_starts(st);
    match st {
        NodeView::Let { .. } => {
            lemma_let_case(st, s, i);
        },
        NodeView::Return { .. } => {
            lemma_return_case(st, s, i);
        },
        NodeView::Expression { .. } => {
            lemma_expression_case(st, s, i);
        },
        _ => {},
    }
}

/// One statement of a list of canonical statements: the parser reads it,
/// and one or two semicolons separate its last token from what follows.
proof fn lemma_statement_in_list(items: Seq<NodeView>, from: int, s: Seq<TokenView>, i: int)
    requires
        0 <= from < items.len(),
        forall|k: int| 0 <= k < items.len() ==> plain_statement(#[trigger] items[k]),
        stands_at(s, i, render_statements(items, from)),
    ensures
        ({
            let st = items[from];
            let n = render(st).len();
            &&& n >= 1
            &&& st is Return ==> n >= 2 && reads_statement(s, i, st, (n - 2) as nat) && kind_at(
                s,
                i + n - 1,
            ) == TokenType::SEMICOLON
            &&& !(st is Return) ==> reads_statement(s, i, st, (n - 1) as nat)
            &&& kind_at(s, i) != TokenType::RBRACE
            &&& kind_at(s, i) != TokenType::EOF
            &&& kind_at(s, i) != TokenType::SEMICOLON
            &&& kind_at(s, i + n) == TokenType::SEMICOLON
            &&& stands_at(s, i + n + 1, render_statements(items, from + 1))
            &&& render_statements(items, from).len() == n + 1 + render_statements(
                items,
                from + 1,
            ).len()
        }),
    decreases items, 0int,
{
    let st = items[from];
    let n = render(st).len() as int;
    let after = render_statements(items, from + 1);
    assert(render_statements(items, from) == render(st) + seq![semicolon()] + after);
    lemma_stands_split(s, i, render(st) + seq![semicolon()], after);
    lemma_stands_split(s, i, render(st), seq![semicolon()]);
    lemma_stands_one(s, i + n, semicolon());
    lemma_statement_starts(st);
    lemma_stands_index(s, i, render(st), 0);
    if st is Return {
        lemma_stands_index(s, i, render(st), n - 1);
    }
    lemma_statement(st, s, i);
    reveal(reads_statement);
}

/// The first items of a sequence with the next one are one item more.
proof fn lemma_take_push(items: Seq<NodeView>, from: int)
    requires
        0 <= from < items.len(),
    ensures
        items.take(from).push(items[from]) == items.take(from + 1),
{
    assert(items.take(from).push(items[from]) =~= items.take(from + 1));
}

/// All the first items of a sequence are the sequence.
proof fn lemma_take_all(items: Seq<NodeView>)
    ensures
        items.take(items.len() as int) == items,
{
    assert(items.take(items.len() as int) =~= items);
}

/// Whether the parser reads `st` at position `i`, moving `m` tokens forward.
#[verifier::opaque]
spec fn reads_statement(s: Seq<TokenView>, i: int, st: NodeView, m: nat) -> bool {
    statement(s, i) == (Parsed::Done { value: st, used: m })
}

/// `block_rest`, kept folded, as an outline.
#[verifier::opaque]
spec fn rest_of_block(s: Seq<TokenView>, i: int, done: Seq<NodeView>) -> Outline {
    match block_rest(s, i, done) {
        Parsed::Done { value, used } => Outline { statements: value, failure: None, used },
        Parsed::Failed { message, used } => Outline {
            statements: Seq::empty(),
            failure: Some(message),
            used,
        },
    }
}

/// `program`, kept folded.
#[verifier::opaque]
spec fn rest_of_program(s: Seq<TokenView>, i: int, done: Seq<NodeView>) -> Outline {
    program(s, i, done)
}

/// Where the parser reads a statement, the block goes on after it.
proof fn lemma_block_step(
    s: Seq<TokenView>,
    i: int,
    done: Seq<NodeView>,
    st: NodeView,
    m: nat,
    all: Seq<NodeView>,
    k: nat,
)
    requires
        reads_statement(s, i, st, m),
        kind_at(s, i) != TokenType::RBRACE,
        kind_at(s, i) != TokenType::EOF,
        kind_at(s, i) != TokenType::SEMICOLON,
        rest_of_block(s, i + m + 1, done.push(st)) == (Outline { statements: all, failure: None, used: k }),
    ensures
        rest_of_block(s, i, done) == (Outline { statements: all, failure: None, used: k + m + 1 }),
{
    reveal(rest_of_block);
    reveal(reads_statement);
}

/// A semicolon in a block is skipped.
proof fn lemma_block_skip(s: Seq<TokenView>, i: int, done: Seq<NodeView>, all: Seq<NodeView>, k: nat)
    requires
        kind_at(s, i) == TokenType::SEMICOLON,
        rest_of_block(s, i + 1, done) == (Outline { statements: all, failure: None, used: k }),
    ensures
        rest_of_block(s, i, done) == (Outline { statements: all, failure: None, used: k + 1 }),
{
    reveal(rest_of_block);
}

/// A closing brace ends the block.
proof fn lemma_block_end(s: Seq<TokenView>, i: int, done: Seq<NodeView>)
    requires
        kind_at(s, i) == TokenType::RBRACE,
    ensures
        rest_of_block(s, i, done) == (Outline { statements: done, failure: None, used: 0 }),
{
    reveal(rest_of_block);
}

/// Where the parser reads a statement, the program goes on after it.
proof fn lemma_program_step(
    s: Seq<TokenView>,
    i: int,
    done: Seq<NodeView>,
    st: NodeView,
    m: nat,
    all: Seq<NodeView>,
    k: nat,
)
    requires
        reads_statement(s, i, st, m),
        kind_at(s, i) != TokenType::EOF,
        kind_at(s, i) != TokenType::SEMICOLON,
        rest_of_program(s, i + m + 1, done.push(st)) == (Outline {
            statements: all,
            failure: None,
            used: k,
        }),
    ensures
        rest_of_program(s, i, done) == (Outline {
            statements: all,
            failure: None,
            used: k + m + 1,
        }),
{
    reveal(rest_of_program);
    reveal(reads_statement);
}

/// A semicolon between statements is skipped.
proof fn lemma_program_skip(
    s: Seq<TokenView>,
    i: int,
    done: Seq<NodeView>,
    all: Seq<NodeView>,
    k: nat,
)
    requires
        kind_at(s, i) == TokenType::SEMICOLON,
        rest_of_program(s, i + 1, done) == (Outline { statements: all, failure: None, used: k }),
    ensures
        rest_of_program(s, i, done) == (Outline { statements: all, failure: None, used: k + 1 }),
{
    reveal(rest_of_program);
}

/// The end of the input ends the program.
proof fn lemma_program_end(s: Seq<TokenView>, i: int, done: Seq<NodeView>)
    requires
        kind_at(s, i) == TokenType::EOF,
    ensures
        rest_of_program(s, i, done) == (Outline { statements: done, failure: None, used: 0 }),
{
    reveal(rest_of_program);
}

/// One round of reading a block: when the statements after the one at
/// position `i` are read as they should be, so are the statements from
/// position `i` on.
proof fn lemma_block_round(items: Seq<NodeView>, from: int, s: Seq<TokenView>, i: int)
    requires
        0 <= from < items.len(),
        forall|k: int| 0 <= k < items.len() ==> plain_statement(#[trigger] items[k]),
        stands_at(s, i, render_statements(items, from)),
    ensures
        ({
            let n = render(items[from]).len();
            let k = render_statements(items, from + 1).len();
            &&& stands_at(s, i + n + 1, render_statements(items, from + 1))
            &&& render_statements(items, from).len() == n + 1 + k
            &&& rest_of_block(s, i + n + 1, items.take(from + 1)) == (Outline {
                statements: items,
                failure: None,
                used: k,
            }) ==> rest_of_block(s, i, items.take(from)) == (Outline {
                statements: items,
                failure: None,
                used: k + n + 1,
            })
        }),
    decreases items, 1int,
{
    let st = items[from];
    let n = render(st).len();
    let k = render_statements(items, from + 1).len();
    let done = items.take(from + 1);
    lemma_statement_in_list(items, from, s, i);
    lemma_take_push(items, from);
    if rest_of_block(s, i + n + 1, done) == (Outline { statements: items, failure: None, used: k }) {
        lemma_block_skip(s, i + n, done, items, k);
        if st is Return {
            lemma_block_skip(s, i + n - 1, done, items, k + 1);
            lemma_block_step(s, i, items.take(from), st, (n - 2) as nat, items, k + 2);
        } else {
            lemma_block_step(s, i, items.take(from), st, (n - 1) as nat, items, k + 1);
        }
    }
}

/// One round of reading a program, as for a block.
proof fn lemma_program_round(items: Seq<NodeView>, from: int, s: Seq<TokenView>, i: int)
    requires
        0 <= from < items.len(),
        forall|k: int| 0 <= k < items.len() ==> plain_statement(#[trigger] items[k]),
        stands_at(s, i, render_statements(items, from)),
    ensures
        ({
            let n = render(items[from]).len();
            let k = render_statements(items, from + 1).len();
            &&& stands_at(s, i + n + 1, render_statements(items, from + 1))
            &&& render_statements(items, from).len() == n + 1 + k
            &&& rest_of_program(s, i + n + 1, items.take(from + 1)) == (Outline {
                statements: items,
                failure: None,
                used: k,
            }) ==> rest_of_program(s, i, items.take(from)) == (Outline {
                statements: items,
                failure: None,
                used: k + n + 1,
            })
        }),
{
    let st = items[from];
    let n = render(st).len();
    let k = render_statements(items, from + 1).len();
    let done = items.take(from + 1);
    lemma_statement_in_list(items, from, s, i);
    lemma_take_push(items, from);
    if rest_of_program(s, i + n + 1, done) == (Outline {
        statements: items,
        failure: None,
        used: k,
    }) {
        lemma_program_skip(s, i + n, done, items, k);
        if st is Return {
            lemma_program_skip(s, i + n - 1, done, items, k + 1);
            lemma_program_step(s, i, items.take(from), st, (n - 2) as nat, items, k + 2);
        } else {
            lemma_program_step(s, i, items.take(from), st, (n - 1) as nat, items, k + 1);
        }
    }
}

/// The parser reads the canonical tokens of canonical statements up to
/// a closing brace as those statements.
proof fn lemma_statements(items: Seq<NodeView>, from: int, s: Seq<TokenView>, i: int)
    requires
        0 <= from <= items.len(),
        forall|k: int| 0 <= k < items.len() ==> plain_statement(#[trigger] items[k]),
        stands_at(s, i, render_statements(items, from)),
        kind_at(s, i + render_statements(items, from).len()) == TokenType::RBRACE,
    ensures
        rest_of_block(s, i, items.take(from)) == (Outline {
            statements: items,
            failure: None,
            used: render_statements(items, from).len(),
        }),
    decreases items, items.len() - from + 2,
{
    if from < items.len() {
        lemma_block_round(items, from, s, i);
        lemma_statements(items, from + 1, s, i + render(items[from]).len() + 1);
    } else {
        lemma_take_all(items);
        assert(render_statements(items, from).len() == 0);
        lemma_block_end(s, i, items);
    }
}

/// The parser reads the canonical tokens of canonical statements up to
/// the end of the input as those statements.
proof fn lemma_program(items: Seq<NodeView>, from: int, s: Seq<TokenView>, i: int)
    requires
        0 <= from <= items.len(),
        forall|k: int| 0 <= k < items.len() ==> plain_statement(#[trigger] items[k]),
        stands_at(s, i, render_statements(items, from)),
        kind_at(s, i + render_statements(items, from).len()) == TokenType::EOF,
    ensures
        rest_of_program(s, i, items.take(from)) == (Outline {
            statements: items,
            failure: None,
            used: render_statements(items, from).len(),
        }),
    decreases items.len() - from,
{
    if from < items.len() {
        lemma_program_round(items, from, s, i);
        lemma_program(items, from + 1, s, i + render(items[from]).len() + 1);
    } else {
        lemma_take_all(items);
        assert(render_statements(items, from).len() == 0);
        lemma_program_end(s, i, items);
    }
}

/// The parser reads the canonical tokens of a canonical expression as that
/// expression, tokens and all.
pub proof fn parser_reads_expression(e: NodeView)
    requires
        plain_expression(e),
    ensures
        render(e).len() >= 1,
        expression(render(e), 0, Precedence::LOWEST) == (Parsed::Done {
            value: e,
            used: (render(e).len() - 1) as nat,
        }),
{
    let s = render(e);
    lemma_render_starts(e);
    lemma_stands_whole(s);
    assert(kind_at(s, s.len() as int) == TokenType::EOF);
    lemma_expression_alone(e, s, 0, Precedence::LOWEST);
}

/// The parser reads the canonical tokens of canonical statements as those
/// statements, tokens and all, and without a diagnostic.
pub proof fn parser_reads_statements(statements: Seq<NodeView>)
    requires
        forall|k: int| 0 <= k < statements.len() ==> plain_statement(#[trigger] statements[k]),
    ensures
        program(render_statements(statements, 0), 0, Seq::empty()) == (Outline {
            statements,
            failure: None,
            used: render_statements(statements, 0).len(),
        }),
{
    let s = render_statements(statements, 0);
    lemma_stands_whole(s);
    assert(kind_at(s, s.len() as int) == TokenType::EOF);
    assert(statements.take(0) =~= Seq::<NodeView>::empty());
    lemma_program(statements, 0, s, 0);
    reveal(rest_of_program);
}

/// The canonical tokens stand at the start of any sequence that starts with
/// them.
pub proof fn lemma_stands_first(r: Seq<TokenView>, more: Seq<TokenView>)
    ensures
        stands_at(r + more, 0, r),
{
    reveal(stands_at);
    assert forall|k: int| 0 <= k < r.len() implies tok(r + more, 0 + k) == #[trigger] r[k] by {
        assert((r + more)[k] == r[k]);
    }
}

/// As `parser_reads_expression`, for the canonical tokens with `EOF` after
/// them, which is how a lexer hands them out.
pub proof fn parser_reads_expression_to_end(e: NodeView, s: Seq<TokenView>)
    requires
        plain_expression(e),
        stands_at(s, 0, render(e)),
        kind_at(s, render(e).len() as int) == TokenType::EOF,
    ensures
        render(e).len() >= 1,
        expression(s, 0, Precedence::LOWEST) == (Parsed::Done {
            value: e,
            used: (render(e).len() - 1) as nat,
        }),
{
    lemma_render_starts(e);
    lemma_expression_alone(e, s, 0, Precedence::LOWEST);
}

/// As `parser_reads_statements`, for the canonical tokens with `EOF` after
/// them, which is how a lexer hands them out.
pub proof fn parser_reads_statements_to_end(statements: Seq<NodeView>, s: Seq<TokenView>)
    requires
        forall|k: int| 0 <= k < statements.len() ==> plain_statement(#[trigger] statements[k]),
        stands_at(s, 0, render_statements(statements, 0)),
        kind_at(s, render_statements(statements, 0).len() as int) == TokenType::EOF,
    ensures
        program(s, 0, Seq::empty()) == (Outline {
            statements,
            failure: None,
            used: render_statements(statements, 0).len(),
        }),
{
    assert(statements.take(0) =~= Seq::<NodeView>::empty());
    lemma_program(statements, 0, s, 0);
    reveal(rest_of_program);
}

} // verus!
