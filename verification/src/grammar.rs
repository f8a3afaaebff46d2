//! What the parser computes, as a function of the token sequence: a Pratt
//! parser over positions in the sequence.
//!
//! Every function here takes the token sequence and the position of the
//! current token, and says how many tokens the parser moves forward besides
//! what it builds. Past the end of the sequence every token is `EOF`.
use crate::statements::{print, NodeView};
use crate::text::decimal_value;
use crate::token::{bare_token, kind_name, token, TokenType, TokenView};
use vstd::prelude::*;

verus! {

/// Binding strength of operators, weakest first.
#[derive(Clone, Copy, Debug, PartialEq, Eq, Structural)]
pub enum Precedence {
    LOWEST,
    EQUALS,
    LESSGREATER,
    SUM,
    PRODUCT,
    PREFIX,
    CALL,
}

impl Precedence {
    /// The position of this strength in the order, from 0 for `LOWEST` to 6
    /// for `CALL`.
    pub open spec fn rank(self) -> int {
        match self {
            Precedence::LOWEST => 0,
            Precedence::EQUALS => 1,
            Precedence::LESSGREATER => 2,
            Precedence::SUM => 3,
            Precedence::PRODUCT => 4,
            Precedence::PREFIX => 5,
            Precedence::CALL => 6,
        }
    }
}

/// The binding strength of a token in infix position; `LOWEST` for a token
/// that is no infix operator.
pub open spec fn precedence_of(kind: TokenType) -> Precedence {
    match kind {
        TokenType::EQ => Precedence::EQUALS,
        TokenType::NEQ => Precedence::EQUALS,
        TokenType::LT => Precedence::LESSGREATER,
        TokenType::GT => Precedence::LESSGREATER,
        TokenType::PLUS => Precedence::SUM,
        TokenType::MINUS => Precedence::SUM,
        TokenType::SLASH => Precedence::PRODUCT,
        TokenType::ASTERISK => Precedence::PRODUCT,
        TokenType::LPAREN => Precedence::CALL,
        _ => Precedence::LOWEST,
    }
}

/// The outcome of a parsing step: what was built and how many tokens the
/// parser moved forward, or the diagnostic of the failure and how far the
/// parser had moved when it gave up.
pub ghost enum Parsed<T> {
    Done { value: T, used: nat },
    Failed { message: Seq<char>, used: nat },
}

impl<T> Parsed<T> {
    /// The same outcome after `n` more tokens.
    pub open spec fn later(self, n: nat) -> Parsed<T> {
        match self {
            Parsed::Done { value, used } => Parsed::Done { value, used: used + n },
            Parsed::Failed { message, used } => Parsed::Failed { message, used: used + n },
        }
    }
}

/// The token at position `i`; `EOF` outside the sequence.
pub open spec fn tok(s: Seq<TokenView>, i: int) -> TokenView {
    if 0 <= i < s.len() {
        s[i]
    } else {
        bare_token(TokenType::EOF)
    }
}

/// The kind of the token at position `i`.
pub open spec fn kind_at(s: Seq<TokenView>, i: int) -> TokenType {
    tok(s, i).token_type
}

/// How many positions lie between `i` and the end of the sequence.
pub open spec fn remaining(s: Seq<TokenView>, i: int) -> nat {
    if i < s.len() {
        (s.len() - i) as nat
    } else {
        0
    }
}

/// The diagnostic for a token of kind `found` where one of kind `wanted` had
/// to follow. It names the kind found first.
pub open spec fn mismatch(found: TokenType, wanted: TokenType) -> Seq<char> {
    "Expected next token to be "@ + kind_name(found) + ", got "@ + kind_name(wanted) + " instead"@
}

/// The diagnostic for a token that cannot start an expression.
pub open spec fn no_prefix(found: TokenType) -> Seq<char> {
    "No prefix parse function for "@ + kind_name(found) + " found"@
}

/// The diagnostic for an integer literal that is no decimal number or does
/// not fit 64 bits.
pub open spec fn bad_integer(literal: Seq<char>) -> Seq<char> {
    "Could not parse "@ + literal + " as integer"@
}

/// The identifier node for the token at position `i`.
pub open spec fn identifier_at(s: Seq<TokenView>, i: int) -> NodeView {
    NodeView::Identifier { token: tok(s, i), value: tok(s, i).text() }
}

/// A statement that starts at position `i`: a `let`, a `return`, or an
/// expression. The parser stops on the statement's last token.
pub open spec fn statement(s: Seq<TokenView>, i: int) -> Parsed<NodeView>
    decreases remaining(s, i), 10int,
{
    match kind_at(s, i) {
        TokenType::LET => let_statement(s, i),
        TokenType::RETURN => return_statement(s, i),
        _ => expression_statement(s, i),
    }
}

/// `let IDENT = EXPRESSION`, with `let` at position `i`.
pub open spec fn let_statement(s: Seq<TokenView>, i: int) -> Parsed<NodeView>
    decreases remaining(s, i), 9int,
{
    if kind_at(s, i + 1) != TokenType::IDENT {
        Parsed::Failed { message: mismatch(kind_at(s, i + 1), TokenType::IDENT), used: 0 }
    } else if kind_at(s, i + 2) != TokenType::ASSIGN {
        Parsed::Failed { message: mismatch(kind_at(s, i + 2), TokenType::ASSIGN), used: 1 }
    } else {
        match expression(s, i + 3, Precedence::LOWEST) {
            Parsed::Done { value, used } => Parsed::Done {
                value: NodeView::Let {
                    token: tok(s, i),
                    name: Box::new(identifier_at(s, i + 1)),
                    value: Box::new(value),
                },
                used: used + 3,
            },
            Parsed::Failed { message, used } => Parsed::Failed { message, used: used + 3 },
        }
    }
}

/// `return EXPRESSION`, with `return` at position `i`.
pub open spec fn return_statement(s: Seq<TokenView>, i: int) -> Parsed<NodeView>
    decreases remaining(s, i), 9int,
{
    match expression(s, i + 1, Precedence::LOWEST) {
        Parsed::Done { value, used } => Parsed::Done {
            value: NodeView::Return { token: tok(s, i), value: Box::new(value) },
            used: used + 1,
        },
        Parsed::Failed { message, used } => Parsed::Failed { message, used: used + 1 },
    }
}

/// An expression in statement position. The statement keeps the token that
/// the expression starts with.
pub open spec fn expression_statement(s: Seq<TokenView>, i: int) -> Parsed<NodeView>
    decreases remaining(s, i), 9int,
{
    match expression(s, i, Precedence::LOWEST) {
        Parsed::Done { value, used } => Parsed::Done {
            value: NodeView::Expression { token: tok(s, i), expression: Box::new(value) },
            used,
        },
        Parsed::Failed { message, used } => Parsed::Failed { message, used },
    }
}

/// The statements of a block from position `i` up to the closing brace or the
/// end of the input, after `done`. Semicolons between statements are skipped.
pub open spec fn block_rest(s: Seq<TokenView>, i: int, done: Seq<NodeView>) -> Parsed<
    Seq<NodeView>,
>
    decreases remaining(s, i), 11int,
{
    let kind = kind_at(s, i);
    if kind == TokenType::RBRACE || kind == TokenType::EOF {
        Parsed::Done { value: done, used: 0 }
    } else if kind == TokenType::SEMICOLON {
        block_rest(s, i + 1, done).later(1)
    } else {
        match statement(s, i) {
            Parsed::Done { value, used } => block_rest(s, i + used + 1, done.push(value)).later(
                used + 1,
            ),
            Parsed::Failed { message, used } => Parsed::Failed { message, used },
        }
    }
}

/// A block, with its opening brace at position `i`. The parser stops on the
/// closing brace, or at the end of the input when the brace is missing.
pub open spec fn block(s: Seq<TokenView>, i: int) -> Parsed<NodeView>
    decreases remaining(s, i), 12int,
{
    match block_rest(s, i + 1, Seq::empty()) {
        Parsed::Done { value, used } => Parsed::Done {
            value: NodeView::Block { token: tok(s, i), statements: value },
            used: used + 1,
        },
        Parsed::Failed { message, used } => Parsed::Failed { message, used: used + 1 },
    }
}

/// An expression that starts at position `i` and whose operators all bind
/// more strongly than `floor`.
pub open spec fn expression(s: Seq<TokenView>, i: int, floor: Precedence) -> Parsed<NodeView>
    decreases remaining(s, i), 8int,
{
    match prefix(s, i) {
        Parsed::Done { value, used } => operators(s, i + used, value, floor).later(used),
        Parsed::Failed { message, used } => Parsed::Failed { message, used },
    }
}

/// The operand that starts at position `i`: a literal, a name, a prefix
/// operator with its operand, a parenthesised expression, an `if` or a
/// function literal.
pub open spec fn prefix(s: Seq<TokenView>, i: int) -> Parsed<NodeView>
    decreases remaining(s, i), 7int,
{
    let token = tok(s, i);
    match token.token_type {
        TokenType::INT => match decimal_value(token.text()) {
            Some(value) => Parsed::Done { value: NodeView::Integer { token, value }, used: 0 },
            None => Parsed::Failed { message: bad_integer(token.text()), used: 0 },
        },
        TokenType::TRUE => Parsed::Done {
            value: NodeView::Boolean { token, value: true },
            used: 0,
        },
        TokenType::FALSE => Parsed::Done {
            value: NodeView::Boolean { token, value: false },
            used: 0,
        },
        TokenType::IDENT => Parsed::Done { value: identifier_at(s, i), used: 0 },
        TokenType::BANG => prefix_operator(s, i),
        TokenType::MINUS => prefix_operator(s, i),
        TokenType::LPAREN => grouped(s, i),
        TokenType::IF => conditional(s, i),
        TokenType::FUNCTION => function(s, i),
        _ => Parsed::Failed { message: no_prefix(token.token_type), used: 0 },
    }
}

/// A prefix operator at position `i` with its operand, which binds at
/// `PREFIX`.
pub open spec fn prefix_operator(s: Seq<TokenView>, i: int) -> Parsed<NodeView>
    decreases remaining(s, i), 6int,
{
    if 0 <= i < s.len() {
        match expression(s, i + 1, Precedence::PREFIX) {
            Parsed::Done { value, used } => Parsed::Done {
                value: NodeView::Prefix {
                    token: tok(s, i),
                    operator: tok(s, i).text(),
                    right: Box::new(value),
                },
                used: used + 1,
            },
            Parsed::Failed { message, used } => Parsed::Failed { message, used: used + 1 },
        }
    } else {
        Parsed::Failed { message: no_prefix(TokenType::EOF), used: 0 }
    }
}

/// `( EXPRESSION )`, with the opening parenthesis at position `i`. The
/// parentheses leave no node of their own.
pub open spec fn grouped(s: Seq<TokenView>, i: int) -> Parsed<NodeView>
    decreases remaining(s, i), 6int,
{
    if 0 <= i < s.len() {
        match expression(s, i + 1, Precedence::LOWEST) {
            Parsed::Done { value, used } => if kind_at(s, i + used + 2) == TokenType::RPAREN {
                Parsed::Done { value, used: used + 2 }
            } else {
                Parsed::Failed {
                    message: mismatch(kind_at(s, i + used + 2), TokenType::RPAREN),
                    used: used + 1,
                }
            },
            Parsed::Failed { message, used } => Parsed::Failed { message, used: used + 1 },
        }
    } else {
        Parsed::Failed { message: no_prefix(TokenType::EOF), used: 0 }
    }
}

/// The optional `else BLOCK` after a block that ends at position `i`.
pub open spec fn alternative(s: Seq<TokenView>, i: int) -> Parsed<Option<NodeView>>
    decreases remaining(s, i), 13int,
{
    if kind_at(s, i + 1) != TokenType::ELSE {
        Parsed::Done { value: None, used: 0 }
    } else if kind_at(s, i + 2) != TokenType::LBRACE {
        Parsed::Failed { message: mismatch(kind_at(s, i + 2), TokenType::LBRACE), used: 1 }
    } else {
        match block(s, i + 2) {
            Parsed::Done { value, used } => Parsed::Done { value: Some(value), used: used + 2 },
            Parsed::Failed { message, used } => Parsed::Failed { message, used: used + 2 },
        }
    }
}

/// What follows the condition of an `if`, which ends at position `i`: the
/// closing parenthesis, the consequence, and the optional alternative.
/// `token` is the `if` itself.
pub open spec fn branches(s: Seq<TokenView>, i: int, token: TokenView, condition: NodeView) -> Parsed<
    NodeView,
>
    decreases remaining(s, i), 14int,
{
    if kind_at(s, i + 1) != TokenType::RPAREN {
        Parsed::Failed { message: mismatch(kind_at(s, i + 1), TokenType::RPAREN), used: 0 }
    } else if kind_at(s, i + 2) != TokenType::LBRACE {
        Parsed::Failed { message: mismatch(kind_at(s, i + 2), TokenType::LBRACE), used: 1 }
    } else {
        match block(s, i + 2) {
            Parsed::Failed { message, used } => Parsed::Failed { message, used: used + 2 },
            Parsed::Done { value: consequence, used: b } => match alternative(s, i + 2 + b) {
                Parsed::Failed { message, used } => Parsed::Failed { message, used: used + 2 + b },
                Parsed::Done { value: other, used: a } => Parsed::Done {
                    value: NodeView::If {
                        token,
                        condition: Box::new(condition),
                        consequence: Box::new(consequence),
                        alternative: match other {
                            Some(node) => Some(Box::new(node)),
                            None => None,
                        },
                    },
                    used: 2 + b + a,
                },
            },
        }
    }
}

/// `if ( CONDITION ) BLOCK`, optionally followed by `else BLOCK`, with `if`
/// at position `i`.
pub open spec fn conditional(s: Seq<TokenView>, i: int) -> Parsed<NodeView>
    decreases remaining(s, i), 6int,
{
    if kind_at(s, i + 1) != TokenType::LPAREN {
        Parsed::Failed { message: mismatch(kind_at(s, i + 1), TokenType::LPAREN), used: 0 }
    } else {
        match expression(s, i + 2, Precedence::LOWEST) {
            Parsed::Failed { message, used } => Parsed::Failed { message, used: used + 2 },
            Parsed::Done { value, used } => branches(s, i + 2 + used, tok(s, i), value).later(
                used + 2,
            ),
        }
    }
}

/// The parameter names from position `i` on, after `done`: while a comma
/// follows, the token after it is the next name.
pub open spec fn parameters_rest(s: Seq<TokenView>, i: int, done: Seq<NodeView>) -> Parsed<
    Seq<NodeView>,
>
    decreases remaining(s, i),
{
    if kind_at(s, i + 1) == TokenType::COMMA {
        if kind_at(s, i + 2) == TokenType::IDENT {
            parameters_rest(s, i + 2, done.push(identifier_at(s, i + 2))).later(2)
        } else {
            Parsed::Failed { message: mismatch(kind_at(s, i + 2), TokenType::IDENT), used: 1 }
        }
    } else if kind_at(s, i + 1) == TokenType::RPAREN {
        Parsed::Done { value: done, used: 1 }
    } else {
        Parsed::Failed { message: mismatch(kind_at(s, i + 1), TokenType::RPAREN), used: 0 }
    }
}

/// A parameter list, with its opening parenthesis at position `i`. The
/// parser stops on the closing parenthesis.
pub open spec fn parameters(s: Seq<TokenView>, i: int) -> Parsed<Seq<NodeView>> {
    if kind_at(s, i + 1) == TokenType::RPAREN {
        Parsed::Done { value: Seq::empty(), used: 1 }
    } else if kind_at(s, i + 1) == TokenType::IDENT {
        parameters_rest(s, i + 1, seq![identifier_at(s, i + 1)]).later(1)
    } else {
        Parsed::Failed { message: mismatch(kind_at(s, i + 1), TokenType::IDENT), used: 0 }
    }
}

/// `fn ( PARAMETERS ) BLOCK`, with `fn` at position `i`.
pub open spec fn function(s: Seq<TokenView>, i: int) -> Parsed<NodeView>
    decreases remaining(s, i), 6int,
{
    if kind_at(s, i + 1) != TokenType::LPAREN {
        Parsed::Failed { message: mismatch(kind_at(s, i + 1), TokenType::LPAREN), used: 0 }
    } else {
        match parameters(s, i + 1) {
            Parsed::Failed { message, used } => Parsed::Failed { message, used: used + 1 },
            Parsed::Done { value: names, used: p } => {
                if kind_at(s, i + p + 2) != TokenType::LBRACE {
                    Parsed::Failed {
                        message: mismatch(kind_at(s, i + p + 2), TokenType::LBRACE),
                        used: p + 1,
                    }
                } else {
                    match block(s, i + p + 2) {
                        Parsed::Failed { message, used } => Parsed::Failed {
                            message,
                            used: used + p + 2,
                        },
                        Parsed::Done { value: body, used: b } => Parsed::Done {
                            value: NodeView::Function {
                                token: tok(s, i),
                                parameters: names,
                                body: Box::new(body),
                            },
                            used: p + 2 + b,
                        },
                    }
                }
            },
        }
    }
}

/// Whether the token after position `i` continues an expression whose
/// operators must bind more strongly than `floor`. A semicolon never does.
pub open spec fn continues(s: Seq<TokenView>, i: int, floor: Precedence) -> bool {
    kind_at(s, i + 1) != TokenType::SEMICOLON && floor.rank() < precedence_of(
        kind_at(s, i + 1),
    ).rank()
}

/// The expression that `left`, which ends at position `i`, grows into: while
/// the next token binds more strongly than `floor`, it takes what was built
/// so far as its left operand, or as the function it calls.
pub open spec fn operators(s: Seq<TokenView>, i: int, left: NodeView, floor: Precedence) -> Parsed<
    NodeView,
>
    decreases remaining(s, i), 5int,
{
    if continues(s, i, floor) {
        let step = if kind_at(s, i + 1) == TokenType::LPAREN {
            call(s, i + 1, left)
        } else {
            infix(s, i + 1, left)
        };
        match step {
            Parsed::Done { value, used } => operators(s, i + 1 + used, value, floor).later(
                used + 1,
            ),
            Parsed::Failed { message, used } => Parsed::Failed { message, used: used + 1 },
        }
    } else {
        Parsed::Done { value: left, used: 0 }
    }
}

/// A binary operator at position `i` with `left` as its left operand. The
/// right operand binds at the operator's own strength, which makes operators
/// of equal strength associate to the left.
pub open spec fn infix(s: Seq<TokenView>, i: int, left: NodeView) -> Parsed<NodeView>
    decreases remaining(s, i), 9int,
{
    match expression(s, i + 1, precedence_of(kind_at(s, i))) {
        Parsed::Done { value, used } => Parsed::Done {
            value: NodeView::Infix {
                token: tok(s, i),
                left: Box::new(left),
                operator: tok(s, i).text(),
                right: Box::new(value),
            },
            used: used + 1,
        },
        Parsed::Failed { message, used } => Parsed::Failed { message, used: used + 1 },
    }
}

/// The arguments from position `i` on, after `done`: while a comma follows,
/// the expression after it is the next argument.
pub open spec fn arguments_rest(s: Seq<TokenView>, i: int, done: Seq<NodeView>) -> Parsed<
    Seq<NodeView>,
>
    decreases remaining(s, i), 5int,
{
    if kind_at(s, i + 1) == TokenType::COMMA {
        match expression(s, i + 2, Precedence::LOWEST) {
            Parsed::Done { value, used } => arguments_rest(
                s,
                i + 2 + used,
                done.push(value),
            ).later(used + 2),
            Parsed::Failed { message, used } => Parsed::Failed { message, used: used + 2 },
        }
    } else if kind_at(s, i + 1) == TokenType::RPAREN {
        Parsed::Done { value: done, used: 1 }
    } else {
        Parsed::Failed { message: mismatch(kind_at(s, i + 1), TokenType::RPAREN), used: 0 }
    }
}

/// An argument list, with its opening parenthesis at position `i`. The
/// parser stops on the closing parenthesis.
pub open spec fn arguments(s: Seq<TokenView>, i: int) -> Parsed<Seq<NodeView>>
    decreases remaining(s, i), 10int,
{
    if kind_at(s, i + 1) == TokenType::RPAREN {
        Parsed::Done { value: Seq::empty(), used: 1 }
    } else {
        match expression(s, i + 1, Precedence::LOWEST) {
            Parsed::Done { value, used } => arguments_rest(s, i + 1 + used, seq![value]).later(
                used + 1,
            ),
            Parsed::Failed { message, used } => Parsed::Failed { message, used: used + 1 },
        }
    }
}

/// A call of `function`, with the opening parenthesis of the argument list at
/// position `i`.
pub open spec fn call(s: Seq<TokenView>, i: int, function: NodeView) -> Parsed<NodeView>
    decreases remaining(s, i), 11int,
{
    match arguments(s, i) {
        Parsed::Done { value, used } => Parsed::Done {
            value: NodeView::Call {
                token: tok(s, i),
                function: Box::new(function),
                arguments: value,
            },
            used,
        },
        Parsed::Failed { message, used } => Parsed::Failed { message, used },
    }
}

/// What parsing a whole input gives: the top-level statements read before the
/// input ended or a statement failed, the diagnostic of that failure, and how
/// many tokens the parser moved forward.
pub ghost struct Outline {
    pub statements: Seq<NodeView>,
    pub failure: Option<Seq<char>>,
    pub used: nat,
}

impl Outline {
    /// The same outcome after `n` more tokens.
    pub open spec fn later(self, n: nat) -> Outline {
        Outline { used: self.used + n, ..self }
    }
}

/// The top-level statements from position `i` on, after `done`. Semicolons
/// between statements are skipped; the first statement that fails ends the
/// parse.
pub open spec fn program(s: Seq<TokenView>, i: int, done: Seq<NodeView>) -> Outline
    decreases remaining(s, i),
{
    let kind = kind_at(s, i);
    if kind == TokenType::EOF {
        Outline { statements: done, failure: None, used: 0 }
    } else if kind == TokenType::SEMICOLON {
        program(s, i + 1, done).later(1)
    } else {
        match statement(s, i) {
            Parsed::Done { value, used } => program(s, i + used + 1, done.push(value)).later(
                used + 1,
            ),
            Parsed::Failed { message, used } => Outline {
                statements: done,
                failure: Some(message),
                used,
            },
        }
    }
}

/// Whether `kind` is one of the eight binary operators.
pub open spec fn is_binary(kind: TokenType) -> bool {
    kind == TokenType::PLUS || kind == TokenType::MINUS || kind == TokenType::SLASH || kind
        == TokenType::ASTERISK || kind == TokenType::EQ || kind == TokenType::NEQ || kind
        == TokenType::LT || kind == TokenType::GT
}

/// The infix node for the operator token `operator` between `left` and
/// `right`.
pub open spec fn infix_node(left: NodeView, operator: TokenView, right: NodeView) -> NodeView {
    NodeView::Infix {
        token: operator,
        left: Box::new(left),
        operator: operator.text(),
        right: Box::new(right),
    }
}

/// The identifier node for the token `name`.
pub open spec fn identifier_node(name: TokenView) -> NodeView {
    NodeView::Identifier { token: name, value: name.text() }
}

/// A lone identifier is an expression of its own at any strength, when what
/// follows does not continue it.
proof fn lemma_lone_identifier(s: Seq<TokenView>, i: int, floor: Precedence)
    requires
        kind_at(s, i) == TokenType::IDENT,
        !continues(s, i, floor),
    ensures
        expression(s, i, floor) == (Parsed::Done { value: identifier_at(s, i), used: 0 }),
{
    assert(prefix(s, i) == (Parsed::Done { value: identifier_at(s, i), used: 0 }));
    assert(operators(s, i, identifier_at(s, i), floor) == (Parsed::Done {
        value: identifier_at(s, i),
        used: 0,
    }));
}

/// The tree of `a first b second c`: the operand `b` goes to `second` when
/// `second` binds more strongly than `first`, and to `first` otherwise, so
/// that operators of equal strength group to the left.
pub open spec fn grouping(
    a: TokenView,
    first: TokenView,
    b: TokenView,
    second: TokenView,
    c: TokenView,
) -> NodeView {
    if precedence_of(first.token_type).rank() < precedence_of(second.token_type).rank() {
        infix_node(
            identifier_node(a),
            first,
            infix_node(identifier_node(b), second, identifier_node(c)),
        )
    } else {
        infix_node(
            infix_node(identifier_node(a), first, identifier_node(b)),
            second,
            identifier_node(c),
        )
    }
}

/// Precedence decides how operators group. Where the tokens are
/// `a first b second c` and then a semicolon or nothing, with names for `a`,
/// `b` and `c` and
/// binary operators for `first` and `second`, the parser builds the tree that
/// `grouping` describes.
pub proof fn precedence_decides_grouping(
    s: Seq<TokenView>,
    a: TokenView,
    first: TokenView,
    b: TokenView,
    second: TokenView,
    c: TokenView,
)
    requires
        tok(s, 0) == a,
        tok(s, 1) == first,
        tok(s, 2) == b,
        tok(s, 3) == second,
        tok(s, 4) == c,
        kind_at(s, 5) == TokenType::EOF || kind_at(s, 5) == TokenType::SEMICOLON,
        a.token_type == TokenType::IDENT,
        b.token_type == TokenType::IDENT,
        c.token_type == TokenType::IDENT,
        is_binary(first.token_type),
        is_binary(second.token_type),
    ensures
        expression(s, 0, Precedence::LOWEST) == (Parsed::Done {
            value: grouping(a, first, b, second, c),
            used: 4,
        }),
{
    let low = Precedence::LOWEST;
    let left_strength = precedence_of(first.token_type);
    let right_strength = precedence_of(second.token_type);
    let na = identifier_node(a);
    let nb = identifier_node(b);
    let nc = identifier_node(c);
    assert(tok(s, 0) == a && tok(s, 1) == first && tok(s, 2) == b && tok(s, 3) == second && tok(
        s,
        4,
    ) == c);
    assert(identifier_at(s, 0) == na && identifier_at(s, 2) == nb && identifier_at(s, 4) == nc);
    assert(prefix(s, 0) == (Parsed::Done { value: na, used: 0 }));
    assert(continues(s, 0, low));
    assert(!continues(s, 4, low) && !continues(s, 4, left_strength) && !continues(s, 4, right_strength));
    lemma_lone_identifier(s, 4, right_strength);
    assert(infix(s, 3, nb) == (Parsed::Done { value: infix_node(nb, second, nc), used: 1 }));
    if left_strength.rank() < right_strength.rank() {
        assert(continues(s, 2, left_strength));
        let inner = infix_node(nb, second, nc);
        assert(operators(s, 4, inner, left_strength) == (Parsed::Done { value: inner, used: 0 }));
        assert(operators(s, 2, nb, left_strength) == (Parsed::Done { value: inner, used: 2 }));
        assert(prefix(s, 2) == (Parsed::Done { value: nb, used: 0 }));
        assert(expression(s, 2, left_strength) == (Parsed::Done { value: inner, used: 2 }));
        let whole = infix_node(na, first, inner);
        assert(infix(s, 1, na) == (Parsed::Done { value: whole, used: 3 }));
        assert(operators(s, 4, whole, low) == (Parsed::Done { value: whole, used: 0 }));
        assert(operators(s, 0, na, low) == (Parsed::Done { value: whole, used: 4 }));
    } else {
        assert(!continues(s, 2, left_strength));
        lemma_lone_identifier(s, 2, left_strength);
        let inner = infix_node(na, first, nb);
        assert(infix(s, 1, na) == (Parsed::Done { value: inner, used: 1 }));
        assert(continues(s, 2, low));
        let whole = infix_node(inner, second, nc);
        assert(infix(s, 3, inner) == (Parsed::Done { value: whole, used: 1 }));
        assert(operators(s, 4, whole, low) == (Parsed::Done { value: whole, used: 0 }));
        assert(operators(s, 2, inner, low) == (Parsed::Done { value: whole, used: 2 }));
        assert(operators(s, 0, na, low) == (Parsed::Done { value: whole, used: 4 }));
    }
}

/// The token of the name `name`.
pub open spec fn name_token(name: Seq<char>) -> TokenView {
    token(TokenType::IDENT, name)
}

/// `a + b * c` prints as `(a + (b * c))`, whatever the names.
pub proof fn sum_with_product_prints(a: Seq<char>, b: Seq<char>, c: Seq<char>)
    ensures
        ({
            let s = seq![
                name_token(a),
                token(TokenType::PLUS, "+"@),
                name_token(b),
                token(TokenType::ASTERISK, "*"@),
                name_token(c),
            ];
            let parsed = expression(s, 0, Precedence::LOWEST);
            parsed is Done && print(parsed->Done_value) == "("@ + a + " + ("@ + b + " * "@ + c
                + "))"@
        }),
{
    precedence_decides_grouping(
        seq![name_token(a), token(TokenType::PLUS, "+"@), name_token(b), token(TokenType::ASTERISK, "*"@), name_token(c)],
        name_token(a),
        token(TokenType::PLUS, "+"@),
        name_token(b),
        token(TokenType::ASTERISK, "*"@),
        name_token(c),
    );
    reveal_with_fuel(print, 3);
    reveal_strlit("(");
    reveal_strlit(")");
    reveal_strlit(" ");
    reveal_strlit("+");
    reveal_strlit("*");
    reveal_strlit(" + (");
    reveal_strlit(" * ");
    reveal_strlit("))");
    let inner = "("@ + b + " "@ + "*"@ + " "@ + c + ")"@;
    assert("("@ + a + " "@ + "+"@ + " "@ + inner + ")"@ =~= "("@ + a + " + ("@ + b + " * "@ + c
        + "))"@);
}

/// `a * b + c` prints as `((a * b) + c)`, whatever the names.
pub proof fn product_with_sum_prints(a: Seq<char>, b: Seq<char>, c: Seq<char>)
    ensures
        ({
            let s = seq![
                name_token(a),
                token(TokenType::ASTERISK, "*"@),
                name_token(b),
                token(TokenType::PLUS, "+"@),
                name_token(c),
            ];
            let parsed = expression(s, 0, Precedence::LOWEST);
            parsed is Done && print(parsed->Done_value) == "(("@ + a + " * "@ + b + ") + "@ + c
                + ")"@
        }),
{
    precedence_decides_grouping(
        seq![name_token(a), token(TokenType::ASTERISK, "*"@), name_token(b), token(TokenType::PLUS, "+"@), name_token(c)],
        name_token(a),
        token(TokenType::ASTERISK, "*"@),
        name_token(b),
        token(TokenType::PLUS, "+"@),
        name_token(c),
    );
    reveal_with_fuel(print, 3);
    reveal_strlit("(");
    reveal_strlit(")");
    reveal_strlit(" ");
    reveal_strlit("+");
    reveal_strlit("*");
    reveal_strlit("((");
    reveal_strlit(" * ");
    reveal_strlit(") + ");
    let inner = "("@ + a + " "@ + "*"@ + " "@ + b + ")"@;
    assert("("@ + inner + " "@ + "+"@ + " "@ + c + ")"@ =~= "(("@ + a + " * "@ + b + ") + "@ + c
        + ")"@);
}

/// `a == b < c` prints as `(a == (b < c))`, whatever the names.
pub proof fn equality_with_comparison_prints(a: Seq<char>, b: Seq<char>, c: Seq<char>)
    ensures
        ({
            let s = seq![
                name_token(a),
                token(TokenType::EQ, "=="@),
                name_token(b),
                token(TokenType::LT, "<"@),
                name_token(c),
            ];
            let parsed = expression(s, 0, Precedence::LOWEST);
            parsed is Done && print(parsed->Done_value) == "("@ + a + " == ("@ + b + " < "@ + c
                + "))"@
        }),
{
    precedence_decides_grouping(
        seq![name_token(a), token(TokenType::EQ, "=="@), name_token(b), token(TokenType::LT, "<"@), name_token(c)],
        name_token(a),
        token(TokenType::EQ, "=="@),
        name_token(b),
        token(TokenType::LT, "<"@),
        name_token(c),
    );
    reveal_with_fuel(print, 3);
    reveal_strlit("(");
    reveal_strlit(")");
    reveal_strlit(" ");
    reveal_strlit("==");
    reveal_strlit("<");
    reveal_strlit(" == (");
    reveal_strlit(" < ");
    reveal_strlit("))");
    let inner = "("@ + b + " "@ + "<"@ + " "@ + c + ")"@;
    assert("("@ + a + " "@ + "=="@ + " "@ + inner + ")"@ =~= "("@ + a + " == ("@ + b + " < "@ + c
        + "))"@);
}

} // verus!
