//! The shape of what the parser builds, whatever the source: every `let`
//! names an identifier, every operator node holds one of the language's
//! operators, every body is a block of statements.
use crate::grammar::{
    alternative, arguments, arguments_rest, block, block_rest, branches, call, conditional,
    continues, expression, expression_statement, function, grouped, infix, is_binary, kind_at,
    let_statement, operators, parameters, parameters_rest, precedence_of, prefix, prefix_operator,
    program, remaining, return_statement, statement, tok, Parsed, Precedence,
};
use crate::lexer::{
    all_tokens, in_word, lemma_scan_advances, lemma_word_end, scan, skip_blanks, symbol_at,
    word_end,
};
use crate::rendering::{infix_kind, prefix_kind};
use crate::spelling::{is_word, spelled_name};
use crate::statements::NodeView;
use crate::token::{TokenType, TokenView};
use vstd::prelude::*;

verus! {

/// The text of an operator token and of the keywords `let` and `return`,
/// whose kinds have one text only. Nothing for a token of another kind.
pub open spec fn fixed_text(kind: TokenType) -> Option<Seq<char>> {
    match kind {
        TokenType::PLUS => Some("+"@),
        TokenType::MINUS => Some("-"@),
        TokenType::ASTERISK => Some("*"@),
        TokenType::SLASH => Some("/"@),
        TokenType::LT => Some("<"@),
        TokenType::GT => Some(">"@),
        TokenType::EQ => Some("=="@),
        TokenType::NEQ => Some("!="@),
        TokenType::BANG => Some("!"@),
        TokenType::LET => Some("let"@),
        TokenType::RETURN => Some("return"@),
        _ => None,
    }
}

/// Whether a token is as the lexer makes it: a token of a kind with one text
/// carries that text, and an identifier carries a word that is no keyword.
pub open spec fn proper(t: TokenView) -> bool {
    &&& match fixed_text(t.token_type) {
        Some(text) => t.literal == Some(text),
        None => true,
    }
    &&& t.token_type == TokenType::IDENT ==> t.literal.is_some() && spelled_name(t.text())
}

/// Whether every token of `s` is as the lexer makes it.
pub open spec fn all_proper(s: Seq<TokenView>) -> bool {
    forall|i: int| 0 <= i < s.len() ==> proper(#[trigger] s[i])
}

/// Whether `node` is a name as the parser builds it: under an identifier
/// token, with the token's word, which is no keyword, as its name.
pub open spec fn shaped_name(node: NodeView) -> bool {
    match node {
        NodeView::Identifier { token, value } => token.token_type == TokenType::IDENT
            && token.literal == Some(value) && spelled_name(value),
        _ => false,
    }
}

/// Whether `node` is an expression as the parser builds it: a name is under
/// its identifier token; an integer is not negative; a prefix node holds `!`
/// or `-`, an infix node one of the eight binary operators, each under the
/// token of its kind; the branches of an `if` and the body of a function are
/// blocks; the parameters of a function are names.
pub open spec fn shaped_expression(node: NodeView) -> bool
    decreases node, 0int,
{
    match node {
        NodeView::Identifier { .. } => shaped_name(node),
        NodeView::Integer { value, .. } => value >= 0,
        NodeView::Boolean { .. } => true,
        NodeView::Prefix { token, operator, right } => prefix_kind(operator) == Some(
            token.token_type,
        ) && shaped_expression(*right),
        NodeView::Infix { token, left, operator, right } => infix_kind(operator) == Some(
            token.token_type,
        ) && shaped_expression(*left) && shaped_expression(*right),
        NodeView::If { condition, consequence, alternative, .. } => shaped_expression(*condition)
            && shaped_block(*consequence) && match alternative {
            Some(other) => shaped_block(*other),
            None => true,
        },
        NodeView::Function { parameters, body, .. } => (forall|i: int|
            0 <= i < parameters.len() ==> shaped_name(#[trigger] parameters[i])) && shaped_block(
            *body,
        ),
        NodeView::Call { function, arguments, .. } => shaped_expression(*function) && forall|
            i: int,
        | 0 <= i < arguments.len() ==> shaped_expression(#[trigger] arguments[i]),
        _ => false,
    }
}

/// Whether `node` is a block of statements as the parser builds them.
pub open spec fn shaped_block(node: NodeView) -> bool
    decreases node, 1int,
{
    match node {
        NodeView::Block { statements, .. } => forall|i: int|
            0 <= i < statements.len() ==> shaped_statement(#[trigger] statements[i]),
        _ => false,
    }
}

/// Whether `node` is a statement as the parser builds it: a `let` of a name
/// under the token `let`, a `return` under the token `return`, or an
/// expression statement.
pub open spec fn shaped_statement(node: NodeView) -> bool
    decreases node, 0int,
{
    match node {
        NodeView::Let { token, name, value } => token.text() == "let"@ && shaped_name(*name)
            && shaped_expression(*value),
        NodeView::Return { token, value } => token.text() == "return"@ && shaped_expression(
            *value,
        ),
        NodeView::Expression { expression, .. } => shaped_expression(*expression),
        _ => false,
    }
}

/// Whether every node of `nodes` is a statement as the parser builds it.
pub open spec fn shaped_statements(nodes: Seq<NodeView>) -> bool {
    forall|i: int| 0 <= i < nodes.len() ==> shaped_statement(#[trigger] nodes[i])
}

/// Whether every node of `nodes` is an expression as the parser builds it.
pub open spec fn shaped_expressions(nodes: Seq<NodeView>) -> bool {
    forall|i: int| 0 <= i < nodes.len() ==> shaped_expression(#[trigger] nodes[i])
}

/// The operators, as `prefix_kind` and `infix_kind` know them.
proof fn lemma_operator_texts()
    ensures
        infix_kind("+"@) == Some(TokenType::PLUS),
        infix_kind("-"@) == Some(TokenType::MINUS),
        infix_kind("*"@) == Some(TokenType::ASTERISK),
        infix_kind("/"@) == Some(TokenType::SLASH),
        infix_kind("<"@) == Some(TokenType::LT),
        infix_kind(">"@) == Some(TokenType::GT),
        infix_kind("=="@) == Some(TokenType::EQ),
        infix_kind("!="@) == Some(TokenType::NEQ),
        prefix_kind("!"@) == Some(TokenType::BANG),
        prefix_kind("-"@) == Some(TokenType::MINUS),
{
    reveal_strlit("+");
    reveal_strlit("-");
    reveal_strlit("*");
    reveal_strlit("/");
    reveal_strlit("<");
    reveal_strlit(">");
    reveal_strlit("==");
    reveal_strlit("!=");
    reveal_strlit("!");
    let plus = "+"@[0];
    let minus = "-"@[0];
    let times = "*"@[0];
    let over = "/"@[0];
    let less = "<"@[0];
    let more = ">"@[0];
    let same = "=="@[0];
    let other = "!="@[0];
    let not = "!"@[0];
    assert("=="@.len() == 2 && "!="@.len() == 2 && "+"@.len() == 1 && "!"@.len() == 1);
}

/// A token of a proper sequence is proper, wherever it is taken from.
proof fn lemma_proper_at(s: Seq<TokenView>, i: int)
    requires
        all_proper(s),
    ensures
        proper(tok(s, i)),
{
    if 0 <= i < s.len() {
        assert(proper(s[i]));
    }
}

/// What binds more strongly than something and opens no call is a binary
/// operator.
proof fn lemma_continues_with_operator(s: Seq<TokenView>, i: int, floor: Precedence)
    requires
        continues(s, i, floor),
        kind_at(s, i + 1) != TokenType::LPAREN,
    ensures
        is_binary(kind_at(s, i + 1)),
{
}

/// A binary operator token of a proper sequence makes a shaped infix node
/// of shaped operands.
proof fn lemma_infix_token(t: TokenView)
    requires
        proper(t),
        is_binary(t.token_type),
    ensures
        infix_kind(t.text()) == Some(t.token_type),
{
    lemma_operator_texts();
}

/// A prefix operator token of a proper sequence carries its own text.
proof fn lemma_prefix_token(t: TokenView)
    requires
        proper(t),
        t.token_type == TokenType::BANG || t.token_type == TokenType::MINUS,
    ensures
        prefix_kind(t.text()) == Some(t.token_type),
{
    lemma_operator_texts();
}

/// What the parser builds as a statement is shaped.
proof fn lemma_shape_statement(s: Seq<TokenView>, i: int)
    requires
        all_proper(s),
    ensures
        statement(s, i) is Done ==> shaped_statement(statement(s, i)->Done_value),
    decreases remaining(s, i), 10int,
{
    match kind_at(s, i) {
        TokenType::LET => {
            lemma_shape_let(s, i);
        },
        TokenType::RETURN => {
            lemma_shape_return(s, i);
        },
        _ => {
            lemma_shape_expression_statement(s, i);
        },
    }
}

/// What the parser builds as a `let` is shaped.
proof fn lemma_shape_let(s: Seq<TokenView>, i: int)
    requires
        all_proper(s),
        kind_at(s, i) == TokenType::LET,
    ensures
        let_statement(s, i) is Done ==> shaped_statement(let_statement(s, i)->Done_value),
    decreases remaining(s, i), 9int,
{
    if kind_at(s, i + 1) == TokenType::IDENT && kind_at(s, i + 2) == TokenType::ASSIGN {
        lemma_shape_expression(s, i + 3, Precedence::LOWEST);
        lemma_proper_at(s, i);
        lemma_proper_at(s, i + 1);
    }
}

/// What the parser builds as a `return` is shaped.
proof fn lemma_shape_return(s: Seq<TokenView>, i: int)
    requires
        all_proper(s),
        kind_at(s, i) == TokenType::RETURN,
    ensures
        return_statement(s, i) is Done ==> shaped_statement(return_statement(s, i)->Done_value),
    decreases remaining(s, i), 9int,
{
    lemma_shape_expression(s, i + 1, Precedence::LOWEST);
    lemma_proper_at(s, i);
}

/// What the parser builds as an expression statement is shaped.
proof fn lemma_shape_expression_statement(s: Seq<TokenView>, i: int)
    requires
        all_proper(s),
    ensures
        expression_statement(s, i) is Done ==> shaped_statement(
            expression_statement(s, i)->Done_value,
        ),
    decreases remaining(s, i), 9int,
{
    lemma_shape_expression(s, i, Precedence::LOWEST);
}

/// What the parser adds to shaped statements of a block is shaped.
proof fn lemma_shape_block_rest(s: Seq<TokenView>, i: int, done: Seq<NodeView>)
    requires
        all_proper(s),
        shaped_statements(done),
    ensures
        block_rest(s, i, done) is Done ==> shaped_statements(block_rest(s, i, done)->Done_value),
    decreases remaining(s, i), 11int,
{
    let kind = kind_at(s, i);
    if kind == TokenType::RBRACE || kind == TokenType::EOF {
    } else if kind == TokenType::SEMICOLON {
        lemma_shape_block_rest(s, i + 1, done);
    } else {
        lemma_shape_statement(s, i);
        match statement(s, i) {
            Parsed::Done { value, used } => {
                lemma_shaped_push(done, value);
                lemma_shape_block_rest(s, i + used + 1, done.push(value));
            },
            Parsed::Failed { .. } => {},
        }
    }
}

/// Shaped statements with one more shaped statement are shaped.
proof fn lemma_shaped_push(done: Seq<NodeView>, node: NodeView)
    requires
        shaped_statements(done),
        shaped_statement(node),
    ensures
        shaped_statements(done.push(node)),
{
    assert forall|k: int| 0 <= k < done.push(node).len() implies shaped_statement(
        #[trigger] done.push(node)[k],
    ) by {
        if k < done.len() {
            assert(done.push(node)[k] == done[k]);
        }
    }
}

/// Shaped expressions with one more shaped expression are shaped.
proof fn lemma_shaped_expressions_push(done: Seq<NodeView>, node: NodeView)
    requires
        shaped_expressions(done),
        shaped_expression(node),
    ensures
        shaped_expressions(done.push(node)),
{
    assert forall|k: int| 0 <= k < done.push(node).len() implies shaped_expression(
        #[trigger] done.push(node)[k],
    ) by {
        if k < done.len() {
            assert(done.push(node)[k] == done[k]);
        }
    }
}

/// What the parser builds as a block is shaped.
proof fn lemma_shape_block(s: Seq<TokenView>, i: int)
    requires
        all_proper(s),
    ensures
        block(s, i) is Done ==> shaped_block(block(s, i)->Done_value),
    decreases remaining(s, i), 12int,
{
    lemma_shape_block_rest(s, i + 1, Seq::empty());
}

/// What the parser builds as an expression is shaped.
proof fn lemma_shape_expression(s: Seq<TokenView>, i: int, floor: Precedence)
    requires
        all_proper(s),
    ensures
        expression(s, i, floor) is Done ==> shaped_expression(expression(s, i, floor)->Done_value),
    decreases remaining(s, i), 8int,
{
    lemma_shape_prefix(s, i);
    match prefix(s, i) {
        Parsed::Done { value, used } => {
            lemma_shape_operators(s, i + used, value, floor);
        },
        Parsed::Failed { .. } => {},
    }
}

/// What the parser builds as an operand is shaped.
proof fn lemma_shape_prefix(s: Seq<TokenView>, i: int)
    requires
        all_proper(s),
    ensures
        prefix(s, i) is Done ==> shaped_expression(prefix(s, i)->Done_value),
    decreases remaining(s, i), 7int,
{
    match kind_at(s, i) {
        TokenType::BANG => {
            lemma_shape_prefix_operator(s, i);
        },
        TokenType::MINUS => {
            lemma_shape_prefix_operator(s, i);
        },
        TokenType::LPAREN => {
            lemma_shape_grouped(s, i);
        },
        TokenType::IF => {
            lemma_shape_conditional(s, i);
        },
        TokenType::FUNCTION => {
            lemma_shape_function(s, i);
        },
        _ => {
            lemma_proper_at(s, i);
        },
    }
}

/// What the parser builds of a prefix operator and its operand is
/// shaped.
proof fn lemma_shape_prefix_operator(s: Seq<TokenView>, i: int)
    requires
        all_proper(s),
        kind_at(s, i) == TokenType::BANG || kind_at(s, i) == TokenType::MINUS,
    ensures
        prefix_operator(s, i) is Done ==> shaped_expression(prefix_operator(s, i)->Done_value),
    decreases remaining(s, i), 6int,
{
    if 0 <= i < s.len() {
        lemma_shape_expression(s, i + 1, Precedence::PREFIX);
        lemma_proper_at(s, i);
        lemma_prefix_token(tok(s, i));
    }
}

/// What the parser builds between parentheses is shaped.
proof fn lemma_shape_grouped(s: Seq<TokenView>, i: int)
    requires
        all_proper(s),
    ensures
        grouped(s, i) is Done ==> shaped_expression(grouped(s, i)->Done_value),
    decreases remaining(s, i), 6int,
{
    if 0 <= i < s.len() {
        lemma_shape_expression(s, i + 1, Precedence::LOWEST);
    }
}

/// What the parser builds as the alternative of an `if` is shaped.
proof fn lemma_shape_alternative(s: Seq<TokenView>, i: int)
    requires
        all_proper(s),
    ensures
        alternative(s, i) is Done ==> match alternative(s, i)->Done_value {
            Some(node) => shaped_block(node),
            None => true,
        },
    decreases remaining(s, i), 13int,
{
    if kind_at(s, i + 1) == TokenType::ELSE && kind_at(s, i + 2) == TokenType::LBRACE {
        lemma_shape_block(s, i + 2);
    }
}

/// What the parser builds of a shaped condition and the branches after
/// it is shaped.
proof fn lemma_shape_branches(s: Seq<TokenView>, i: int, token: TokenView, condition: NodeView)
    requires
        all_proper(s),
        shaped_expression(condition),
    ensures
        branches(s, i, token, condition) is Done ==> shaped_expression(
            branches(s, i, token, condition)->Done_value,
        ),
    decreases remaining(s, i), 14int,
{
    if kind_at(s, i + 1) == TokenType::RPAREN && kind_at(s, i + 2) == TokenType::LBRACE {
        lemma_shape_block(s, i + 2);
        match block(s, i + 2) {
            Parsed::Done { value, used } => {
                lemma_shape_alternative(s, i + 2 + used);
            },
            Parsed::Failed { .. } => {},
        }
    }
}

/// What the parser builds as an `if` is shaped.
proof fn lemma_shape_conditional(s: Seq<TokenView>, i: int)
    requires
        all_proper(s),
    ensures
        conditional(s, i) is Done ==> shaped_expression(conditional(s, i)->Done_value),
    decreases remaining(s, i), 6int,
{
    if kind_at(s, i + 1) == TokenType::LPAREN {
        lemma_shape_expression(s, i + 2, Precedence::LOWEST);
        match expression(s, i + 2, Precedence::LOWEST) {
            Parsed::Done { value, used } => {
                lemma_shape_branches(s, i + 2 + used, tok(s, i), value);
            },
            Parsed::Failed { .. } => {},
        }
    }
}

/// Whether every node of `nodes` is a name as the parser builds it.
pub open spec fn all_identifiers(nodes: Seq<NodeView>) -> bool {
    forall|i: int| 0 <= i < nodes.len() ==> shaped_name(#[trigger] nodes[i])
}

/// What the parser adds to the names of a parameter list are names.
proof fn lemma_shape_parameters_rest(s: Seq<TokenView>, i: int, done: Seq<NodeView>)
    requires
        all_proper(s),
        all_identifiers(done),
    ensures
        parameters_rest(s, i, done) is Done ==> all_identifiers(
            parameters_rest(s, i, done)->Done_value,
        ),
    decreases remaining(s, i),
{
    if kind_at(s, i + 1) == TokenType::COMMA && kind_at(s, i + 2) == TokenType::IDENT {
        let next = crate::grammar::identifier_at(s, i + 2);
        lemma_proper_at(s, i + 2);
        assert forall|k: int| 0 <= k < done.push(next).len() implies shaped_name(
            #[trigger] done.push(next)[k],
        ) by {
            if k < done.len() {
                assert(done.push(next)[k] == done[k]);
            }
        }
        lemma_shape_parameters_rest(s, i + 2, done.push(next));
    }
}

/// What the parser builds as a parameter list are names.
proof fn lemma_shape_parameters(s: Seq<TokenView>, i: int)
    requires
        all_proper(s),
    ensures
        parameters(s, i) is Done ==> all_identifiers(parameters(s, i)->Done_value),
{
    if kind_at(s, i + 1) != TokenType::RPAREN && kind_at(s, i + 1) == TokenType::IDENT {
        let first = crate::grammar::identifier_at(s, i + 1);
        lemma_proper_at(s, i + 1);
        assert(shaped_name(seq![first][0]));
        lemma_shape_parameters_rest(s, i + 1, seq![first]);
    }
}

/// What the parser builds as a function literal is shaped.
proof fn lemma_shape_function(s: Seq<TokenView>, i: int)
    requires
        all_proper(s),
    ensures
        function(s, i) is Done ==> shaped_expression(function(s, i)->Done_value),
    decreases remaining(s, i), 6int,
{
    if kind_at(s, i + 1) == TokenType::LPAREN {
        lemma_shape_parameters(s, i + 1);
        match parameters(s, i + 1) {
            Parsed::Done { value, used } => {
                if kind_at(s, i + used + 2) == TokenType::LBRACE {
                    lemma_shape_block(s, i + used + 2);
                }
            },
            Parsed::Failed { .. } => {},
        }
    }
}

/// What a shaped expression grows into is shaped.
proof fn lemma_shape_operators(s: Seq<TokenView>, i: int, left: NodeView, floor: Precedence)
    requires
        all_proper(s),
        shaped_expression(left),
    ensures
        operators(s, i, left, floor) is Done ==> shaped_expression(
            operators(s, i, left, floor)->Done_value,
        ),
    decreases remaining(s, i), 5int,
{
    if continues(s, i, floor) {
        if kind_at(s, i + 1) == TokenType::LPAREN {
            lemma_shape_call(s, i + 1, left);
            match call(s, i + 1, left) {
                Parsed::Done { value, used } => {
                    lemma_shape_operators(s, i + 1 + used, value, floor);
                },
                Parsed::Failed { .. } => {},
            }
        } else {
            lemma_continues_with_operator(s, i, floor);
            lemma_shape_infix(s, i + 1, left);
            match infix(s, i + 1, left) {
                Parsed::Done { value, used } => {
                    lemma_shape_operators(s, i + 1 + used, value, floor);
                },
                Parsed::Failed { .. } => {},
            }
        }
    }
}

/// What the parser builds of a shaped left operand and a binary operator
/// is shaped.
proof fn lemma_shape_infix(s: Seq<TokenView>, i: int, left: NodeView)
    requires
        all_proper(s),
        shaped_expression(left),
        is_binary(kind_at(s, i)),
    ensures
        infix(s, i, left) is Done ==> shaped_expression(infix(s, i, left)->Done_value),
    decreases remaining(s, i), 9int,
{
    lemma_shape_expression(s, i + 1, precedence_of(kind_at(s, i)));
    lemma_proper_at(s, i);
    lemma_infix_token(tok(s, i));
}

/// What the parser adds to the shaped arguments of a call is shaped.
proof fn lemma_shape_arguments_rest(s: Seq<TokenView>, i: int, done: Seq<NodeView>)
    requires
        all_proper(s),
        shaped_expressions(done),
    ensures
        arguments_rest(s, i, done) is Done ==> shaped_expressions(
            arguments_rest(s, i, done)->Done_value,
        ),
    decreases remaining(s, i), 5int,
{
    if kind_at(s, i + 1) == TokenType::COMMA {
        lemma_shape_expression(s, i + 2, Precedence::LOWEST);
        match expression(s, i + 2, Precedence::LOWEST) {
            Parsed::Done { value, used } => {
                lemma_shaped_expressions_push(done, value);
                lemma_shape_arguments_rest(s, i + 2 + used, done.push(value));
            },
            Parsed::Failed { .. } => {},
        }
    }
}

/// What the parser builds as the arguments of a call is shaped.
proof fn lemma_shape_arguments(s: Seq<TokenView>, i: int)
    requires
        all_proper(s),
    ensures
        arguments(s, i) is Done ==> shaped_expressions(arguments(s, i)->Done_value),
    decreases remaining(s, i), 10int,
{
    if kind_at(s, i + 1) != TokenType::RPAREN {
        lemma_shape_expression(s, i + 1, Precedence::LOWEST);
        match expression(s, i + 1, Precedence::LOWEST) {
            Parsed::Done { value, used } => {
                assert(seq![value][0] == value);
                lemma_shape_arguments_rest(s, i + 1 + used, seq![value]);
            },
            Parsed::Failed { .. } => {},
        }
    }
}

/// What the parser builds as a call of a shaped function is shaped.
proof fn lemma_shape_call(s: Seq<TokenView>, i: int, function: NodeView)
    requires
        all_proper(s),
        shaped_expression(function),
    ensures
        call(s, i, function) is Done ==> shaped_expression(call(s, i, function)->Done_value),
    decreases remaining(s, i), 11int,
{
    lemma_shape_arguments(s, i);
}

/// What the parser adds to shaped top-level statements is shaped.
proof fn lemma_shape_program(s: Seq<TokenView>, i: int, done: Seq<NodeView>)
    requires
        all_proper(s),
        shaped_statements(done),
    ensures
        shaped_statements(program(s, i, done).statements),
    decreases remaining(s, i),
{
    let kind = kind_at(s, i);
    if kind == TokenType::EOF {
    } else if kind == TokenType::SEMICOLON {
        lemma_shape_program(s, i + 1, done);
    } else {
        lemma_shape_statement(s, i);
        match statement(s, i) {
            Parsed::Done { value, used } => {
                lemma_shaped_push(done, value);
                lemma_shape_program(s, i + used + 1, done.push(value));
            },
            Parsed::Failed { .. } => {},
        }
    }
}

/// The token that the lexer makes is as `proper` says.
proof fn lemma_scanned_token_proper(input: Seq<char>, pos: int)
    requires
        0 <= pos <= input.len(),
    ensures
        proper(scan(input, pos).0),
{
    reveal_strlit("+");
    reveal_strlit("-");
    reveal_strlit("*");
    reveal_strlit("/");
    reveal_strlit("<");
    reveal_strlit(">");
    reveal_strlit("==");
    reveal_strlit("!=");
    reveal_strlit("!");
    let p = skip_blanks(input, pos);
    if 0 <= p < input.len() {
        match symbol_at(input, p) {
            Some(found) => {
                assert(seq!['=', '='] =~= "=="@);
                assert(seq!['!', '='] =~= "!="@);
                assert(seq!['!'] =~= "!"@);
                assert(seq!['+'] =~= "+"@);
                assert(seq!['-'] =~= "-"@);
                assert(seq!['*'] =~= "*"@);
                assert(seq!['/'] =~= "/"@);
                assert(seq!['<'] =~= "<"@);
                assert(seq!['>'] =~= ">"@);
            },
            None => {
                if in_word(input[p]) {
                    lemma_word_end(input, p);
                    let end = word_end(input, p);
                    let word = input.subrange(p, end);
                    assert forall|k: int| 0 <= k < word.len() implies in_word(
                        #[trigger] word[k],
                    ) by {
                        assert(word[k] == input[p + k]);
                    }
                    assert(is_word(word));
                }
            },
        }
    }
}

/// Every token that the lexer hands out is as `proper` says.
pub proof fn lemma_tokens_proper(input: Seq<char>, pos: int)
    requires
        0 <= pos <= input.len(),
    ensures
        all_proper(all_tokens(input, pos)),
    decreases input.len() - pos,
{
    let (t, next) = scan(input, pos);
    lemma_scanned_token_proper(input, pos);
    lemma_scan_advances(input, pos);
    let tokens = all_tokens(input, pos);
    if t.token_type != TokenType::EOF {
        lemma_tokens_proper(input, next);
        let rest = all_tokens(input, next);
        assert(tokens == seq![t] + rest);
        assert forall|i: int| 0 <= i < tokens.len() implies proper(#[trigger] tokens[i]) by {
            if i > 0 {
                assert(tokens[i] == rest[i - 1]);
            }
        }
    } else {
        assert(tokens =~= seq![t]);
    }
}

/// Whatever the source text, what the parser builds from it is shaped as
/// the language asks: every `let` binds a name, every prefix and infix node
/// holds one of the language's operators under the token of that operator,
/// the branches of every `if` and the body of every function are blocks of
/// statements, the parameters of every function are names, every name is a
/// word that is no keyword, and no integer literal is negative.
pub proof fn parsed_statements_are_shaped(input: Seq<char>)
    ensures
        shaped_statements(program(all_tokens(input, 0), 0, Seq::empty()).statements),
{
    lemma_tokens_proper(input, 0);
    lemma_shape_program(all_tokens(input, 0), 0, Seq::empty());
}

/// The same of a single expression: where the parser builds an expression
/// from a source text, the expression is shaped as the language asks.
pub proof fn parsed_expression_is_shaped(input: Seq<char>, floor: Precedence)
    ensures
        expression(all_tokens(input, 0), 0, floor) is Done ==> shaped_expression(
            expression(all_tokens(input, 0), 0, floor)->Done_value,
        ),
{
    lemma_tokens_proper(input, 0);
    lemma_shape_expression(all_tokens(input, 0), 0, floor);
}

} // verus!
