//! Printing is a fixed point of parsing: what the parser builds from a
//! source text, printed and parsed again, is the same tree in canonical form,
//! and prints as before.
use crate::grammar::{program};
use crate::lexer::all_tokens;
use crate::rendering::{
    fn_word, infix_kind, left_brace, left_paren, let_word, operator_sign, plain_expression,
    plain_name, plain_statement, prefix_kind, render, return_word, truth_word,
};
use crate::shape::{
    parsed_statements_are_shaped, shaped_block, shaped_expression, shaped_name, shaped_statement,
};
use crate::ast::Parser;
use crate::lexer::Lexer;
use crate::spelling::{
    classes_confirmed, classes_hold, names_spelled, printed_statements_parse_back,
};
use crate::statements::{print, print_list, print_nodes, NodeView};
use crate::text::int_text;
use crate::token::{token, TokenType};
use vstd::prelude::*;

verus! {

/// Whether the tree holds no `if`.
pub open spec fn if_free(node: NodeView) -> bool
    decreases node,
{
    match node {
        NodeView::If { .. } => false,
        NodeView::Prefix { right, .. } => if_free(*right),
        NodeView::Infix { left, right, .. } => if_free(*left) && if_free(*right),
        NodeView::Call { function, arguments, .. } => if_free(*function) && forall|i: int|
            0 <= i < arguments.len() ==> if_free(#[trigger] arguments[i]),
        NodeView::Function { body, .. } => if_free(*body),
        NodeView::Block { statements, .. } => forall|i: int|
            0 <= i < statements.len() ==> if_free(#[trigger] statements[i]),
        NodeView::Let { value, .. } => if_free(*value),
        NodeView::Return { value, .. } => if_free(*value),
        NodeView::Expression { expression, .. } => if_free(*expression),
        _ => true,
    }
}

/// The canonical forms of `items`, in order.
pub open spec fn canonical_all(items: Seq<NodeView>) -> Seq<NodeView>
    decreases items, 1int,
{
    if items.len() == 0 {
        Seq::empty()
    } else {
        canonical_all(items.drop_last()).push(canonical(items.last()))
    }
}

/// The canonical form of a tree: the tree with every token as the parser
/// gives it when it reads the tree's printed form. What a tree prints as
/// does not depend on these tokens.
pub open spec fn canonical(node: NodeView) -> NodeView
    decreases node, 0int,
{
    match node {
        NodeView::Identifier { value, .. } => NodeView::Identifier {
            token: token(TokenType::IDENT, value),
            value,
        },
        NodeView::Integer { value, .. } => NodeView::Integer {
            token: token(TokenType::INT, int_text(value as int)),
            value,
        },
        NodeView::Boolean { value, .. } => NodeView::Boolean { token: truth_word(value), value },
        NodeView::Prefix { operator, right, .. } => NodeView::Prefix {
            token: operator_sign(prefix_kind(operator), operator),
            operator,
            right: Box::new(canonical(*right)),
        },
        NodeView::Infix { left, operator, right, .. } => NodeView::Infix {
            token: operator_sign(infix_kind(operator), operator),
            left: Box::new(canonical(*left)),
            operator,
            right: Box::new(canonical(*right)),
        },
        NodeView::Call { function, arguments, .. } => NodeView::Call {
            token: left_paren(),
            function: Box::new(canonical(*function)),
            arguments: canonical_all(arguments),
        },
        NodeView::Function { parameters, body, .. } => NodeView::Function {
            token: fn_word(),
            parameters: canonical_all(parameters),
            body: Box::new(canonical(*body)),
        },
        NodeView::Block { statements, .. } => NodeView::Block {
            token: left_brace(),
            statements: canonical_all(statements),
        },
        NodeView::Let { name, value, .. } => NodeView::Let {
            token: let_word(),
            name: Box::new(canonical(*name)),
            value: Box::new(canonical(*value)),
        },
        NodeView::Return { value, .. } => NodeView::Return {
            token: return_word(),
            value: Box::new(canonical(*value)),
        },
        NodeView::Expression { expression, .. } => NodeView::Expression {
            token: render(canonical(*expression))[0],
            expression: Box::new(canonical(*expression)),
        },
        NodeView::If { .. } => node,
    }
}

/// `canonical_all` keeps the length and takes each item to its canonical
/// form.
proof fn lemma_canonical_all(items: Seq<NodeView>)
    ensures
        canonical_all(items).len() == items.len(),
        forall|k: int|
            0 <= k < items.len() ==> (#[trigger] canonical_all(items)[k]) == canonical(items[k]),
    decreases items.len(),
{
    reveal_with_fuel(canonical_all, 3);
    if items.len() > 0 {
        lemma_canonical_all(items.drop_last());
        assert(canonical_all(items) == canonical_all(items.drop_last()).push(
            canonical(items.last()),
        ));
    } else {
        assert(canonical_all(items).len() == 0);
    }
}

/// A list prints as the list of its canonical forms.
proof fn lemma_canonical_prints_list(
    items: Seq<NodeView>,
    from: int,
    after: Seq<char>,
    between: Seq<char>,
    statements: bool,
)
    requires
        0 <= from <= items.len(),
        forall|k: int|
            0 <= k < items.len() ==> if_free(#[trigger] items[k]) && if statements {
                shaped_statement(items[k])
            } else {
                shaped_expression(items[k])
            },
    ensures
        print_list(canonical_all(items), from, after, between) == print_list(
            items,
            from,
            after,
            between,
        ),
    decreases items, items.len() - from,
{
    lemma_canonical_all(items);
    if from < items.len() {
        lemma_canonical_prints(items[from], statements);
        lemma_canonical_prints_list(items, from + 1, after, between, statements);
        assert(canonical_all(items)[from] == canonical(items[from]));
    }
}

/// A tree prints as its canonical form.
proof fn lemma_canonical_prints(node: NodeView, statement: bool)
    requires
        if_free(node),
        if statement {
            shaped_statement(node)
        } else {
            shaped_expression(node)
        },
    ensures
        print(canonical(node)) == print(node),
    decreases node, 1int,
{
    match node {
        NodeView::Prefix { right, .. } => {
            lemma_canonical_prints(*right, false);
        },
        NodeView::Infix { left, right, .. } => {
            lemma_canonical_prints(*left, false);
            lemma_canonical_prints(*right, false);
        },
        NodeView::Call { function, arguments, .. } => {
            lemma_canonical_prints(*function, false);
            lemma_canonical_prints_list(arguments, 0, Seq::empty(), ", "@, false);
        },
        NodeView::Function { parameters, body, .. } => {
            assert forall|k: int| 0 <= k < parameters.len() implies if_free(
                #[trigger] parameters[k],
            ) && shaped_expression(parameters[k]) by {
                assert(shaped_name(parameters[k]));
            }
            lemma_canonical_prints_list(parameters, 0, Seq::empty(), ", "@, false);
            lemma_canonical_prints_block(*body);
        },
        NodeView::Let { name, value, .. } => {
            lemma_canonical_prints(*name, false);
            lemma_canonical_prints(*value, false);
        },
        NodeView::Return { value, .. } => {
            lemma_canonical_prints(*value, false);
        },
        NodeView::Expression { expression, .. } => {
            lemma_canonical_prints(*expression, false);
        },
        _ => {},
    }
}

/// A block prints as its canonical form.
proof fn lemma_canonical_prints_block(node: NodeView)
    requires
        if_free(node),
        shaped_block(node),
    ensures
        print(canonical(node)) == print(node),
    decreases node, 0int,
{
    let statements = node->Block_statements;
    lemma_canonical_prints_list(statements, 0, ";"@, " "@, true);
}

/// The canonical forms of a list of shaped trees without `if` are canonical
/// in the sense of `rendering`, and their names are words that the lexer
/// takes for names.
proof fn lemma_canonical_plain_list(items: Seq<NodeView>, statements: bool)
    requires
        forall|k: int|
            0 <= k < items.len() ==> if_free(#[trigger] items[k]) && if statements {
                shaped_statement(items[k])
            } else {
                shaped_expression(items[k])
            },
    ensures
        canonical_all(items).len() == items.len(),
        forall|k: int|
            0 <= k < items.len() ==> names_spelled(#[trigger] canonical_all(items)[k])
                && if statements {
                plain_statement(canonical_all(items)[k])
            } else {
                plain_expression(canonical_all(items)[k])
            },
    decreases items, 2int,
{
    lemma_canonical_all(items);
    assert forall|k: int| 0 <= k < items.len() implies names_spelled(
        #[trigger] canonical_all(items)[k],
    ) && if statements {
        plain_statement(canonical_all(items)[k])
    } else {
        plain_expression(canonical_all(items)[k])
    } by {
        lemma_canonical_plain(items[k], statements);
    }
}

/// The canonical form of a shaped tree without `if` is canonical in the
/// sense of `rendering`, and its names are words that the lexer takes for
/// names.
proof fn lemma_canonical_plain(node: NodeView, statement: bool)
    requires
        if_free(node),
        if statement {
            shaped_statement(node)
        } else {
            shaped_expression(node)
        },
    ensures
        names_spelled(canonical(node)),
        if statement {
            plain_statement(canonical(node))
        } else {
            plain_expression(canonical(node))
        },
    decreases node, 1int,
{
    match node {
        NodeView::Prefix { right, .. } => {
            lemma_canonical_plain(*right, false);
        },
        NodeView::Infix { left, right, .. } => {
            lemma_canonical_plain(*left, false);
            lemma_canonical_plain(*right, false);
        },
        NodeView::Call { function, arguments, .. } => {
            lemma_canonical_plain(*function, false);
            lemma_canonical_plain_list(arguments, false);
        },
        NodeView::Function { parameters, body, .. } => {
            assert forall|k: int| 0 <= k < parameters.len() implies if_free(
                #[trigger] parameters[k],
            ) && shaped_expression(parameters[k]) by {
                assert(shaped_name(parameters[k]));
            }
            lemma_canonical_plain_list(parameters, false);
            lemma_canonical_all(parameters);
            assert forall|k: int| 0 <= k < parameters.len() implies plain_name(
                #[trigger] canonical_all(parameters)[k],
            ) by {
                assert(shaped_name(parameters[k]));
                assert(canonical_all(parameters)[k] == canonical(parameters[k]));
            }
            assert(shaped_block(*body));
            assert(*body is Block);
            assert(if_free(*body));
            let statements = body->Block_statements;
            assert forall|k: int| 0 <= k < statements.len() implies if_free(
                #[trigger] statements[k],
            ) && shaped_statement(statements[k]) by {}
            lemma_canonical_plain_list(statements, true);
            assert(canonical(*body) == (NodeView::Block {
                token: left_brace(),
                statements: canonical_all(statements),
            }));
            assert(names_spelled(canonical(*body)));
        },
        NodeView::Let { name, value, .. } => {
            lemma_canonical_plain(*name, false);
            lemma_canonical_plain(*value, false);
            assert(shaped_name(*name));
        },
        NodeView::Return { value, .. } => {
            lemma_canonical_plain(*value, false);
        },
        NodeView::Expression { expression, .. } => {
            lemma_canonical_plain(*expression, false);
        },
        _ => {},
    }
}

/// The statements that the parser builds from a source text.
pub open spec fn parsed(input: Seq<char>) -> Seq<NodeView> {
    program(all_tokens(input, 0), 0, Seq::empty()).statements
}

/// How statements print one after the other, as a block prints them.
pub open spec fn printed(statements: Seq<NodeView>) -> Seq<char> {
    print_list(statements, 0, ";"@, " "@)
}

/// Printing is a fixed point of parsing. Take any source text from which
/// the parser builds statements without an `if`: print the statements and
/// parse what was printed, and the parser builds those same statements, each
/// in its canonical form and without a diagnostic; print again, and the text
/// is as before.
pub proof fn printing_is_a_fixed_point(input: Seq<char>)
    requires
        classes_hold(),
        forall|k: int| 0 <= k < parsed(input).len() ==> if_free(#[trigger] parsed(input)[k]),
    ensures
        parsed(printed(parsed(input))) == canonical_all(parsed(input)),
        program(all_tokens(printed(parsed(input)), 0), 0, Seq::empty()).failure.is_none(),
        printed(parsed(printed(parsed(input)))) == printed(parsed(input)),
{
    let trees = parsed(input);
    parsed_statements_are_shaped(input);
    lemma_canonical_plain_list(trees, true);
    lemma_canonical_prints_list(trees, 0, ";"@, " "@, true);
    printed_statements_parse_back(canonical_all(trees));
}

/// The canonical text of a source: what the parser builds from it, printed
/// statement by statement as a block prints them.
///
/// There is a result where the standard library classes the characters of
/// the language as `classes_hold` says. Where what the parser builds holds no
/// `if`, the result is a fixed point: parsing it gives the same statements
/// in canonical form, and printing those gives the result again.
pub fn canonical_text(source: String) -> (text: Option<String>)
    ensures
        text.is_some() == classes_hold(),
        match text {
            Some(t) => {
                &&& t@ == printed(parsed(source@))
                &&& (forall|k: int|
                    0 <= k < parsed(source@).len() ==> if_free(#[trigger] parsed(source@)[k]))
                    ==> parsed(t@) == canonical_all(parsed(source@)) && printed(parsed(t@))
                    == t@
            },
            None => true,
        },
{
    if !classes_confirmed() {
        return None;
    }
    let ghost input = source@;
    let mut parser = Parser::new(Lexer::new(source));
    let statements = parser.parse();
    let text = print_nodes(&statements, ";", " ");
    proof {
        if forall|k: int| 0 <= k < parsed(input).len() ==> if_free(#[trigger] parsed(input)[k]) {
            printing_is_a_fixed_point(input);
        }
    }
    Some(text)
}

} // verus!
