use blang::ast::Parser;
use blang::eval::MAX_CALL_DEPTH;
use blang::lexer::Lexer;
use blang::program::Program;
use blang::statements::{
    IdentifierExpression, IntegerLiteralExpression, LetStatement, ProgramNode,
};
use blang::token::{Token, TokenType};
use blang::types::Object;

fn number(value: i64) -> ProgramNode {
    let literal = format!("{}", value);
    ProgramNode::Integer(IntegerLiteralExpression::new(
        Token::new(TokenType::INT, Some(&literal)),
        value,
    ))
}

fn binding(name: &str, value: i64) -> ProgramNode {
    ProgramNode::Let(LetStatement::new(
        Token::new(TokenType::LET, Some("let")),
        Box::new(ProgramNode::Identifier(IdentifierExpression::new(
            Token::new(TokenType::IDENT, Some(name)),
            name.to_string(),
        ))),
        Box::new(number(value)),
    ))
}

#[test]
fn test_program_node() {
    let statements: Vec<ProgramNode> = vec![binding("Test", 5), number(10)];
    let mut program = Program::new(statements);

    program.eval();

    assert!(program
        .environment
        .list_keys()
        .contains(&&"Test".to_string()));
}

#[test]
fn test_program_resumes_where_it_stopped() {
    let mut program = Program::new(vec![binding("a", 1), number(2)]);
    match program.eval() {
        Some(Object::Integer(i)) => assert_eq!(i.value, 2),
        _ => panic!("expected 2"),
    }
    // Nothing is left to do: the run has no value.
    assert!(program.eval().is_none());
    program.extend(vec![binding("b", 7)]);
    assert!(program.eval().is_none());
    assert!(program.environment.has_key("b"));
    program.extend(vec![number(3), number(4)]);
    match program.eval() {
        Some(Object::Integer(i)) => assert_eq!(i.value, 4),
        _ => panic!("expected 4"),
    }
    assert_eq!(program.statements.len(), 5);
}

#[test]
fn test_program_walk_back_error() {
    let unknown = ProgramNode::Identifier(IdentifierExpression::new(
        Token::new(TokenType::IDENT, Some("nobody")),
        "nobody".to_string(),
    ));
    let mut program = Program::new(vec![binding("a", 1), unknown, binding("b", 2)]);
    match program.eval() {
        Some(object) => assert_eq!(object.inspect(), "unknown identifier: nobody"),
        None => panic!("expected an error"),
    }
    assert!(program.environment.has_key("a"));
    assert!(!program.environment.has_key("b"));
    // The failing statement is still the next one to do.
    match program.eval() {
        Some(object) => assert_eq!(object.inspect(), "unknown identifier: nobody"),
        None => panic!("expected an error"),
    }
    program.walk_back_error();
    assert_eq!(program.statements.len(), 1);
    assert!(program.eval().is_none());
    program.extend(vec![binding("b", 2)]);
    program.eval();
    assert!(program.environment.has_key("b"));
}

#[test]
fn test_empty_program() {
    let mut program = Program::new(vec![]);
    assert!(program.eval().is_none());
    assert_eq!(program.environment.list_keys().len(), 0);
}

#[test]
fn test_program_accessors() {
    let mut program = Program::new(vec![binding("a", 1), number(2)]);
    assert_eq!(program.current_index(), 0);
    assert_eq!(program.call_limit(), MAX_CALL_DEPTH);
    assert_eq!(program.statements().len(), 2);
    assert!(!program.environment().has_key("a"));
    program.eval();
    assert_eq!(program.current_index(), 2);
    assert!(program.environment().has_key("a"));
}

#[test]
fn test_program_call_depth() {
    let source = "let down = fn(n) { if (n < 1) { 0 } else { down(n - 1) } }; down(20)";
    let mut parser = Parser::new(Lexer::new(source.to_string()));
    let mut shallow = Program::new(parser.parse());
    shallow.set_call_depth(10);
    assert_eq!(shallow.call_limit(), 10);
    match shallow.eval() {
        Some(object) => assert_eq!(object.inspect(), "call depth exceeded"),
        None => panic!("expected an error"),
    }
    let mut parser = Parser::new(Lexer::new(source.to_string()));
    let mut deep = Program::new(parser.parse());
    deep.set_call_depth(21);
    match deep.eval() {
        Some(Object::Integer(i)) => assert_eq!(i.value, 0),
        _ => panic!("expected 0"),
    }
    let mut parser = Parser::new(Lexer::new("fn() { 1 }()".to_string()));
    let mut none = Program::new(parser.parse());
    none.set_call_depth(0);
    match none.eval() {
        Some(object) => assert_eq!(object.inspect(), "call depth exceeded"),
        None => panic!("expected an error"),
    }
}
