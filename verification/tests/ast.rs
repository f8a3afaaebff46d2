use blang::ast::Parser;
use blang::lexer::Lexer;
use blang::program::Program;
use blang::statements::{
    BlockStatement, CallExpression, ExpressionStatement, FunctionLiteralExpression,
    IdentifierExpression, IfExpression, InfixExpression, IntegerLiteralExpression, LetStatement,
    ProgramNode,
};
use blang::types::{Boolean, Integer, Object, Type};

fn let_statement(node: &ProgramNode) -> &LetStatement {
    match node {
        ProgramNode::Let(statement) => statement,
        _ => panic!("not a let statement"),
    }
}

fn expression_statement(node: &ProgramNode) -> &ExpressionStatement {
    match node {
        ProgramNode::Expression(statement) => statement,
        _ => panic!("not an expression statement"),
    }
}

fn block(node: &ProgramNode) -> &BlockStatement {
    match node {
        ProgramNode::Block(statement) => statement,
        _ => panic!("not a block"),
    }
}

fn identifier(node: &ProgramNode) -> &IdentifierExpression {
    match node {
        ProgramNode::Identifier(expression) => expression,
        _ => panic!("not an identifier"),
    }
}

fn integer(node: &ProgramNode) -> &IntegerLiteralExpression {
    match node {
        ProgramNode::Integer(expression) => expression,
        _ => panic!("not an integer literal"),
    }
}

fn infix(node: &ProgramNode) -> &InfixExpression {
    match node {
        ProgramNode::Infix(expression) => expression,
        _ => panic!("not an infix expression"),
    }
}

fn conditional(node: &ProgramNode) -> &IfExpression {
    match node {
        ProgramNode::If(expression) => expression,
        _ => panic!("not an if expression"),
    }
}

fn function(node: &ProgramNode) -> &FunctionLiteralExpression {
    match node {
        ProgramNode::Function(expression) => expression,
        _ => panic!("not a function literal"),
    }
}

fn call(node: &ProgramNode) -> &CallExpression {
    match node {
        ProgramNode::Call(expression) => expression,
        _ => panic!("not a call"),
    }
}

fn integer_object(object: &Object) -> &Integer {
    match object {
        Object::Integer(value) => value,
        _ => panic!("not an integer"),
    }
}

fn boolean_object(object: &Object) -> &Boolean {
    match object {
        Object::Boolean(value) => value,
        _ => panic!("not a boolean"),
    }
}

#[test]
fn test_let_statements() {
    let test_string = r#"let x = 5;
        let y = 10;
        let foobar = 838383;"#;

    let lexer = Lexer::new(test_string.to_string());
    let mut parser = Parser::new(lexer);

    let program = Program::new(parser.parse());

    assert!(
        program.statements.len() == 3,
        "Statements Returned Does not Equal 3"
    );

    let test_literals = vec!["x", "y", "foobar"];
    for i in 0..test_literals.len() {
        test_let_statement(&program.statements[i], test_literals[i].to_string());
    }

    assert_eq!(parser.errors().len(), 0);
}

fn test_let_statement(node: &ProgramNode, name: String) {
    // If statement does not equal let
    if node.token_literal().unwrap() != "let" {
        panic!("Token Literal: {} != 'let'", node.token_literal().unwrap());
    }

    let statement = let_statement(node);
    let ident = identifier(&statement.name);
    if ident.value != name {
        panic!("Name: {} != '{}'", ident.value, name);
    }

    if statement.name.token_literal().unwrap() != name {
        panic!(
            "Name: {} != '{}'",
            statement.name.token_literal().unwrap(),
            name
        );
    }
}

#[test]
fn test_return_statements() {
    let test_string = r#"return 5;
        return 10;
        return 993322;"#;

    let lexer = Lexer::new(test_string.to_string());
    let mut parser = Parser::new(lexer);

    let program = Program::new(parser.parse());

    assert_eq!(parser.errors().len(), 0);
    assert_eq!(program.statements.len(), 3);

    for statement in &program.statements {
        assert_eq!(statement.token_literal(), Some("return".to_string()));
    }
}

#[test]
fn test_integer_literal_statements() {
    let test_input = "5; 6;";

    let lexer = Lexer::new(test_input.to_string());
    let mut parser = Parser::new(lexer);

    let program = Program::new(parser.parse());

    assert_eq!(program.statements.len(), 2);
    assert_eq!(program.statements[0].token_literal().unwrap(), "5");
    assert_eq!(
        integer(&expression_statement(&program.statements[0]).expression)
            .value,
        5
    );
}

#[test]
fn test_prefix_statements() {
    let test_inputs = vec!["!5;", "-15;"];
    for test_input in test_inputs {
        let lexer = Lexer::new(test_input.to_string());
        let mut parser = Parser::new(lexer);

        let program = Program::new(parser.parse());

        assert_eq!(program.statements.len(), 1);
    }
}

#[test]
fn test_simple_infix_statements() {
    let test_inputs = vec![
        ("5 + 5;", 5, "+", 5),
        ("5 - 5;", 5, "-", 5),
        ("5 * 5;", 5, "*", 5),
        ("5 / 5;", 5, "/", 5),
        ("5 > 5;", 5, ">", 5),
        ("5 < 5;", 5, "<", 5),
        ("5 == 5;", 5, "==", 5),
        ("5 != 5;", 5, "!=", 5),
    ];

    for test_input in test_inputs {
        let lexer = Lexer::new(test_input.0.to_string());
        let mut parser = Parser::new(lexer);
        let program = Program::new(parser.parse());
        assert_eq!(program.statements.len(), 1);

        assert_eq!(
            infix(&expression_statement(&program.statements[0]).expression)
                .left
                .token_literal()
                .unwrap(),
            test_input.1.to_string()
        );
        assert_eq!(
            infix(&expression_statement(&program.statements[0]).expression)
                .operator,
            test_input.2
        );

        assert_eq!(
            infix(&expression_statement(&program.statements[0]).expression)
                .right
                .token_literal()
                .unwrap(),
            test_input.3.to_string()
        );
    }
}

#[test]
fn test_complex_infix_statements() {
    let test_inputs = vec![
        ("-a + b;", "((-a) + b)"),
        ("!-a;", "(!(-a))"),
        ("a + b + c;", "((a + b) + c)"),
        ("a + b - c;", "((a + b) - c)"),
        ("a * b * c;", "((a * b) * c)"),
        ("a + b / c;", "(a + (b / c))"),
        ("a + b * c + d / e - f;", "(((a + (b * c)) + (d / e)) - f)"),
        ("5 > 4 == 3 < 4;", "((5 > 4) == (3 < 4))"),
        ("5 < 4 != 3 > 4;", "((5 < 4) != (3 > 4))"),
        (
            "3 + 4 * 5 == 3 * 1 + 4 * 5;",
            "((3 + (4 * 5)) == ((3 * 1) + (4 * 5)))",
        ),
        (
            "3 + 4 * 5 == 3 * 1 + 4 * 5;",
            "((3 + (4 * 5)) == ((3 * 1) + (4 * 5)))",
        ),
    ];

    for test_input in test_inputs {
        let lexer = Lexer::new(test_input.0.to_string());
        let mut parser = Parser::new(lexer);
        let program = Program::new(parser.parse());
        assert_eq!(program.statements.len(), 1);

        assert_eq!(
            program.statements[0].to_string(),
            test_input.1
        );
    }
}

#[test]
fn test_boolean_statements() {
    let test_inputs = vec![
        ("true", "true"),
        ("false;", "false"),
        ("3 > 5 == false", "((3 > 5) == false)"),
        ("3 < 5 == true;", "((3 < 5) == true)"),
    ];

    for test_input in test_inputs {
        let lexer = Lexer::new(test_input.0.to_string());
        let mut parser = Parser::new(lexer);
        let program = Program::new(parser.parse());
        assert_eq!(program.statements.len(), 1);

        assert_eq!(
            program.statements[0].to_string(),
            test_input.1
        );
    }
}

#[test]
fn test_grouped_statements() {
    let test_inputs = vec![
        ("1 + (2 + 3) + 4", "((1 + (2 + 3)) + 4)"),
        ("(5 + 5) * 2;", "((5 + 5) * 2)"),
        ("2 / (5 + 5)", "(2 / (5 + 5))"),
        ("-(5 + 5)", "(-(5 + 5))"),
        ("!(true == true)", "(!(true == true))"),
    ];

    for test_input in test_inputs {
        let lexer = Lexer::new(test_input.0.to_string());
        let mut parser = Parser::new(lexer);
        let program = Program::new(parser.parse());
        assert_eq!(program.statements.len(), 1);

        assert_eq!(
            program.statements[0].to_string(),
            test_input.1
        );
    }
}

#[test]
fn test_if_statements() {
    let test_inputs = vec![("if (x < y) { x; }", "(x < y)", "x;")];
    for test_input in test_inputs {
        let lexer = Lexer::new(test_input.0.to_string());
        let mut parser = Parser::new(lexer);
        let program = Program::new(parser.parse());
        assert_eq!(program.statements.len(), 1);

        assert_eq!(
            conditional(&expression_statement(&program.statements[0]).expression)
                .condition
                .to_string(),
            test_input.1
        );
        assert_eq!(
            conditional(&expression_statement(&program.statements[0]).expression)
                .consequence
                .to_string(),
            test_input.2
        );

        assert!(conditional(&expression_statement(&program.statements[0]).expression)
            .alternative
            .is_none());
    }
}

#[test]
fn test_if_else_statement() {
    let test_inputs = vec![(
        "if (x < y) { x; } else { y + 5; }",
        "(x < y)",
        "x;",
        "(y + 5);",
    )];
    for test_input in test_inputs {
        let lexer = Lexer::new(test_input.0.to_string());
        let mut parser = Parser::new(lexer);
        let program = Program::new(parser.parse());
        assert_eq!(program.statements.len(), 1);
        assert_eq!(
            conditional(&expression_statement(&program.statements[0]).expression)
                .condition
                .to_string(),
            test_input.1
        );

        assert_eq!(
            conditional(&expression_statement(&program.statements[0]).expression)
                .consequence
                .to_string(),
            test_input.2
        );

        assert!(conditional(&expression_statement(&program.statements[0]).expression)
            .alternative
            .is_some());

        assert_eq!(
            conditional(&expression_statement(&program.statements[0]).expression)
                .alternative
                .as_ref()
                .unwrap()
                .to_string(),
            test_input.3
        );
    }
}

#[test]
fn test_function_literal() {
    let test_inputs = vec![
        ("fn(x, y) { x + y; }", "fn(x, y) { (x + y); }", 1, 2, 1),
        (
            "fn() { let a = 3; a + 4; }",
            "fn() { let a = 3; (a + 4); }",
            1,
            0,
            2,
        ),
    ];
    for test_input in test_inputs {
        let lexer = Lexer::new(test_input.0.to_string());
        let mut parser = Parser::new(lexer);
        let program = Program::new(parser.parse());
        assert_eq!(program.statements.len(), test_input.2);
        assert_eq!(program.statements[0].to_string(), test_input.1);
        assert_eq!(
            function(&expression_statement(&program.statements[0]).expression)
                .parameters
                .len(),
            test_input.3
        );

        assert_eq!(
            block(&function(&expression_statement(&program.statements[0]).expression).body)
                .statements
                .len(),
            test_input.4
        );
    }
}

#[test]
fn test_call_expression() {
    let test_inputs = vec![
        ("add(1, 2, 3)", "add(1, 2, 3)", 1, 3),
        (
            "product(1,2*3, 4+5); run()",
            "product(1, (2 * 3), (4 + 5))",
            2,
            3,
        ),
        ("run()", "run()", 1, 0),
    ];
    for test_input in test_inputs {
        let lexer = Lexer::new(test_input.0.to_string());
        let mut parser = Parser::new(lexer);
        let program = Program::new(parser.parse());
        assert_eq!(program.statements.len(), test_input.2);
        assert_eq!(program.statements[0].to_string(), test_input.1);
        assert_eq!(
            call(&expression_statement(&program.statements[0]).expression)
                .arguments
                .len(),
            test_input.3
        );
    }
}

#[test]
fn test_eval_integer_expression() {
    let test_inputs = vec![
        ("5", 5),
        ("10", 10),
        ("-5", -5),
        ("-10", -10),
        ("5 + 5", 10),
        ("5 - 5", 0),
        ("5 * 5", 25),
        ("5 / 5", 1),
        ("5 + 5 + 5 + 5 - 10", 10),
        ("2 * 2 * 2 * 2 * 2", 32),
        ("-50 + 100 + -50", 0),
        ("5 * 2 + 10", 20),
        ("5 + 2 * 10", 25),
        ("20 + 2 * -10", 0),
        ("50 / 2 * 2 + 10", 60),
        ("2 * (5 + 10)", 30),
        ("3 * 3 * 3 + 10", 37),
        ("3 * (3 * 3) + 10", 37),
        ("(5 + 10 * 2 + 15 / 3) * 2 + -10", 50),
        ("5; return 10; 15;", 10),
        ("return 15; 19 + 15; 5 == 5;", 15),
        ("10 == 10; 10 != 11; return 1;", 1),
        ("let a = 10; a;", 10),
    ];
    for test_input in test_inputs {
        test_eval_integer(test_input);
    }
}

fn test_eval_integer(test_input: (&str, i64)) {
    let lexer = Lexer::new(test_input.0.to_string());
    let mut parser = Parser::new(lexer);
    let mut program = Program::new(parser.parse());
    let obj = program.eval();
    assert!(obj.is_some());
    let unwrapped = obj.unwrap();
    assert_eq!(&unwrapped.type_(), &Type::INTEGER);
    assert_eq!(
        &integer_object(&unwrapped).value,
        &test_input.1
    );
}

#[test]
fn test_eval_boolean_expression() {
    let test_inputs = vec![
        ("true", true),
        ("false", false),
        ("!true", false),
        ("!false", true),
        ("5 > 5", false),
        ("5 < 5", false),
        ("5 > 4", true),
        ("5 > 6", false),
        ("5 < 3", false),
        ("1 < 10", true),
        ("1 == 15", false),
        ("1 == 1", true),
        ("1 != 15", true),
        ("1 != 1", false),
        ("(2 > 1) == true", true),
        ("(2 == 2) == true", true),
        ("(2 < 1) == false", true),
        ("let b = true; b;", true),
    ];
    for test_input in test_inputs {
        test_eval_boolean(test_input);
    }
}

fn test_eval_boolean(test_input: (&str, bool)) {
    let lexer = Lexer::new(test_input.0.to_string());
    let mut parser = Parser::new(lexer);
    let mut program = Program::new(parser.parse());
    let obj = program.eval();
    assert!(obj.is_some());
    let unwrapped = obj.unwrap();
    assert_eq!(&unwrapped.type_(), &Type::BOOLEAN);
    assert_eq!(
        &boolean_object(&unwrapped).value,
        &test_input.1
    );
}

#[test]
fn test_if_expression_integer() {
    let test_inputs = vec![
        ("if (5 == 5) { 10; }", 10),
        ("if (1 == 2) { 10; } else { 5; }", 5),
    ];
    for test_input in test_inputs {
        test_eval_integer(test_input);
    }
}

#[test]
fn test_error_handling() {
    let test_inputs = vec![
        ("5 + true", "type mismatch: INTEGER + BOOLEAN"),
        ("true - 10", "type mismatch: BOOLEAN - INTEGER"),
        (
            "10; 5 + true; return 15;",
            "type mismatch: INTEGER + BOOLEAN",
        ),
        ("-true", "invalid type: -BOOLEAN"),
        ("-(5 + true)", "type mismatch: INTEGER + BOOLEAN"),
        ("if (5 + true) { x }", "type mismatch: INTEGER + BOOLEAN"),
        ("foobar;", "unknown identifier: foobar"),
    ];

    for test_input in test_inputs {
        test_eval_error(test_input);
    }
}

fn test_eval_error(test_input: (&str, &str)) {
    let lexer = Lexer::new(test_input.0.to_string());
    let mut parser = Parser::new(lexer);
    let mut program = Program::new(parser.parse());
    let obj = program.eval();
    assert!(obj.is_some());
    let unwrapped = obj.unwrap();

    assert_eq!(unwrapped.inspect(), test_input.1);
}

#[test]
fn test_update_env() {
    let test_inputs = vec![
        ("let x = 5; x", "x", 5),
        ("10; let y = 15;", "y", 15),
        ("if (true) { let a = 5; return a;}", "a", 5),
        ("if (true) { let a = 1; let b = 2; return 10;}", "b", 2),
    ];
    for test_input in test_inputs {
        test_update_env_individual(test_input);
    }
}

fn test_update_env_individual(test_input: (&str, &str, i64)) {
    let lexer = Lexer::new(test_input.0.to_string());
    let mut parser = Parser::new(lexer);
    let mut program = Program::new(parser.parse());
    program.eval();

    assert!(program.environment.has_key(test_input.1));
    let val = program.environment.get(test_input.1);
    assert_eq!(integer_object(&val).value, test_input.2);
}
