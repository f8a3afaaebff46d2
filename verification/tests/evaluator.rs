use blang::ast::Parser;
use blang::environment::Environment;
use blang::eval::{
    eval, eval_statements, infix_value, is_error, is_truthy, prefix_value, MAX_CALL_DEPTH,
};
use blang::lexer::Lexer;
use blang::program::Program;
use blang::statements::{IntegerLiteralExpression, PrefixExpression, ProgramNode};
use blang::token::{Token, TokenType};
use blang::types::{Boolean, Error, Integer, Null, Object, Type};

fn run(source: &str) -> Option<Object> {
    let mut parser = Parser::new(Lexer::new(source.to_string()));
    let statements = parser.parse();
    assert_eq!(parser.errors().len(), 0, "{}", source);
    Program::new(statements).eval()
}

fn shown(source: &str) -> String {
    match run(source) {
        Some(object) => object.inspect(),
        None => panic!("no value for {}", source),
    }
}

fn expect_integer(source: &str, want: i64) {
    match run(source) {
        Some(Object::Integer(i)) => assert_eq!(i.value, want, "{}", source),
        Some(other) => panic!("{} gave {}", source, other.inspect()),
        None => panic!("{} gave nothing", source),
    }
}

fn expect_boolean(source: &str, want: bool) {
    match run(source) {
        Some(Object::Boolean(b)) => assert_eq!(b.value, want, "{}", source),
        Some(other) => panic!("{} gave {}", source, other.inspect()),
        None => panic!("{} gave nothing", source),
    }
}

fn expect_error(source: &str, want: &str) {
    match run(source) {
        Some(Object::Error(e)) => assert_eq!(e.message, want, "{}", source),
        Some(other) => panic!("{} gave {}", source, other.inspect()),
        None => panic!("{} gave nothing", source),
    }
}

#[test]
fn test_scenarios() {
    expect_integer("5 + 5 * 2", 15);
    expect_integer("(5 + 5) * 2", 20);
    expect_integer("let a = 10; a;", 10);
    expect_integer("if (5 == 5) { 10; }", 10);
    expect_integer("if (1 == 2) { 10; } else { 5; }", 5);
    expect_integer("5; return 10; 15;", 10);
    expect_error("5 + true", "type mismatch: INTEGER + BOOLEAN");
    expect_error("-true", "invalid type: -BOOLEAN");
    expect_error("foobar;", "unknown identifier: foobar");
}

#[test]
fn test_closure_capture_isolation() {
    expect_integer("let x = 1; let f = fn(){ x }; let x = 2; f()", 1);
    // The caller's binding is seen where the function captured none.
    expect_integer("let f = fn(){ y }; let y = 2; f()", 2);
    // A parameter wins over a captured binding and over the caller's.
    expect_integer("let x = 1; let f = fn(x){ x }; let x = 2; f(3)", 3);
}

#[test]
fn test_function_calls() {
    expect_integer("let add = fn(x, y) { x + y; }; add(2, 3)", 5);
    expect_integer("let add = fn(x, y) { x + y; }; add(1 + 1, add(2, 3))", 7);
    expect_integer("fn(x) { x * 2 }(21)", 42);
    expect_integer("let twice = fn(f, x) { f(f(x)) }; twice(fn(n) { n + 3 }, 1)", 7);
    expect_integer(
        "let fact = fn(n) { if (n < 1) { 1 } else { n * fact(n - 1) } }; fact(10)",
        3628800,
    );
    expect_integer("let make = fn(a) { fn(b) { a + b } }; let inc = make(1); inc(41)", 42);
}

#[test]
fn test_call_scope_does_not_leak() {
    let mut parser = Parser::new(Lexer::new(
        "let f = fn(x) { let inner = x; inner }; let r = f(9);".to_string(),
    ));
    let mut program = Program::new(parser.parse());
    program.eval();
    assert!(program.environment.has_key("f"));
    assert!(program.environment.has_key("r"));
    assert!(!program.environment.has_key("inner"));
    assert!(!program.environment.has_key("x"));
}

#[test]
fn test_return_unwinds_to_the_call() {
    expect_integer("let f = fn(x) { if (x > 0) { return 1; } 2 }; f(5) + 10", 11);
    expect_integer("let f = fn(x) { if (x > 0) { return 1; } 2 }; f(0) + 10", 12);
    expect_integer("if (true) { if (true) { return 10; } return 1; }", 10);
    expect_integer("if (true) { return 7; } 8", 7);
}

#[test]
fn test_call_errors() {
    expect_error("5(1)", "not a function: INTEGER");
    expect_error("true()", "not a function: BOOLEAN");
    expect_error("let f = fn(x) { x }; f(1, 2)", "wrong number of arguments: want=1, got=2");
    expect_error("fn() { 1 }(0)", "wrong number of arguments: want=0, got=1");
    expect_error("nobody(1)", "unknown identifier: nobody");
    expect_error("let f = fn(x) { x }; f(1 + true)", "type mismatch: INTEGER + BOOLEAN");
    expect_error("let f = fn(x) { x + true }; f(1)", "type mismatch: INTEGER + BOOLEAN");
    // Fewer arguments than parameters: the missing one is unbound.
    expect_error("let f = fn(x, y) { y }; f(1)", "unknown identifier: y");
}

#[test]
fn test_call_depth_limit() {
    expect_error("let f = fn(x) { f(x) }; f(1)", "call depth exceeded");
    assert_eq!(MAX_CALL_DEPTH, 200);
    expect_integer(
        "let down = fn(n) { if (n < 1) { 0 } else { down(n - 1) } }; down(150)",
        0,
    );
}

#[test]
fn test_integer_arithmetic_wraps() {
    expect_integer("9223372036854775807 + 1", i64::MIN);
    expect_integer("-9223372036854775807 - 2", i64::MAX);
    expect_integer("9223372036854775807 * 2", -2);
    expect_integer("-(-9223372036854775807 - 1)", i64::MIN);
    expect_integer("(-9223372036854775807 - 1) / -1", i64::MIN);
    assert_eq!(shown("-9223372036854775807 - 1"), "-9223372036854775808");
}

#[test]
fn test_integer_division() {
    expect_integer("7 / 2", 3);
    expect_integer("-7 / 2", -3);
    expect_integer("7 / -2", -3);
    expect_integer("-7 / -2", 3);
    expect_integer("0 / 5", 0);
    expect_error("1 / 0", "division by zero");
    expect_error("0 / 0", "division by zero");
}

#[test]
fn test_bang_operator() {
    expect_boolean("!true", false);
    expect_boolean("!false", true);
    expect_boolean("!5", false);
    expect_boolean("!0", false);
    expect_boolean("!!true", true);
    expect_boolean("!fn() { 1 }", false);
}

#[test]
fn test_boolean_infix() {
    expect_boolean("true == true", true);
    expect_boolean("true != true", false);
    expect_boolean("true == false", false);
    expect_boolean("false != true", true);
    assert!(run("true + true").is_none());
    assert!(run("true < false").is_none());
    expect_error("true == 1", "type mismatch: BOOLEAN == INTEGER");
    expect_error("fn() { 1 } + 1", "type mismatch: FUNCTION + INTEGER");
}

#[test]
fn test_conditions() {
    assert!(run("if (false) { 10 }").is_none());
    expect_integer("if (1) { 10 }", 10);
    expect_integer("if (0) { 10 } else { 20 }", 10);
    expect_integer("if (1 > 2) { 10 } else { 20 }", 20);
    expect_integer("if (fn() { 1 }) { 10 } else { 20 }", 10);
    // A condition without a value does not hold.
    expect_integer("if (if (false) { 1 }) { 10 } else { 20 }", 20);
    expect_error("if (1 + true) { 10 } else { nobody }", "type mismatch: INTEGER + BOOLEAN");
}

#[test]
fn test_error_absorption() {
    let inner = "5 + true";
    let want = shown(inner);
    assert_eq!(want, "type mismatch: INTEGER + BOOLEAN");
    for source in [
        "-(5 + true)",
        "!(5 + true)",
        "(5 + true) + 1",
        "1 + (5 + true)",
        "(5 + true) == (nobody)",
        "if (5 + true) { 1 } else { 2 }",
        "if (true) { 5 + true; 3 }",
        "let a = 5 + true; 3",
        "return 5 + true; 3",
        "fn(x) { x }(5 + true)",
        "1; 5 + true; nobody",
    ] {
        assert_eq!(shown(source), want, "{}", source);
    }
}

#[test]
fn test_failed_let_binds_nothing() {
    let mut parser = Parser::new(Lexer::new("let a = 1; let b = a + true; let c = 3;".to_string()));
    let mut program = Program::new(parser.parse());
    match program.eval() {
        Some(Object::Error(e)) => assert_eq!(e.message, "type mismatch: INTEGER + BOOLEAN"),
        _ => panic!("expected an error"),
    }
    assert!(program.environment.has_key("a"));
    assert!(!program.environment.has_key("b"));
    assert!(!program.environment.has_key("c"));
}

#[test]
fn test_failed_statement_leaves_no_trace() {
    let mut parser = Parser::new(Lexer::new(
        "let a = 1; if (true) { let a = 2; let z = 3; a + true }".to_string(),
    ));
    let mut program = Program::new(parser.parse());
    assert!(is_error(program.eval().as_ref()));
    assert!(!program.environment.has_key("z"));
    match program.environment.get("a") {
        Object::Integer(i) => assert_eq!(i.value, 1),
        _ => panic!("expected 1"),
    }
}

#[test]
fn test_unknown_prefix_operator() {
    let operand = ProgramNode::Integer(IntegerLiteralExpression::new(
        Token::new(TokenType::INT, Some("5")),
        5,
    ));
    let node = ProgramNode::Prefix(PrefixExpression::new(
        Token::new(TokenType::ILLEGAL, Some("~")),
        "~".to_string(),
        Box::new(operand),
    ));
    let mut env = Environment::new();
    match node.eval(&mut env) {
        Some(Object::Error(e)) => assert_eq!(e.message, "unknown operator: ~INTEGER"),
        _ => panic!("expected an error"),
    }
    match eval(&node, &mut env) {
        Some(Object::Error(e)) => assert_eq!(e.message, "unknown operator: ~INTEGER"),
        _ => panic!("expected an error"),
    }
}

#[test]
fn test_value_operations() {
    let five = || Some(Object::Integer(Integer { value: 5 }));
    let yes = || Some(Object::Boolean(Boolean { value: true }));
    match prefix_value("-", five()) {
        Object::Integer(i) => assert_eq!(i.value, -5),
        _ => panic!("expected -5"),
    }
    assert_eq!(prefix_value("-", None).inspect(), "invalid type: -NULL");
    assert_eq!(prefix_value("!", None).inspect(), "false");
    assert_eq!(prefix_value("?", yes()).inspect(), "unknown operator: ?BOOLEAN");
    assert_eq!(infix_value("*", five(), five()).unwrap().inspect(), "25");
    assert_eq!(infix_value("<", five(), five()).unwrap().inspect(), "false");
    assert!(infix_value("%", five(), five()).is_none());
    assert_eq!(
        infix_value("+", five(), None).unwrap().inspect(),
        "type mismatch: INTEGER + NULL"
    );
    assert!(is_truthy(&five()));
    assert!(is_truthy(&yes()));
    assert!(!is_truthy(&Some(Object::Null(Null {}))));
    assert!(!is_truthy(&None));
    assert!(is_error(Some(&Object::Error(Error { message: "x".to_string() }))));
    assert!(!is_error(Some(&Object::Null(Null {}))));
    assert!(!is_error(None));
}

#[test]
fn test_eval_statements_runs_in_order() {
    let mut parser = Parser::new(Lexer::new("let a = 2; let b = a * 3; b + 1; return a; 99".to_string()));
    let statements = parser.parse();
    let mut env = Environment::new();
    let end = eval_statements(&statements, &mut env, MAX_CALL_DEPTH);
    assert!(end.returned);
    match end.value {
        Some(Object::Integer(i)) => assert_eq!(i.value, 2),
        _ => panic!("expected 2"),
    }
    assert!(env.has_key("b"));
    let nothing: Vec<ProgramNode> = Vec::new();
    let opening = eval_statements(&nothing, &mut env, MAX_CALL_DEPTH);
    assert!(opening.value.is_none());
    assert!(!opening.returned);
}

#[test]
fn test_inspect_and_type() {
    assert_eq!(shown("12"), "12");
    assert_eq!(shown("-12"), "-12");
    assert_eq!(shown("0"), "0");
    assert_eq!(shown("1 < 2"), "true");
    assert_eq!(shown("1 > 2"), "false");
    assert_eq!(shown("fn(x, y) { x + y; }"), "fn(x, y) { (x + y); }");
    assert_eq!(shown("fn() { }"), "fn() {  }");
    assert_eq!(Object::Null(Null {}).inspect(), "null");
    assert_eq!(Object::Null(Null {}).type_(), Type::NULL);
    assert_eq!(run("1").unwrap().type_(), Type::INTEGER);
    assert_eq!(run("true").unwrap().type_(), Type::BOOLEAN);
    assert_eq!(run("nobody").unwrap().type_(), Type::ERROR);
    assert_eq!(run("fn() { 1 }").unwrap().type_(), Type::FUNCTION);
    assert_eq!(Type::FUNCTION.name(), "FUNCTION");
    let copy = run("fn(a) { a }").unwrap().get_box();
    assert_eq!(copy.inspect(), "fn(a) { a; }");
}

#[test]
fn test_return_inside_an_operand() {
    // As an operand, a condition, the value of a `let` or an argument, a
    // block that returns is just its value.
    expect_integer("(if (true) { return 1; }) + 2", 3);
    expect_integer("2 * (if (true) { return 4; 5 })", 8);
    expect_integer("-(if (true) { return 4; })", -4);
    expect_integer("let x = if (true) { return 5; }; x + 1", 6);
    expect_integer("if (if (true) { return false; }) { 1 } else { 2 }", 2);
    expect_integer("fn(x) { x + 1 }(if (true) { return 1; })", 2);
    expect_error("(if (true) { return 1; }) + (2 + true)", "type mismatch: INTEGER + BOOLEAN");
}

#[test]
fn test_infix_absorbs_errors_in_order() {
    // The left operand's error wins, and the right operand is not evaluated.
    expect_error("left + (1 + true)", "unknown identifier: left");
    expect_error("(1 + true) + right", "type mismatch: INTEGER + BOOLEAN");
    expect_error("1 + right", "unknown identifier: right");
    let mut parser = Parser::new(Lexer::new(
        "nobody + (if (true) { let seen = 1; 2 })".to_string(),
    ));
    let statements = parser.parse();
    let mut env = Environment::new();
    assert!(is_error(statements[0].eval(&mut env).as_ref()));
    assert!(!env.has_key("seen"));
}
