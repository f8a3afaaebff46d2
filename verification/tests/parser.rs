use blang::ast::{precedence, Parser};
use blang::grammar::Precedence;
use blang::lexer::Lexer;
use blang::roundtrip::canonical_text;
use blang::spelling::{classes_confirmed, is_name, is_operator, regroup};
use blang::statements::{
    BlockStatement, BooleanExpression, CallExpression, ExpressionStatement,
    FunctionLiteralExpression, IdentifierExpression, IfExpression, InfixExpression,
    IntegerLiteralExpression, LetStatement, PrefixExpression, ProgramNode, ReturnStatement,
};
use blang::text::{decimal, natural, parse_decimal};
use blang::token::{Token, TokenType};

fn parse(source: &str) -> (Vec<ProgramNode>, Vec<String>) {
    let mut parser = Parser::new(Lexer::new(source.to_string()));
    let statements = parser.parse();
    let errors = parser.errors().clone();
    (statements, errors)
}

fn printed(source: &str) -> Vec<String> {
    let (statements, errors) = parse(source);
    assert_eq!(errors, Vec::<String>::new(), "{}", source);
    statements.iter().map(|s| s.to_string()).collect()
}

fn diagnostics(source: &str) -> Vec<String> {
    parse(source).1
}

#[test]
fn test_precedence_of_operators() {
    assert_eq!(printed("a + b * c"), vec!["(a + (b * c))"]);
    assert_eq!(printed("a * b + c"), vec!["((a * b) + c)"]);
    assert_eq!(printed("a == b < c"), vec!["(a == (b < c))"]);
    assert_eq!(
        printed("a + b * c + d / e - f"),
        vec!["(((a + (b * c)) + (d / e)) - f)"]
    );
    assert_eq!(printed("a - b - c"), vec!["((a - b) - c)"]);
    assert_eq!(printed("a / b / c"), vec!["((a / b) / c)"]);
    assert_eq!(printed("-a * b"), vec!["((-a) * b)"]);
    assert_eq!(printed("!a == b"), vec!["((!a) == b)"]);
    assert_eq!(printed("-f(x) + 1"), vec!["((-f(x)) + 1)"]);
    assert_eq!(printed("a + f(b * c)(d)"), vec!["(a + f((b * c))(d))"]);
    assert_eq!(printed("a != b > c"), vec!["(a != (b > c))"]);
}

#[test]
fn test_precedence_table() {
    assert_eq!(precedence(TokenType::EQ), Precedence::EQUALS);
    assert_eq!(precedence(TokenType::NEQ), Precedence::EQUALS);
    assert_eq!(precedence(TokenType::LT), Precedence::LESSGREATER);
    assert_eq!(precedence(TokenType::GT), Precedence::LESSGREATER);
    assert_eq!(precedence(TokenType::PLUS), Precedence::SUM);
    assert_eq!(precedence(TokenType::MINUS), Precedence::SUM);
    assert_eq!(precedence(TokenType::SLASH), Precedence::PRODUCT);
    assert_eq!(precedence(TokenType::ASTERISK), Precedence::PRODUCT);
    assert_eq!(precedence(TokenType::LPAREN), Precedence::CALL);
    assert_eq!(precedence(TokenType::IDENT), Precedence::LOWEST);
    assert_eq!(precedence(TokenType::SEMICOLON), Precedence::LOWEST);
    let order = [
        Precedence::LOWEST,
        Precedence::EQUALS,
        Precedence::LESSGREATER,
        Precedence::SUM,
        Precedence::PRODUCT,
        Precedence::PREFIX,
        Precedence::CALL,
    ];
    for i in 0..order.len() {
        assert_eq!(order[i].level() as usize, i);
    }
}

#[test]
fn test_printed_forms() {
    assert_eq!(printed("let x = 1 + 2;"), vec!["let x = (1 + 2)"]);
    assert_eq!(printed("return x;"), vec!["return x;"]);
    assert_eq!(printed("!x"), vec!["(!x)"]);
    assert_eq!(printed("if (a) { b }"), vec!["if a b;"]);
    assert_eq!(printed("if (a) { b; c } else { d }"), vec!["if a b; c; else d;"]);
    assert_eq!(printed("fn(a, b) { return a; }"), vec!["fn(a, b) { return a;; }"]);
    assert_eq!(printed("fn() {}"), vec!["fn() {  }"]);
    assert_eq!(printed("f()"), vec!["f()"]);
    assert_eq!(printed("f(1)(2, 3)"), vec!["f(1)(2, 3)"]);
    assert_eq!(printed("007"), vec!["7"]);
    assert_eq!(printed("true; false"), vec!["true", "false"]);
    assert_eq!(printed(";;1;;2;"), vec!["1", "2"]);
    assert_eq!(printed(""), Vec::<String>::new());
}

#[test]
fn test_printing_parses_back() {
    for source in [
        "a + b * c + d / e - f",
        "-a * !b",
        "f(x, y + 1)(z)",
        "fn(x, y) { x + y; }",
        "let x = fn(a) { a * 2 }(4)",
        "return (1 + 2) * 3;",
        "5 > 4 == 3 < 4",
    ] {
        let once = printed(source);
        let again = printed(&once.join("; "));
        assert_eq!(once, again, "{}", source);
    }
}

#[test]
fn test_expression_statement_keeps_first_token() {
    let (statements, _) = parse("a + b; f(1); -x; (1 + 2)");
    assert_eq!(statements[0].token_literal(), Some("a".to_string()));
    assert_eq!(statements[1].token_literal(), Some("f".to_string()));
    assert_eq!(statements[2].token_literal(), Some("-".to_string()));
    assert_eq!(statements[3].token_literal(), Some("(".to_string()));
    match &statements[0] {
        ProgramNode::Expression(s) => {
            assert_eq!(s.expression.token_literal(), Some("+".to_string()))
        }
        _ => panic!("not an expression statement"),
    }
}

#[test]
fn test_parse_diagnostics() {
    assert_eq!(
        diagnostics("let 5 = 3;"),
        vec!["Expected next token to be INT, got IDENT instead"]
    );
    assert_eq!(
        diagnostics("let x 3;"),
        vec!["Expected next token to be INT, got ASSIGN instead"]
    );
    assert_eq!(
        diagnostics("(1 + 2"),
        vec!["Expected next token to be EOF, got RPAREN instead"]
    );
    assert_eq!(
        diagnostics("if x { 1 }"),
        vec!["Expected next token to be IDENT, got LPAREN instead"]
    );
    assert_eq!(
        diagnostics("if (x) 1"),
        vec!["Expected next token to be INT, got LBRACE instead"]
    );
    assert_eq!(
        diagnostics("if (x) { 1 } else 2"),
        vec!["Expected next token to be INT, got LBRACE instead"]
    );
    assert_eq!(
        diagnostics("fn x { 1 }"),
        vec!["Expected next token to be IDENT, got LPAREN instead"]
    );
    assert_eq!(
        diagnostics("fn(1) { 1 }"),
        vec!["Expected next token to be INT, got IDENT instead"]
    );
    assert_eq!(
        diagnostics("fn(a, 1) { 1 }"),
        vec!["Expected next token to be INT, got IDENT instead"]
    );
    assert_eq!(
        diagnostics("fn(a b) { 1 }"),
        vec!["Expected next token to be IDENT, got RPAREN instead"]
    );
    assert_eq!(
        diagnostics("fn(a) 1"),
        vec!["Expected next token to be INT, got LBRACE instead"]
    );
    assert_eq!(
        diagnostics("f(1, 2"),
        vec!["Expected next token to be EOF, got RPAREN instead"]
    );
    assert_eq!(diagnostics("+ 1"), vec!["No prefix parse function for PLUS found"]);
    assert_eq!(diagnostics("1 + "), vec!["No prefix parse function for EOF found"]);
    assert_eq!(diagnostics("}"), vec!["No prefix parse function for RBRACE found"]);
    assert_eq!(diagnostics("@"), vec!["No prefix parse function for ILLEGAL found"]);
    assert_eq!(diagnostics("else"), vec!["No prefix parse function for ELSE found"]);
    assert_eq!(
        diagnostics("9223372036854775808"),
        vec!["Could not parse 9223372036854775808 as integer"]
    );
    assert_eq!(
        diagnostics("\u{663}"),
        vec!["Could not parse \u{663} as integer"]
    );
}

#[test]
fn test_parse_stops_at_first_failure() {
    let (statements, errors) = parse("1; let a = 2; let = 3; 4; (5");
    assert_eq!(statements.len(), 2);
    assert_eq!(statements[0].to_string(), "1");
    assert_eq!(statements[1].to_string(), "let a = 2");
    assert_eq!(errors, vec!["Expected next token to be ASSIGN, got IDENT instead"]);
}

#[test]
fn test_block_without_closing_brace() {
    let (statements, errors) = parse("if (a) { b; c");
    assert_eq!(errors, Vec::<String>::new());
    assert_eq!(statements.len(), 1);
    assert_eq!(statements[0].to_string(), "if a b; c;");
}

#[test]
fn test_decimal_numerals() {
    assert_eq!(parse_decimal("0"), Some(0));
    assert_eq!(parse_decimal("42"), Some(42));
    assert_eq!(parse_decimal("0042"), Some(42));
    assert_eq!(parse_decimal("9223372036854775807"), Some(i64::MAX));
    assert_eq!(parse_decimal("9223372036854775808"), None);
    assert_eq!(parse_decimal("99999999999999999999999"), None);
    assert_eq!(parse_decimal(""), None);
    assert_eq!(parse_decimal("-1"), None);
    assert_eq!(parse_decimal("+1"), None);
    assert_eq!(parse_decimal("1a"), None);
    assert_eq!(parse_decimal("\u{663}"), None);
    assert_eq!(decimal(0), "0");
    assert_eq!(decimal(7), "7");
    assert_eq!(decimal(-7), "-7");
    assert_eq!(decimal(1234567890), "1234567890");
    assert_eq!(decimal(i64::MAX), "9223372036854775807");
    assert_eq!(decimal(i64::MIN), "-9223372036854775808");
    assert_eq!(natural(0), "0");
    assert_eq!(natural(305), "305");
}

#[test]
fn test_nodes_built_by_hand() {
    let name = || {
        Box::new(ProgramNode::Identifier(IdentifierExpression::new(
            Token::new(TokenType::IDENT, Some("x")),
            "x".to_string(),
        )))
    };
    let one = || {
        Box::new(ProgramNode::Integer(IntegerLiteralExpression::new(
            Token::new(TokenType::INT, Some("1")),
            1,
        )))
    };
    let yes = ProgramNode::Boolean(BooleanExpression::new(
        Token::new(TokenType::TRUE, Some("true")),
        true,
    ));
    assert_eq!(yes.to_string(), "true");
    let sum = ProgramNode::Infix(InfixExpression::new(
        Token::new(TokenType::PLUS, Some("+")),
        name(),
        "+".to_string(),
        one(),
    ));
    assert_eq!(sum.to_string(), "(x + 1)");
    let negative = ProgramNode::Prefix(PrefixExpression::new(
        Token::new(TokenType::MINUS, Some("-")),
        "-".to_string(),
        one(),
    ));
    assert_eq!(negative.to_string(), "(-1)");
    let binding = ProgramNode::Let(LetStatement::new(
        Token::new(TokenType::LET, Some("let")),
        name(),
        Box::new(sum.get_copy()),
    ));
    assert_eq!(binding.to_string(), "let x = (x + 1)");
    let bare = ProgramNode::Let(LetStatement::new(
        Token::new(TokenType::LET, None),
        name(),
        one(),
    ));
    assert_eq!(bare.to_string(), " x = 1");
    assert_eq!(bare.token_literal(), None);
    let back = ProgramNode::Return(ReturnStatement::new(
        Token::new(TokenType::RETURN, Some("return")),
        name(),
    ));
    assert_eq!(back.to_string(), "return x;");
    let statement = ProgramNode::Expression(ExpressionStatement::new(
        Token::new(TokenType::INT, Some("1")),
        one(),
    ));
    assert_eq!(statement.to_string(), "1");
    let body = || {
        Box::new(ProgramNode::Block(BlockStatement::new(
            Token::new(TokenType::LBRACE, Some("{")),
            vec![back.get_copy(), statement.get_copy()],
        )))
    };
    assert_eq!(body().to_string(), "return x;; 1;");
    let choice = ProgramNode::If(IfExpression::new(
        Token::new(TokenType::IF, Some("if")),
        name(),
        body(),
        Some(body()),
    ));
    assert_eq!(choice.to_string(), "if x return x;; 1; else return x;; 1;");
    let function = ProgramNode::Function(FunctionLiteralExpression::new(
        Token::new(TokenType::FUNCTION, Some("fn")),
        vec![*name(), *name()],
        body(),
    ));
    assert_eq!(function.to_string(), "fn(x, x) { return x;; 1; }");
    let call = ProgramNode::Call(CallExpression::new(
        Token::new(TokenType::LPAREN, Some("(")),
        Box::new(function.get_copy()),
        vec![*one()],
    ));
    assert_eq!(call.to_string(), "fn(x, x) { return x;; 1; }(1)");
    assert_eq!(call.get_copy().to_string(), call.to_string());
    assert_eq!(call.token_literal(), Some("(".to_string()));
}

#[test]
fn test_character_classes() {
    // What the proofs about printed forms take as given holds of the
    // standard library at hand.
    assert!(classes_confirmed());
    assert!(!'='.is_whitespace());
}

#[test]
fn test_printing_is_a_fixed_point() {
    for source in [
        "a+b*c; let  x=007; return -x;",
        "fn(a,b){let c=a+b;return c}(1,2)",
        "!true==false; f(g(1),h)(2)",
        "let twice = fn(f, x) { f(f(x)) }; twice(fn(n) { n + 3 }, 1)",
    ] {
        let (first, errors) = parse(source);
        assert_eq!(errors, Vec::<String>::new(), "{}", source);
        let printed: Vec<String> = first.iter().map(|s| format!("{};", s.to_string())).collect();
        let text = printed.join(" ");
        let (second, errors) = parse(&text);
        assert_eq!(errors, Vec::<String>::new(), "{}", text);
        assert_eq!(second.len(), first.len());
        let again: Vec<String> = second.iter().map(|s| format!("{};", s.to_string())).collect();
        assert_eq!(again.join(" "), text);
        // Parsing the printed form once more changes nothing at all.
        let (third, _) = parse(&again.join(" "));
        for i in 0..second.len() {
            assert_eq!(second[i].token_literal(), third[i].token_literal());
            assert_eq!(second[i].token().token_type, third[i].token().token_type);
        }
    }
}

#[test]
fn test_regroup() {
    assert_eq!(regroup("a", "+", "b", "*", "c"), Some("(a + (b * c))".to_string()));
    assert_eq!(regroup("a", "*", "b", "+", "c"), Some("((a * b) + c)".to_string()));
    assert_eq!(regroup("a", "==", "b", "<", "c"), Some("(a == (b < c))".to_string()));
    assert_eq!(regroup("x", "-", "y", "-", "z"), Some("((x - y) - z)".to_string()));
    assert_eq!(regroup("x", "/", "y", "*", "z"), Some("((x / y) * z)".to_string()));
    assert_eq!(regroup("x", "!=", "y", ">", "z"), Some("(x != (y > z))".to_string()));
    assert_eq!(regroup("foo", "+", "bar", "==", "baz"), Some("((foo + bar) == baz)".to_string()));
    assert_eq!(regroup("let", "+", "b", "*", "c"), None);
    assert_eq!(regroup("a", "=", "b", "*", "c"), None);
    assert_eq!(regroup("a", "+", "b2", "*", "c"), None);
    assert_eq!(regroup("", "+", "b", "*", "c"), None);
    assert_eq!(regroup("a", "+", "b", "*", "c d"), None);
}

#[test]
fn test_names_and_operators() {
    assert!(is_name("x"));
    assert!(is_name("foobar"));
    assert!(is_name("\u{e9}t\u{e9}"));
    assert!(!is_name(""));
    assert!(!is_name("x1"));
    assert!(!is_name("a b"));
    assert!(!is_name("a_b"));
    for keyword in ["let", "fn", "if", "else", "return", "true", "false"] {
        assert!(!is_name(keyword), "{}", keyword);
    }
    for operator in ["+", "-", "*", "/", "<", ">", "==", "!="] {
        assert!(is_operator(operator), "{}", operator);
    }
    for other in ["", "=", "!", "++", "<=", "(", "a"] {
        assert!(!is_operator(other), "{}", other);
    }
}

#[test]
fn test_canonical_text() {
    assert_eq!(
        canonical_text("a+b*c; let  x=007; return -x".to_string()),
        Some("(a + (b * c)); let x = 7; return (-x);;".to_string())
    );
    assert_eq!(canonical_text("".to_string()), Some("".to_string()));
    assert_eq!(
        canonical_text("fn(a,b){a;b}(1)".to_string()),
        Some("fn(a, b) { a; b; }(1);".to_string())
    );
    // The canonical text of a canonical text is that text.
    for source in ["a+b*c; let  x=007; return -x", "f(g(1),h)(2); !true==false"] {
        let once = canonical_text(source.to_string()).unwrap();
        assert_eq!(canonical_text(once.clone()), Some(once));
    }
    // What was read before the first failure is printed.
    assert_eq!(canonical_text("1 + 2; let = 3".to_string()), Some("(1 + 2);".to_string()));
}
