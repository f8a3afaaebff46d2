use blang::lexer::{tokenize, Lexer};
use blang::token::{Token, TokenType};

#[test]
fn test_single_lexer() {
    let test_string = "=+(){},;".to_string();

    let test_tokens: Vec<Token> = vec![
        Token::new(TokenType::ASSIGN, Some("=")),
        Token::new(TokenType::PLUS, Some("+")),
        Token::new(TokenType::LPAREN, Some("(")),
        Token::new(TokenType::RPAREN, Some(")")),
        Token::new(TokenType::LBRACE, Some("{")),
        Token::new(TokenType::RBRACE, Some("}")),
        Token::new(TokenType::COMMA, Some(",")),
        Token::new(TokenType::SEMICOLON, Some(";")),
        Token::new(TokenType::EOF, None),
    ];

    let mut lexer = Lexer::new(test_string);

    for test_token in test_tokens {
        let token = lexer.next_token();
        assert_eq!(token, test_token);
    }
}

#[test]
fn test_multiline_lexer() {
    let test_string = r#"let five = 5;
        let ten = 10;

        let add = fn(x, y) {
            x + y;
        };

        let result = add(five, ten);"#
        .to_string();

    let test_tokens: Vec<Token> = vec![
        Token::new(TokenType::LET, Some("let")),
        Token::new(TokenType::IDENT, Some("five")),
        Token::new(TokenType::ASSIGN, Some("=")),
        Token::new(TokenType::INT, Some("5")),
        Token::new(TokenType::SEMICOLON, Some(";")),
        Token::new(TokenType::LET, Some("let")),
        Token::new(TokenType::IDENT, Some("ten")),
        Token::new(TokenType::ASSIGN, Some("=")),
        Token::new(TokenType::INT, Some("10")),
        Token::new(TokenType::SEMICOLON, Some(";")),
        Token::new(TokenType::LET, Some("let")),
        Token::new(TokenType::IDENT, Some("add")),
        Token::new(TokenType::ASSIGN, Some("=")),
        Token::new(TokenType::FUNCTION, Some("fn")),
        Token::new(TokenType::LPAREN, Some("(")),
        Token::new(TokenType::IDENT, Some("x")),
        Token::new(TokenType::COMMA, Some(",")),
        Token::new(TokenType::IDENT, Some("y")),
        Token::new(TokenType::RPAREN, Some(")")),
        Token::new(TokenType::LBRACE, Some("{")),
        Token::new(TokenType::IDENT, Some("x")),
        Token::new(TokenType::PLUS, Some("+")),
        Token::new(TokenType::IDENT, Some("y")),
        Token::new(TokenType::SEMICOLON, Some(";")),
        Token::new(TokenType::RBRACE, Some("}")),
        Token::new(TokenType::SEMICOLON, Some(";")),
        Token::new(TokenType::LET, Some("let")),
        Token::new(TokenType::IDENT, Some("result")),
        Token::new(TokenType::ASSIGN, Some("=")),
        Token::new(TokenType::IDENT, Some("add")),
        Token::new(TokenType::LPAREN, Some("(")),
        Token::new(TokenType::IDENT, Some("five")),
        Token::new(TokenType::COMMA, Some(",")),
        Token::new(TokenType::IDENT, Some("ten")),
        Token::new(TokenType::RPAREN, Some(")")),
        Token::new(TokenType::SEMICOLON, Some(";")),
    ];

    let mut lexer = Lexer::new(test_string);
    for test_token in test_tokens {
        let token = lexer.next_token();
        assert_eq!(token, test_token);
    }
}

#[test]
fn test_extended_lexer() {
    let test_string = r#"let five = 5;
        let ten = 10;

        let add = fn(x, y) {
            x + y;
        };
        
        let result = add(five, ten);
        !-/*5;
        5 < 10 > 5;
        
        "#;

    let test_tokens = vec![
        Token::new(TokenType::LET, Some("let")),
        Token::new(TokenType::IDENT, Some("five")),
        Token::new(TokenType::ASSIGN, Some("=")),
        Token::new(TokenType::INT, Some("5")),
        Token::new(TokenType::SEMICOLON, Some(";")),
        Token::new(TokenType::LET, Some("let")),
        Token::new(TokenType::IDENT, Some("ten")),
        Token::new(TokenType::ASSIGN, Some("=")),
        Token::new(TokenType::INT, Some("10")),
        Token::new(TokenType::SEMICOLON, Some(";")),
        Token::new(TokenType::LET, Some("let")),
        Token::new(TokenType::IDENT, Some("add")),
        Token::new(TokenType::ASSIGN, Some("=")),
        Token::new(TokenType::FUNCTION, Some("fn")),
        Token::new(TokenType::LPAREN, Some("(")),
        Token::new(TokenType::IDENT, Some("x")),
        Token::new(TokenType::COMMA, Some(",")),
        Token::new(TokenType::IDENT, Some("y")),
        Token::new(TokenType::RPAREN, Some(")")),
        Token::new(TokenType::LBRACE, Some("{")),
        Token::new(TokenType::IDENT, Some("x")),
        Token::new(TokenType::PLUS, Some("+")),
        Token::new(TokenType::IDENT, Some("y")),
        Token::new(TokenType::SEMICOLON, Some(";")),
        Token::new(TokenType::RBRACE, Some("}")),
        Token::new(TokenType::SEMICOLON, Some(";")),
        Token::new(TokenType::LET, Some("let")),
        Token::new(TokenType::IDENT, Some("result")),
        Token::new(TokenType::ASSIGN, Some("=")),
        Token::new(TokenType::IDENT, Some("add")),
        Token::new(TokenType::LPAREN, Some("(")),
        Token::new(TokenType::IDENT, Some("five")),
        Token::new(TokenType::COMMA, Some(",")),
        Token::new(TokenType::IDENT, Some("ten")),
        Token::new(TokenType::RPAREN, Some(")")),
        Token::new(TokenType::SEMICOLON, Some(";")),
        Token::new(TokenType::BANG, Some("!")),
        Token::new(TokenType::MINUS, Some("-")),
        Token::new(TokenType::SLASH, Some("/")),
        Token::new(TokenType::ASTERISK, Some("*")),
        Token::new(TokenType::INT, Some("5")),
        Token::new(TokenType::SEMICOLON, Some(";")),
        Token::new(TokenType::INT, Some("5")),
        Token::new(TokenType::LT, Some("<")),
        Token::new(TokenType::INT, Some("10")),
        Token::new(TokenType::GT, Some(">")),
        Token::new(TokenType::INT, Some("5")),
        Token::new(TokenType::SEMICOLON, Some(";")),
    ];

    let mut lexer = Lexer::new(test_string.to_string());
    for test_token in test_tokens {
        let token = lexer.next_token();
        assert_eq!(token, test_token);
    }
}

#[test]
fn test_if_else_lexer() {
    let test_string = r#"let x = 5;
        let y = 10;

        if (y > x) {
            return true;
        } else {
            return false;
        }
        "#;

    let test_tokens = vec![
        Token::new(TokenType::LET, Some("let")),
        Token::new(TokenType::IDENT, Some("x")),
        Token::new(TokenType::ASSIGN, Some("=")),
        Token::new(TokenType::INT, Some("5")),
        Token::new(TokenType::SEMICOLON, Some(";")),
        Token::new(TokenType::LET, Some("let")),
        Token::new(TokenType::IDENT, Some("y")),
        Token::new(TokenType::ASSIGN, Some("=")),
        Token::new(TokenType::INT, Some("10")),
        Token::new(TokenType::SEMICOLON, Some(";")),
        Token::new(TokenType::IF, Some("if")),
        Token::new(TokenType::LPAREN, Some("(")),
        Token::new(TokenType::IDENT, Some("y")),
        Token::new(TokenType::GT, Some(">")),
        Token::new(TokenType::IDENT, Some("x")),
        Token::new(TokenType::RPAREN, Some(")")),
        Token::new(TokenType::LBRACE, Some("{")),
        Token::new(TokenType::RETURN, Some("return")),
        Token::new(TokenType::TRUE, Some("true")),
        Token::new(TokenType::SEMICOLON, Some(";")),
        Token::new(TokenType::RBRACE, Some("}")),
        Token::new(TokenType::ELSE, Some("else")),
        Token::new(TokenType::LBRACE, Some("{")),
        Token::new(TokenType::RETURN, Some("return")),
        Token::new(TokenType::FALSE, Some("false")),
        Token::new(TokenType::SEMICOLON, Some(";")),
        Token::new(TokenType::RBRACE, Some("}")),
    ];
    let mut lexer = Lexer::new(test_string.to_string());
    for test_token in test_tokens {
        let token = lexer.next_token();
        assert_eq!(token, test_token);
    }
}

#[test]
fn test_eq_neq_lexer() {
    let test_string = r#"
            let x = 5;
            10 == 15;
            12 != 9;
            "#;

    let test_tokens = vec![
        Token::new(TokenType::LET, Some("let")),
        Token::new(TokenType::IDENT, Some("x")),
        Token::new(TokenType::ASSIGN, Some("=")),
        Token::new(TokenType::INT, Some("5")),
        Token::new(TokenType::SEMICOLON, Some(";")),
        Token::new(TokenType::INT, Some("10")),
        Token::new(TokenType::EQ, Some("==")),
        Token::new(TokenType::INT, Some("15")),
        Token::new(TokenType::SEMICOLON, Some(";")),
        Token::new(TokenType::INT, Some("12")),
        Token::new(TokenType::NEQ, Some("!=")),
        Token::new(TokenType::INT, Some("9")),
        Token::new(TokenType::SEMICOLON, Some(";")),
    ];

    let mut lexer = Lexer::new(test_string.to_string());
    for test_token in test_tokens {
        let token = lexer.next_token();
        assert_eq!(token, test_token);
    }
}

#[test]
fn test_compare_lexer() {
    let mut lexer = Lexer::new("5 == 10; 12 != 9;".to_string());
    let expected = vec![
        Token::new(TokenType::INT, Some("5")),
        Token::new(TokenType::EQ, Some("==")),
        Token::new(TokenType::INT, Some("10")),
        Token::new(TokenType::SEMICOLON, Some(";")),
        Token::new(TokenType::INT, Some("12")),
        Token::new(TokenType::NEQ, Some("!=")),
        Token::new(TokenType::INT, Some("9")),
        Token::new(TokenType::SEMICOLON, Some(";")),
        Token::new(TokenType::EOF, None),
    ];
    for want in expected {
        assert_eq!(lexer.next_token(), want);
    }
}

#[test]
fn test_eof_repeats() {
    let mut lexer = Lexer::new("x".to_string());
    assert_eq!(lexer.next_token(), Token::new(TokenType::IDENT, Some("x")));
    for _ in 0..5 {
        assert_eq!(lexer.next_token(), Token::new(TokenType::EOF, None));
    }
}

#[test]
fn test_empty_input_lexer() {
    let mut lexer = Lexer::new(String::new());
    assert_eq!(lexer.next_token(), Token::new(TokenType::EOF, None));
    let mut blank = Lexer::new("  \t\n ".to_string());
    assert_eq!(blank.next_token(), Token::new(TokenType::EOF, None));
}

#[test]
fn test_illegal_lexer() {
    let mut lexer = Lexer::new("a @ 1_".to_string());
    assert_eq!(lexer.next_token(), Token::new(TokenType::IDENT, Some("a")));
    assert_eq!(lexer.next_token(), Token::new(TokenType::ILLEGAL, None));
    assert_eq!(lexer.next_token(), Token::new(TokenType::INT, Some("1")));
    assert_eq!(lexer.next_token(), Token::new(TokenType::ILLEGAL, None));
    assert_eq!(lexer.next_token(), Token::new(TokenType::EOF, None));
}

#[test]
fn test_lookahead_lexer() {
    let mut lexer = Lexer::new("= == ! != === !==".to_string());
    let expected = vec![
        Token::new(TokenType::ASSIGN, Some("=")),
        Token::new(TokenType::EQ, Some("==")),
        Token::new(TokenType::BANG, Some("!")),
        Token::new(TokenType::NEQ, Some("!=")),
        Token::new(TokenType::EQ, Some("==")),
        Token::new(TokenType::ASSIGN, Some("=")),
        Token::new(TokenType::NEQ, Some("!=")),
        Token::new(TokenType::ASSIGN, Some("=")),
        Token::new(TokenType::EOF, None),
    ];
    for want in expected {
        assert_eq!(lexer.next_token(), want);
    }
}

#[test]
fn test_words_and_numbers_lexer() {
    let mut lexer = Lexer::new("letter let fnx fn a1 12ab \u{e9}t\u{e9}".to_string());
    let expected = vec![
        Token::new(TokenType::IDENT, Some("letter")),
        Token::new(TokenType::LET, Some("let")),
        Token::new(TokenType::IDENT, Some("fnx")),
        Token::new(TokenType::FUNCTION, Some("fn")),
        Token::new(TokenType::IDENT, Some("a")),
        Token::new(TokenType::INT, Some("1")),
        Token::new(TokenType::INT, Some("12")),
        Token::new(TokenType::IDENT, Some("ab")),
        Token::new(TokenType::IDENT, Some("\u{e9}t\u{e9}")),
        Token::new(TokenType::EOF, None),
    ];
    for want in expected {
        assert_eq!(lexer.next_token(), want);
    }
}

#[test]
fn test_unicode_classes_lexer() {
    // U+00A0 is whitespace, U+0663 is numeric but no ASCII digit.
    let mut lexer = Lexer::new("a\u{a0}b \u{663}".to_string());
    assert_eq!(lexer.next_token(), Token::new(TokenType::IDENT, Some("a")));
    assert_eq!(lexer.next_token(), Token::new(TokenType::IDENT, Some("b")));
    assert_eq!(lexer.next_token(), Token::new(TokenType::INT, Some("\u{663}")));
    assert_eq!(lexer.next_token(), Token::new(TokenType::EOF, None));
}

#[test]
fn test_read_and_peek_char() {
    let mut lexer = Lexer::new("ab".to_string());
    assert_eq!(lexer.peek_char(), Some('a'));
    lexer.read_char();
    assert_eq!(lexer.peek_char(), Some('b'));
    lexer.read_char();
    assert_eq!(lexer.peek_char(), None);
    lexer.read_char();
    assert_eq!(lexer.peek_char(), None);
    assert_eq!(lexer.next_token(), Token::new(TokenType::EOF, None));
}

#[test]
fn test_literals_cover_input() {
    let source = "let add = fn(x, y) { x + y; };\n if (a != b) { return !true } else { 10 / 2 }";
    let mut lexer = Lexer::new(source.to_string());
    let mut joined = String::new();
    loop {
        let token = lexer.next_token();
        assert_ne!(token.token_type, TokenType::ILLEGAL);
        if token.token_type == TokenType::EOF {
            break;
        }
        joined.push_str(&token.literal.unwrap());
    }
    let stripped: String = source.chars().filter(|c| !c.is_whitespace()).collect();
    assert_eq!(joined, stripped);
}

#[test]
fn test_token_new_copies_literal() {
    let token = Token::new(TokenType::IDENT, Some("name"));
    assert_eq!(token.token_type, TokenType::IDENT);
    assert_eq!(token.literal, Some("name".to_string()));
    assert_eq!(token.text(), "name");
    let bare = Token::new(TokenType::EOF, None);
    assert_eq!(bare.literal, None);
    assert_eq!(bare.text(), "");
    assert_eq!(token.clone(), token);
    assert_eq!(TokenType::LBRACE.name(), "LBRACE");
}

#[test]
fn test_tokenize() {
    assert_eq!(
        tokenize("5 == 10; 12 != 9;".to_string()),
        vec![
            Token::new(TokenType::INT, Some("5")),
            Token::new(TokenType::EQ, Some("==")),
            Token::new(TokenType::INT, Some("10")),
            Token::new(TokenType::SEMICOLON, Some(";")),
            Token::new(TokenType::INT, Some("12")),
            Token::new(TokenType::NEQ, Some("!=")),
            Token::new(TokenType::INT, Some("9")),
            Token::new(TokenType::SEMICOLON, Some(";")),
            Token::new(TokenType::EOF, None),
        ]
    );
    assert_eq!(tokenize(String::new()), vec![Token::new(TokenType::EOF, None)]);
    assert_eq!(tokenize(" \n ".to_string()), vec![Token::new(TokenType::EOF, None)]);
    assert_eq!(
        tokenize("a@".to_string()),
        vec![
            Token::new(TokenType::IDENT, Some("a")),
            Token::new(TokenType::ILLEGAL, None),
            Token::new(TokenType::EOF, None),
        ]
    );
    let source = "let add = fn(x, y) { x + y; }; add(1, 2) != 3";
    let joined: String = tokenize(source.to_string())
        .into_iter()
        .map(|t| t.literal.unwrap_or_default())
        .collect();
    let stripped: String = source.chars().filter(|c| !c.is_whitespace()).collect();
    assert_eq!(joined, stripped);
}

#[test]
fn test_reading_past_the_end() {
    let mut lexer = Lexer::new("a".to_string());
    lexer.read_char();
    for _ in 0..4 {
        lexer.read_char();
        assert_eq!(lexer.peek_char(), None);
    }
    assert_eq!(lexer.next_token(), Token::new(TokenType::EOF, None));
    let mut word = Lexer::new("ab".to_string());
    assert_eq!(word.next_token(), Token::new(TokenType::IDENT, Some("ab")));
    assert_eq!(word.peek_char(), None);
    assert_eq!(word.next_token(), Token::new(TokenType::EOF, None));
    assert_eq!(word.next_token(), Token::new(TokenType::EOF, None));
}
