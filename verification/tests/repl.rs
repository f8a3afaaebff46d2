use blang::program::Program;
use blang::repl::REPL;

fn lines(repl: &REPL, program: &mut Program, line: &str) -> Vec<String> {
    repl.feed(program, line.to_string())
}

#[test]
fn test_repl_keeps_the_session() {
    let repl = REPL::new(">> ".to_string());
    assert_eq!(repl.prompt(), ">> ");
    let mut program = Program::new(vec![]);
    assert_eq!(lines(&repl, &mut program, "let a = 5;"), Vec::<String>::new());
    assert_eq!(lines(&repl, &mut program, "a * 2"), vec!["10".to_string()]);
    assert_eq!(lines(&repl, &mut program, "let double = fn(x) { x * 2 };"), Vec::<String>::new());
    assert_eq!(lines(&repl, &mut program, "double(a) + 1"), vec!["11".to_string()]);
    assert_eq!(lines(&repl, &mut program, ""), Vec::<String>::new());
    assert_eq!(lines(&repl, &mut program, "if (false) { 1 }"), Vec::<String>::new());
    assert_eq!(lines(&repl, &mut program, "double"), vec!["fn(x) { (x * 2); }".to_string()]);
}

#[test]
fn test_repl_recovers_from_errors() {
    let repl = REPL::new("> ".to_string());
    let mut program = Program::new(vec![]);
    lines(&repl, &mut program, "let a = 1;");
    assert_eq!(
        lines(&repl, &mut program, "let b = 2; a + true; let c = 3;"),
        vec!["type mismatch: INTEGER + BOOLEAN".to_string()]
    );
    // The statement before the failing one counts, the ones from it on do not.
    assert_eq!(lines(&repl, &mut program, "b"), vec!["2".to_string()]);
    assert_eq!(
        lines(&repl, &mut program, "c"),
        vec!["unknown identifier: c".to_string()]
    );
    assert_eq!(lines(&repl, &mut program, "a + b"), vec!["3".to_string()]);
    assert_eq!(program.statements.len(), 4);
}

#[test]
fn test_repl_shows_parse_diagnostics() {
    let repl = REPL::new("> ".to_string());
    let mut program = Program::new(vec![]);
    assert_eq!(
        lines(&repl, &mut program, "let x 5;"),
        vec!["Expected next token to be INT, got ASSIGN instead".to_string()]
    );
    assert_eq!(
        lines(&repl, &mut program, "1 + 2; (3"),
        vec![
            "Expected next token to be EOF, got RPAREN instead".to_string(),
            "3".to_string()
        ]
    );
    assert_eq!(lines(&repl, &mut program, "7"), vec!["7".to_string()]);
}

#[test]
fn test_repl_stops_at_return() {
    let repl = REPL::new("> ".to_string());
    let mut program = Program::new(vec![]);
    assert_eq!(lines(&repl, &mut program, "1; return 2; 3"), vec!["2".to_string()]);
    // Nothing after a top-level return is ever evaluated.
    assert_eq!(lines(&repl, &mut program, "4"), vec!["2".to_string()]);
}
