use gibbon::ast::{Expression, Node, Statement};
use gibbon::digits::{int_to_string, parse_i64};
use gibbon::lexer::Lexer;
use gibbon::object::{Boolean, Integer, Null, ObjectKind, ObjectType};
use gibbon::parser::Parser;
use gibbon::token::{lookup_ident, Kind, Token};

fn parse(input: &str) -> (gibbon::ast::Program, Vec<String>) {
    let lexer = Lexer::new(input.to_string());
    let mut parser = Parser::new(lexer);
    let program = parser.parse_program();
    (program, parser.errors)
}

#[test]
fn token_category_sequence() {
    // All one-character operators and delimiters in a row, then end of
    // input.
    let mut lexer = Lexer::new("=+(){},;".to_string());
    let expected = vec![
        Kind::Assign,
        Kind::Plus,
        Kind::LParen,
        Kind::RParen,
        Kind::LBrace,
        Kind::RBrace,
        Kind::Comma,
        Kind::SemiColon,
    ];
    for kind in expected {
        assert_eq!(lexer.next().unwrap().kind, kind);
    }
    assert_eq!(lexer.next(), None);
}

#[test]
fn illegal_character_has_empty_literal() {
    let mut lexer = Lexer::new("@".to_string());
    let token = lexer.next().unwrap();
    assert_eq!(token.kind, Kind::Illegal);
    assert_eq!(token.literal, "");
    assert_eq!(lexer.next(), None);
}

#[test]
fn keyword_lookup() {
    assert_eq!(lookup_ident("fn"), Kind::Function);
    assert_eq!(lookup_ident("let"), Kind::Let);
    assert_eq!(lookup_ident("true"), Kind::True);
    assert_eq!(lookup_ident("false"), Kind::False);
    assert_eq!(lookup_ident("if"), Kind::If);
    assert_eq!(lookup_ident("else"), Kind::Else);
    assert_eq!(lookup_ident("return"), Kind::Return);
    assert_eq!(lookup_ident("lets"), Kind::Ident);
    assert_eq!(lookup_ident("fnord"), Kind::Ident);
    assert_eq!(lookup_ident("_"), Kind::Ident);
}

#[test]
fn token_new_carries_kind_and_literal() {
    let token = Token::new(Kind::Ident, "abc".to_string());
    assert_eq!(token.kind, Kind::Ident);
    assert_eq!(token.literal, "abc");
}

#[test]
fn let_binding_families() {
    // Any identifier bound to any integer parses to exactly one binding.
    for (name, number) in vec![("x", "5"), ("foo_bar", "0"), ("loooong", "838383")] {
        let input = format!("let {name} = {number};");
        let (program, errors) = parse(&input);
        assert_eq!(errors.len(), 0);
        assert_eq!(program.statements.len(), 1);
        match &program.statements[0] {
            Statement::Let { name: bound, value } => {
                assert_eq!(bound.value, name);
                match value {
                    Expression::IntegerLiteral(v) => {
                        assert_eq!(*v, number.parse::<i64>().unwrap())
                    }
                    e => panic!("{e:?} is not an integer literal"),
                }
            }
            s => panic!("{s:?} is not a let statement"),
        }
    }
}

#[test]
fn malformed_let_missing_assign() {
    // The binding is abandoned with exactly one message naming the
    // expected and the found category; the parser does not panic and no
    // usable let statement is produced.
    let (program, errors) = parse("let x 5;");
    assert_eq!(errors.len(), 1);
    assert_eq!(errors[0], "expected next token to be Assign, got Int instead");
    for statement in &program.statements {
        assert!(!matches!(statement, Statement::Let { .. }));
    }
}

#[test]
fn malformed_let_missing_name() {
    let (program, errors) = parse("let = 5;");
    assert_eq!(errors.len(), 1);
    assert_eq!(errors[0], "expected next token to be Ident, got Assign instead");
    for statement in &program.statements {
        assert!(!matches!(statement, Statement::Let { .. }));
    }
}

#[test]
fn missing_closing_parenthesis() {
    let (_, errors) = parse("(1 + 2;");
    assert_eq!(errors.len(), 1);
    assert_eq!(
        errors[0],
        "expected next token to be RParen, got SemiColon instead"
    );
}

#[test]
fn integer_literal_too_large() {
    // One past the largest 64-bit signed integer is a parse error, not a
    // silent truncation.
    let (program, errors) = parse("9223372036854775808;");
    assert_eq!(program.statements.len(), 0);
    assert_eq!(errors.len(), 1);
    assert_eq!(errors[0], "could not parse 9223372036854775808 as integer");
}

#[test]
fn integer_literal_at_limit() {
    let (program, errors) = parse("9223372036854775807;");
    assert_eq!(errors.len(), 0);
    assert_eq!(program.statements.len(), 1);
    match &program.statements[0] {
        Statement::Expression { expression: Expression::IntegerLiteral(v), .. } => {
            assert_eq!(*v, i64::MAX)
        }
        s => panic!("{s:?} is not an integer literal statement"),
    }
}

#[test]
fn empty_input_parses_to_nothing() {
    let (program, errors) = parse("");
    assert_eq!(program.statements.len(), 0);
    assert_eq!(errors.len(), 0);
}

#[test]
fn unknown_prefix_yields_no_statement() {
    // A character with no prefix rule aborts the expression without
    // recording a message of its own.
    let (program, errors) = parse("@");
    assert_eq!(program.statements.len(), 0);
    assert_eq!(errors.len(), 0);
}

#[test]
fn call_arguments_round_trip() {
    let (program, errors) = parse("add(a, b, 1, 2 * 3, 4 + 5, add(6, 7 * 8))");
    assert_eq!(errors.len(), 0);
    assert_eq!(
        program.render(),
        "add(a, b, 1, (2 * 3), (4 + 5), add(6, (7 * 8)))"
    );
}

#[test]
fn rendering_is_a_fixed_point() {
    // Re-tokenizing and re-parsing a rendering reproduces it exactly:
    // the fully parenthesized form is precedence-unambiguous.
    let inputs = vec![
        "let x = 5;",
        "let a = 1;let b = 2;",
        "return 10;",
        "-a * b",
        "a + b * c + d / e - f",
        "1 + (2 + 3) + 4",
        "add(a, b, 1, 2 * 3, 4 + 5, add(6, 7 * 8))",
        "f(a)(b)",
        "!(true == true)",
    ];
    for input in inputs {
        let (program, errors) = parse(input);
        assert_eq!(errors.len(), 0);
        let first = program.render();
        let (reparsed, errors2) = parse(&first);
        assert_eq!(errors2.len(), 0);
        assert_eq!(reparsed.render(), first);
    }
}

#[test]
fn statement_token_literals() {
    let (program, errors) = parse("let x = 1; return 2; foo");
    assert_eq!(errors.len(), 0);
    assert_eq!(program.statements.len(), 3);
    assert_eq!(program.statements[0].token_literal(), "let");
    assert_eq!(program.statements[1].token_literal(), "return");
    assert_eq!(program.statements[2].token_literal(), "foo");
    assert_eq!(program.token_literal(), "let");
}

#[test]
fn rendering_statements() {
    let (program, errors) = parse("let x = 1 + 2; return x;");
    assert_eq!(errors.len(), 0);
    assert_eq!(program.render(), "let x = (1 + 2);return x;");
}

#[test]
fn rendering_if_and_functions() {
    let (program, errors) = parse("if (x < y) { x } else { y };");
    assert_eq!(errors.len(), 0);
    assert_eq!(program.render(), "if(x < y) xelse y");

    let (program, errors) = parse("fn(x, y) { x + y; }");
    assert_eq!(errors.len(), 0);
    assert_eq!(program.render(), "fn(x, y) (x + y)");
}

#[test]
fn negative_literal_rendering() {
    // A hand-built negative literal renders with its sign; the parser
    // itself builds a prefix node instead.
    assert_eq!(Expression::IntegerLiteral(-5).render(), "-5");
    assert_eq!(Expression::IntegerLiteral(i64::MIN).render(), "-9223372036854775808");
    assert_eq!(Expression::IntegerLiteral(0).render(), "0");
}

#[test]
fn decimal_text_round_trip() {
    assert_eq!(int_to_string(0), "0");
    assert_eq!(int_to_string(907), "907");
    assert_eq!(int_to_string(i64::MAX), "9223372036854775807");
    assert_eq!(parse_i64("0"), Some(0));
    assert_eq!(parse_i64("007"), Some(7));
    assert_eq!(parse_i64("9223372036854775807"), Some(i64::MAX));
    assert_eq!(parse_i64("9223372036854775808"), None);
    assert_eq!(parse_i64(""), None);
    assert_eq!(parse_i64("12a"), None);
    assert_eq!(parse_i64("-5"), None);
}

#[test]
fn object_kinds_and_inspection() {
    assert!(matches!(Boolean(true).kind(), ObjectKind::BOOLEAN));
    assert!(matches!(Integer(-3).kind(), ObjectKind::INTEGER));
    assert!(matches!(Null.kind(), ObjectKind::NULL));
    assert_eq!(Boolean(true).inspect(), "true");
    assert_eq!(Boolean(false).inspect(), "false");
    assert_eq!(Integer(-3).inspect(), "-3");
    assert_eq!(Integer(42).inspect(), "42");
    assert_eq!(Null.inspect(), "null");
}

#[test]
fn cascading_errors_after_malformed_construct() {
    // No resynchronization: after a malformed construct the parser resumes
    // from wherever the cursor sits, so later statements still parse.
    let (program, errors) = parse("let x 5; let y = 6;");
    assert_eq!(errors.len(), 1);
    assert!(program
        .statements
        .iter()
        .any(|s| matches!(s, Statement::Let { .. })));
}
