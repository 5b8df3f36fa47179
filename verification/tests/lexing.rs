use gibbon::lexer::Lexer;
use gibbon::token::Kind;

#[test]
fn single_chars() {
    // Arrange
    let input = "=;+(){},".to_string();
    let cases = vec![
        (Kind::Assign, "="),
        (Kind::SemiColon, ";"),
        (Kind::Plus, "+"),
        (Kind::LParen, "("),
        (Kind::RParen, ")"),
        (Kind::LBrace, "{"),
        (Kind::RBrace, "}"),
        (Kind::Comma, ","),
    ];

    // Act
    let mut lexer = Lexer::new(input);

    // Assert
    for case in cases {
        let token = lexer.next().unwrap();
        assert_eq!(token.kind, case.0);
        assert_eq!(token.literal, case.1);
    }
    assert_eq!(lexer.next(), None);
}

#[test]
fn simple_code_snippet() {
    // Arrange
    let input = r#"
            let five = 5;
            let ten = 10;

            let add = fn(x, y) {
                x + y;
            };

            let result = add(five, ten);
            !-/*5;
            5 < 10 > 5;

            if (5 < 10) {
                return true;
            } else {
                return false;
            }

            10 == 10;
            10 != 9;"#
        .to_string();

    let cases = vec![
        (Kind::Let, "let"),
        (Kind::Ident, "five"),
        (Kind::Assign, "="),
        (Kind::Int, "5"),
        (Kind::SemiColon, ";"),
        (Kind::Let, "let"),
        (Kind::Ident, "ten"),
        (Kind::Assign, "="),
        (Kind::Int, "10"),
        (Kind::SemiColon, ";"),
        (Kind::Let, "let"),
        (Kind::Ident, "add"),
        (Kind::Assign, "="),
        (Kind::Function, "fn"),
        (Kind::LParen, "("),
        (Kind::Ident, "x"),
        (Kind::Comma, ","),
        (Kind::Ident, "y"),
        (Kind::RParen, ")"),
        (Kind::LBrace, "{"),
        (Kind::Ident, "x"),
        (Kind::Plus, "+"),
        (Kind::Ident, "y"),
        (Kind::SemiColon, ";"),
        (Kind::RBrace, "}"),
        (Kind::SemiColon, ";"),
        (Kind::Let, "let"),
        (Kind::Ident, "result"),
        (Kind::Assign, "="),
        (Kind::Ident, "add"),
        (Kind::LParen, "("),
        (Kind::Ident, "five"),
        (Kind::Comma, ","),
        (Kind::Ident, "ten"),
        (Kind::RParen, ")"),
        (Kind::SemiColon, ";"),
        (Kind::Bang, "!"),
        (Kind::Minus, "-"),
        (Kind::Slash, "/"),
        (Kind::Asterix, "*"),
        (Kind::Int, "5"),
        (Kind::SemiColon, ";"),
        (Kind::Int, "5"),
        (Kind::Lt, "<"),
        (Kind::Int, "10"),
        (Kind::Gt, ">"),
        (Kind::Int, "5"),
        (Kind::SemiColon, ";"),
        (Kind::If, "if"),
        (Kind::LParen, "("),
        (Kind::Int, "5"),
        (Kind::Lt, "<"),
        (Kind::Int, "10"),
        (Kind::RParen, ")"),
        (Kind::LBrace, "{"),
        (Kind::Return, "return"),
        (Kind::True, "true"),
        (Kind::SemiColon, ";"),
        (Kind::RBrace, "}"),
        (Kind::Else, "else"),
        (Kind::LBrace, "{"),
        (Kind::Return, "return"),
        (Kind::False, "false"),
        (Kind::SemiColon, ";"),
        (Kind::RBrace, "}"),
        (Kind::Int, "10"),
        (Kind::Eq, "=="),
        (Kind::Int, "10"),
        (Kind::SemiColon, ";"),
        (Kind::Int, "10"),
        (Kind::Ne, "!="),
        (Kind::Int, "9"),
        (Kind::SemiColon, ";"),
    ];

    // Act
    let mut lexer = Lexer::new(input);

    // Assert
    for case in cases {
        let token = lexer.next().unwrap();
        assert_eq!(token.kind, case.0);
        assert_eq!(token.literal, case.1);
    }
    assert_eq!(lexer.next(), None);
}
