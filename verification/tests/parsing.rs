use gibbon::ast::{Expression, Node, Statement};
use gibbon::lexer::Lexer;
use gibbon::parser::Parser;

fn check_parser_errors(parser: &Parser) {
    if parser.errors.len() != 0 {
        println!("Got {} errors.", parser.errors.len());
        for error in &parser.errors {
            println!("ERROR: {error}");
        }

        assert!(false);
    }
}

#[test]
fn mod_let_statement() {
    // Arrange
    let input = "let x = 5;".to_string();

    // Act
    let lexer = Lexer::new(input);
    let mut parser = Parser::new(lexer);
    let program = parser.parse_program();

    // Assert
    check_parser_errors(&parser);
    assert_eq!(program.statements.len(), 1);
    match &program.statements[0] {
        Statement::Let { name, value } => {
            assert_eq!(name.token_literal(), "x".to_string());
            match value {
                Expression::IntegerLiteral(value) => {
                    assert_eq!(*value, 5);
                }
                e => panic!("{e:?} is not an integer"),
            };
        }
        s => panic!("{s:?} is not a let statement"),
    };
}

#[test]
fn mod_return_statement() {
    // Arrange
    let input = "return 5;".to_string();

    // Act
    let lexer = Lexer::new(input);
    let mut parser = Parser::new(lexer);
    let program = parser.parse_program();

    // Assert
    check_parser_errors(&parser);
    assert_eq!(program.statements.len(), 1);
    match &program.statements[0] {
        Statement::Return(value) => {
            match value {
                Expression::IntegerLiteral(value) => {
                    assert_eq!(*value, 5);
                }
                e => panic!("{e:?} is not an integer"),
            };
        }
        s => panic!("{s:?} is not a return statement"),
    };
}

#[test]
fn mod_identifier_expression() {
    // Arrange
    let input = "foobar;".to_string();

    // Act
    let lexer = Lexer::new(input);
    let mut parser = Parser::new(lexer);
    let program = parser.parse_program();

    // Assert
    check_parser_errors(&parser);
    assert_eq!(program.statements.len(), 1);
    let expression_statement = match &program.statements[0] {
        Statement::Expression { token: _, expression } => expression,
        s => panic!("{s:?} is not an expression statement"),
    };

    match expression_statement {
        Expression::Identifier(value) => {
            assert_eq!(expression_statement.token_literal(), "foobar");
            assert_eq!(value, "foobar");
        }
        e => panic!("{e:?} is not an identifier"),
    };
}

#[test]
fn mod_integer_literal_expression() {
    // Arrange
    let input = "5;".to_string();

    // Act
    let lexer = Lexer::new(input);
    let mut parser = Parser::new(lexer);
    let program = parser.parse_program();

    // Assert
    check_parser_errors(&parser);
    assert_eq!(program.statements.len(), 1);
    let expression_statement = match &program.statements[0] {
        Statement::Expression { token: _, expression } => expression,
        s => panic!("{s:?} is not an expression statement"),
    };

    match expression_statement {
        Expression::IntegerLiteral(value) => {
            assert_eq!(expression_statement.token_literal(), "5");
            assert_eq!(*value, 5);
        }
        e => panic!("{e:?} is not an identifier"),
    };
}

#[test]
fn mod_boolean_literal_expression() {
    // Arrange
    let input = "true;".to_string();

    // Act
    let lexer = Lexer::new(input);
    let mut parser = Parser::new(lexer);
    let program = parser.parse_program();

    // Assert
    check_parser_errors(&parser);
    assert_eq!(program.statements.len(), 1);
    let expression_statement = match &program.statements[0] {
        Statement::Expression { token: _, expression } => expression,
        s => panic!("{s:?} is not an expression statement"),
    };

    match expression_statement {
        Expression::BooleanLiteral(value) => {
            assert_eq!(expression_statement.token_literal(), "true");
            assert_eq!(*value, true);
        }
        e => panic!("{e:?} is not an identifier"),
    };
}

#[test]
fn mod_prefix_expression() {
    // Arrange
    let prefix_tests = vec![("!5;", "!", 5i64), ("-15;", "-", 15i64)];

    // Act
    for (input, op, integer_value) in prefix_tests {
        let lexer = Lexer::new(input.to_string());
        let mut parser = Parser::new(lexer);
        let program = parser.parse_program();

        // Assert
        check_parser_errors(&parser);
        assert_eq!(program.statements.len(), 1);
        let expression_statement = match &program.statements[0] {
            Statement::Expression { token: _, expression } => expression,
            s => panic!("{s:?} is not an expression statement"),
        };

        match expression_statement {
            Expression::Prefix { operator, right } => {
                assert_eq!(operator, op);
                match &**right {
                    Expression::IntegerLiteral(i) => assert_eq!(*i, integer_value),
                    e => panic!("{e:?} is not an integer literal"),
                }
            }
            e => panic!("{e:?} is not a prefix expression"),
        };
    }
}

#[test]
fn mod_integer_infix_expression() {
    // Arrange
    let infix_tests = vec![
        ("5 + 5;", 5, "+", 5),
        ("5 - 5;", 5, "-", 5),
        ("5 * 5;", 5, "*", 5),
        ("5 / 5;", 5, "/", 5),
        ("5 > 5;", 5, ">", 5),
        ("5 < 5;", 5, "<", 5),
        ("5 == 5;", 5, "==", 5),
        ("5 != 5;", 5, "!=", 5),
    ];

    // Act
    for (input, left_value, op, right_value) in infix_tests {
        let lexer = Lexer::new(input.to_string());
        let mut parser = Parser::new(lexer);
        let program = parser.parse_program();

        // Assert
        check_parser_errors(&parser);
        assert_eq!(program.statements.len(), 1);
        let expression_statement = match &program.statements[0] {
            Statement::Expression { token: _, expression } => expression,
            s => panic!("{s:?} is not an expression statement"),
        };

        match expression_statement {
            Expression::Infix { left, operator, right } => {
                match &**right {
                    Expression::IntegerLiteral(i) => assert_eq!(*i, right_value),
                    e => panic!("{e:?} is not an integer literal"),
                }
                assert_eq!(operator, op);
                match &**left {
                    Expression::IntegerLiteral(i) => assert_eq!(*i, left_value),
                    e => panic!("{e:?} is not an integer literal"),
                }
            }
            e => panic!("{e:?} is not an infix expression"),
        };
    }
}

#[test]
fn mod_boolean_infix_expression() {
    // Arrange
    let infix_tests = vec![
        ("true == true;", true, "==", true),
        ("true != false;", true, "!=", false),
        ("false == false;", false, "==", false),
    ];

    // Act
    for (input, left_value, op, right_value) in infix_tests {
        let lexer = Lexer::new(input.to_string());
        let mut parser = Parser::new(lexer);
        let program = parser.parse_program();

        // Assert
        check_parser_errors(&parser);
        assert_eq!(program.statements.len(), 1);
        let expression_statement = match &program.statements[0] {
            Statement::Expression { token: _, expression } => expression,
            s => panic!("{s:?} is not an expression statement"),
        };

        match expression_statement {
            Expression::Infix { left, operator, right } => {
                match &**right {
                    Expression::BooleanLiteral(i) => assert_eq!(*i, right_value),
                    e => panic!("{e:?} is not a boolean literal"),
                }
                assert_eq!(operator, op);
                match &**left {
                    Expression::BooleanLiteral(i) => assert_eq!(*i, left_value),
                    e => panic!("{e:?} is not a boolean literal"),
                }
            }
            e => panic!("{e:?} is not an infix expression"),
        };
    }
}

#[test]
fn mod_complex_infix_expressions() {
    // Arrange
    let infix_tests = vec![
        ("-a * b", "((-a) * b)"),
        ("!-a", "(!(-a))"),
        ("a + b + c", "((a + b) + c)"),
        ("a + b - c", "((a + b) - c)"),
        ("a * b * c", "((a * b) * c)"),
        ("a * b / c", "((a * b) / c)"),
        ("a + b / c", "(a + (b / c))"),
        ("a + b * c + d / e - f", "(((a + (b * c)) + (d / e)) - f)"),
        ("3 + 4; -5 * 5", "(3 + 4)((-5) * 5)"),
        ("5 > 4 == 3 < 4", "((5 > 4) == (3 < 4))"),
        ("5 < 4 != 3 > 4", "((5 < 4) != (3 > 4))"),
        (
            "3 + 4 * 5 == 3 * 1 + 4 * 5",
            "((3 + (4 * 5)) == ((3 * 1) + (4 * 5)))",
        ),
        ("1 + (2 + 3) + 4", "((1 + (2 + 3)) + 4)"),
        ("(5 + 5) * 2", "((5 + 5) * 2)"),
        ("2 / (5 + 5)", "(2 / (5 + 5))"),
        ("-(5 + 5)", "(-(5 + 5))"),
        ("!(true == true)", "(!(true == true))"),
        ("a + add(b * c) + d", "((a + add((b * c))) + d)"),
        (
            "add(a, b, 1, 2 * 3, 4 + 5, add(6, 7 * 8))",
            "add(a, b, 1, (2 * 3), (4 + 5), add(6, (7 * 8)))",
        ),
        (
            "add(a + b + c * d / f + g)",
            "add((((a + b) + ((c * d) / f)) + g))",
        ),
    ];

    // Act
    for (input, expected) in infix_tests {
        let lexer = Lexer::new(input.to_string());
        let mut parser = Parser::new(lexer);
        let program = parser.parse_program();

        println!("{:#?}", program.statements[0]);

        // Assert
        check_parser_errors(&parser);
        assert_eq!(program.render(), expected);
    }
}

#[test]
fn mod_boolean_operator_precedence() {
    // Arrange
    let tests = vec![
        ("true", "true"),
        ("false", "false"),
        ("3 > 5 == false", "((3 > 5) == false)"),
        ("3 < 5 == true", "((3 < 5) == true)"),
    ];

    // Act
    for (input, expected) in tests {
        let lexer = Lexer::new(input.to_string());
        let mut parser = Parser::new(lexer);
        let program = parser.parse_program();

        println!("{:#?}", program.statements[0]);

        // Assert
        check_parser_errors(&parser);
        assert_eq!(program.render(), expected);
    }
}

#[test]
fn mod_if_expression() {
    // Arrange
    let input = "if (x < y) { x };".to_string();

    // Act
    let lexer = Lexer::new(input);
    let mut parser = Parser::new(lexer);
    let program = parser.parse_program();

    // Assert
    check_parser_errors(&parser);
    assert_eq!(program.statements.len(), 1);
    let expression_statement = match &program.statements[0] {
        Statement::Expression { token: _, expression } => expression,
        s => panic!("{s:?} is not an expression statement"),
    };

    match expression_statement {
        Expression::If { condition, consequence, alternative } => {
            assert_eq!(condition.render(), "(x < y)");
            assert_eq!(consequence.render(), "x");
            assert_eq!(*alternative, None);
        }
        e => panic!("{e:?} is not an identifier"),
    };
}

#[test]
fn mod_if_else_expression() {
    // Arrange
    let input = "if (x < y) { x } else { y };".to_string();

    // Act
    let lexer = Lexer::new(input);
    let mut parser = Parser::new(lexer);
    let program = parser.parse_program();

    // Assert
    check_parser_errors(&parser);
    assert_eq!(program.statements.len(), 1);
    let expression_statement = match &program.statements[0] {
        Statement::Expression { token: _, expression } => expression,
        s => panic!("{s:?} is not an expression statement"),
    };

    match expression_statement {
        Expression::If { condition, consequence, alternative } => {
            assert_eq!(condition.render(), "(x < y)");
            assert_eq!(consequence.render(), "x");
            assert_eq!(alternative.as_ref().unwrap().render(), "y");
        }
        e => panic!("{e:?} is not an identifier"),
    };
}

#[test]
fn mod_function_literal_expression() {
    // Arrange
    let input = "fn(x, y) { x + y; }".to_string();

    // Act
    let lexer = Lexer::new(input);
    let mut parser = Parser::new(lexer);
    let program = parser.parse_program();

    // Assert
    check_parser_errors(&parser);
    assert_eq!(program.statements.len(), 1);
    let expression_statement = match &program.statements[0] {
        Statement::Expression { token: _, expression } => expression,
        s => panic!("{s:?} is not an expression statement"),
    };

    match expression_statement {
        Expression::FunctionLiteral { parameters, body } => {
            assert_eq!(parameters[0].token_literal(), "x");
            assert_eq!(parameters[1].token_literal(), "y");
            assert_eq!(body.statements.len(), 1);
            match &body.statements[0] {
                Statement::Expression { token: _, expression } => {
                    assert_eq!(expression.render(), "(x + y)")
                }
                s => panic!("{s:?} is not an expression statement"),
            }
        }
        e => panic!("{e:?} is not a function literal"),
    };
}

#[test]
fn mod_function_parameters() {
    // Arrange
    let tests = vec![
        ("fn() {};".to_string(), vec![]),
        ("fn(x) {};".to_string(), vec!["x"]),
        ("fn(x, y, z) {};".to_string(), vec!["x", "y", "z"]),
    ];

    for (input, expected) in tests {
        // Act
        let lexer = Lexer::new(input);
        let mut parser = Parser::new(lexer);
        let program = parser.parse_program();

        // Assert
        check_parser_errors(&parser);
        assert_eq!(program.statements.len(), 1);
        let expression_statement = match &program.statements[0] {
            Statement::Expression { token: _, expression } => expression,
            s => panic!("{s:?} is not an expression statement"),
        };

        match expression_statement {
            Expression::FunctionLiteral { parameters, body: _ } => {
                assert_eq!(parameters.len(), expected.len());
                for (i, parameter) in parameters.iter().enumerate() {
                    assert_eq!(parameter.token_literal(), expected[i]);
                }
            }
            e => panic!("{e:?} is not a function literal"),
        };
    }
}

#[test]
fn call_expression() {
    // Arrange
    let input = "add(1, 2 * 3, 4 + 5);".to_string();

    // Act
    let lexer = Lexer::new(input);
    let mut parser = Parser::new(lexer);
    let program = parser.parse_program();

    // Assert
    check_parser_errors(&parser);
    assert_eq!(program.statements.len(), 1);
    let expression_statement = match &program.statements[0] {
        Statement::Expression { token: _, expression } => expression,
        s => panic!("{s:?} is not an expression statement"),
    };

    match expression_statement {
        Expression::Call { function, arguments } => {
            match &**function {
                Expression::Identifier(value) => {
                    assert_eq!(*value, "add".to_string());
                }
                e => panic!("{e:?} is not an identifier"),
            }
            assert_eq!(arguments.len(), 3);
            assert_eq!(arguments[0].render(), "1".to_string());
            assert_eq!(arguments[1].render(), "(2 * 3)".to_string());
            assert_eq!(arguments[2].render(), "(4 + 5)".to_string());
        }
        e => panic!("{e:?} is not a function call"),
    };
}
