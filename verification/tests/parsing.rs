//! Tests of the parser: precedence, grouping, statement forms, error
//! kinds, and line-level error recovery.

use basic_front::ast::{BinaryOperator, DataItem, Expression, ExpressionKind, Program, Statement};
use basic_front::error::{Error, ErrorKind};
use basic_front::parser::Parser;
use basic_front::tokens::{SourceToken, Token};

fn st(token: Token, line: u32) -> SourceToken {
    SourceToken { token, line }
}

fn parse_all(tokens: Vec<SourceToken>) -> (Program, Vec<Error>) {
    let mut parser = Parser::new(tokens);
    parser.parse()
}

fn num(id: u32, value: i32) -> Expression {
    Expression {
        id,
        kind: ExpressionKind::NumberLiteral(value),
    }
}

fn binary(id: u32, left: Expression, op: BinaryOperator, right: Expression) -> Expression {
    Expression {
        id,
        kind: ExpressionKind::Binary {
            left: Box::new(left),
            op,
            right: Box::new(right),
        },
    }
}

#[test]
fn precedence_mul_binds_tighter_than_add() {
    // 10 LET R = 2 + 3 * 4
    let tokens = vec![
        st(Token::Number(10), 10),
        st(Token::Let, 10),
        st(Token::Identifier("R".to_string()), 10),
        st(Token::Equal, 10),
        st(Token::Number(2), 10),
        st(Token::Plus, 10),
        st(Token::Number(3), 10),
        st(Token::Star, 10),
        st(Token::Number(4), 10),
    ];
    let (program, errors) = parse_all(tokens);
    assert!(errors.is_empty());
    assert_eq!(program.len(), 1);
    let expected = Statement::Let {
        variable: "R".to_string(),
        // `*` binds tighter: 2 + (3 * 4); node ids follow parse order.
        expression: binary(
            4,
            num(0, 2),
            BinaryOperator::Add,
            binary(3, num(1, 3), BinaryOperator::Mul, num(2, 4)),
        ),
    };
    assert_eq!(program.lines()[0].statement, expected);
}

#[test]
fn same_precedence_chain_groups_right() {
    // 10 LET R = 1 - 2 - 3 groups as 1 - (2 - 3), the documented
    // right-leaning associativity, not the arithmetic-conventional one.
    let tokens = vec![
        st(Token::Number(10), 10),
        st(Token::Let, 10),
        st(Token::Identifier("R".to_string()), 10),
        st(Token::Equal, 10),
        st(Token::Number(1), 10),
        st(Token::Minus, 10),
        st(Token::Number(2), 10),
        st(Token::Minus, 10),
        st(Token::Number(3), 10),
    ];
    let (program, errors) = parse_all(tokens);
    assert!(errors.is_empty());
    let expected = Statement::Let {
        variable: "R".to_string(),
        expression: binary(
            4,
            num(0, 1),
            BinaryOperator::Sub,
            binary(3, num(1, 2), BinaryOperator::Sub, num(2, 3)),
        ),
    };
    assert_eq!(program.lines()[0].statement, expected);
}

#[test]
fn parenthesized_expression_overrides_precedence() {
    // 10 LET R = (1 + 2) * 3
    let tokens = vec![
        st(Token::Number(10), 10),
        st(Token::Let, 10),
        st(Token::Identifier("R".to_string()), 10),
        st(Token::Equal, 10),
        st(Token::LeftParen, 10),
        st(Token::Number(1), 10),
        st(Token::Plus, 10),
        st(Token::Number(2), 10),
        st(Token::RightParen, 10),
        st(Token::Star, 10),
        st(Token::Number(3), 10),
    ];
    let (program, errors) = parse_all(tokens);
    assert!(errors.is_empty());
    let expected = Statement::Let {
        variable: "R".to_string(),
        expression: binary(
            4,
            binary(2, num(0, 1), BinaryOperator::Add, num(1, 2)),
            BinaryOperator::Mul,
            num(3, 3),
        ),
    };
    assert_eq!(program.lines()[0].statement, expected);
}

#[test]
fn missing_identifier_recovers_at_next_line() {
    // 30 LET = 5        -> one ExpectedIdentifier error at line 30
    // 40 LET A = 1      -> parsed fine in the same run
    let tokens = vec![
        st(Token::Number(30), 30),
        st(Token::Let, 30),
        st(Token::Equal, 30),
        st(Token::Number(5), 30),
        st(Token::Newline, 30),
        st(Token::Number(40), 40),
        st(Token::Let, 40),
        st(Token::Identifier("A".to_string()), 40),
        st(Token::Equal, 40),
        st(Token::Number(1), 40),
    ];
    let (program, errors) = parse_all(tokens);
    assert_eq!(
        errors,
        vec![Error {
            kind: ErrorKind::ExpectedIdentifier,
            line: 30
        }]
    );
    assert_eq!(program.len(), 1);
    assert_eq!(program.lines()[0].number, 40);
    let expected = Statement::Let {
        variable: "A".to_string(),
        expression: num(0, 1),
    };
    assert_eq!(program.lines()[0].statement, expected);
}

#[test]
fn one_pass_collects_errors_from_many_lines() {
    // 10 GOTO X | 20 WAIT | 30 LET A = 1
    let tokens = vec![
        st(Token::Number(10), 1),
        st(Token::Goto, 1),
        st(Token::Identifier("X".to_string()), 1),
        st(Token::Newline, 1),
        st(Token::Number(20), 2),
        st(Token::Wait, 2),
        st(Token::Newline, 2),
        st(Token::Number(30), 3),
        st(Token::Let, 3),
        st(Token::Identifier("A".to_string()), 3),
        st(Token::Equal, 3),
        st(Token::Number(1), 3),
    ];
    let (program, errors) = parse_all(tokens);
    assert_eq!(errors.len(), 2);
    assert_eq!(errors[0].kind, ErrorKind::ExpectedUnsigned);
    assert_eq!(errors[0].line, 1);
    assert_eq!(errors[1].kind, ErrorKind::ExpectedExpression);
    assert_eq!(errors[1].line, 2);
    assert_eq!(program.len(), 1);
    assert_eq!(program.lines()[0].number, 30);
}

#[test]
fn error_kind_unexpected_token() {
    // 10 LET X 5 (missing =)
    let tokens = vec![
        st(Token::Number(10), 10),
        st(Token::Let, 10),
        st(Token::Identifier("X".to_string()), 10),
        st(Token::Number(5), 10),
    ];
    let (_, errors) = parse_all(tokens);
    assert_eq!(
        errors,
        vec![Error {
            kind: ErrorKind::UnexpectedToken,
            line: 10
        }]
    );
}

#[test]
fn error_kind_expected_data_item() {
    // 10 DATA (nothing after the keyword)
    let tokens = vec![st(Token::Number(10), 10), st(Token::Data, 10)];
    let (_, errors) = parse_all(tokens);
    assert_eq!(
        errors,
        vec![Error {
            kind: ErrorKind::ExpectedDataItem,
            line: 10
        }]
    );
}

#[test]
fn error_kind_expected_parens_in_dim() {
    // 10 DIM A 5 -> ExpectedLeftParen; 20 DIM B ( 5 5 -> ExpectedRightParen
    let tokens = vec![
        st(Token::Number(10), 10),
        st(Token::Dim, 10),
        st(Token::Identifier("A".to_string()), 10),
        st(Token::Number(5), 10),
        st(Token::Newline, 10),
        st(Token::Number(20), 20),
        st(Token::Dim, 20),
        st(Token::Identifier("B".to_string()), 20),
        st(Token::LeftParen, 20),
        st(Token::Number(5), 20),
        st(Token::Number(5), 20),
    ];
    let (_, errors) = parse_all(tokens);
    assert_eq!(errors.len(), 2);
    assert_eq!(errors[0].kind, ErrorKind::ExpectedLeftParen);
    assert_eq!(errors[1].kind, ErrorKind::ExpectedRightParen);
}

#[test]
fn error_kind_expected_statement_and_line_number() {
    // 10 ) -> ExpectedStatement; then a line starting with LET has no
    // line number -> ExpectedLineNumber.
    let tokens = vec![
        st(Token::Number(10), 10),
        st(Token::RightParen, 10),
        st(Token::Newline, 10),
        st(Token::Let, 20),
        st(Token::Identifier("A".to_string()), 20),
    ];
    let (_, errors) = parse_all(tokens);
    assert_eq!(errors.len(), 2);
    assert_eq!(errors[0].kind, ErrorKind::ExpectedStatement);
    assert_eq!(errors[1].kind, ErrorKind::ExpectedLineNumber);
}

#[test]
fn error_kind_expected_end_of_line() {
    // 10 END END
    let tokens = vec![
        st(Token::Number(10), 10),
        st(Token::End, 10),
        st(Token::End, 10),
    ];
    let (_, errors) = parse_all(tokens);
    assert_eq!(
        errors,
        vec![Error {
            kind: ErrorKind::ExpectedEndOfLine,
            line: 10
        }]
    );
}

#[test]
fn negative_line_target_is_rejected() {
    // 10 GOTO -5 (the tokenizer hands a negative number)
    let tokens = vec![
        st(Token::Number(10), 10),
        st(Token::Goto, 10),
        st(Token::Number(-5), 10),
    ];
    let (_, errors) = parse_all(tokens);
    assert_eq!(
        errors,
        vec![Error {
            kind: ErrorKind::ExpectedUnsigned,
            line: 10
        }]
    );
}

#[test]
fn statement_forms_parse() {
    // 10 FOR I = 1 TO 3 STEP 2 : NEXT I
    let tokens = vec![
        st(Token::Number(10), 10),
        st(Token::For, 10),
        st(Token::Identifier("I".to_string()), 10),
        st(Token::Equal, 10),
        st(Token::Number(1), 10),
        st(Token::To, 10),
        st(Token::Number(3), 10),
        st(Token::Step, 10),
        st(Token::Number(2), 10),
        st(Token::Colon, 10),
        st(Token::Next, 10),
        st(Token::Identifier("I".to_string()), 10),
    ];
    let (program, errors) = parse_all(tokens);
    assert!(errors.is_empty());
    let expected = Statement::Sequence {
        statements: vec![
            Statement::For {
                variable: "I".to_string(),
                from: num(0, 1),
                to: num(1, 3),
                step: Some(num(2, 2)),
            },
            Statement::Next {
                variable: "I".to_string(),
            },
        ],
    };
    assert_eq!(program.lines()[0].statement, expected);
}

#[test]
fn data_read_restore_poke_call_rem_parse() {
    // 10 DATA 1, "A" : READ X, Y : RESTORE 10 : POKE 7, 1, 2 : CALL 9 : REM hi
    let tokens = vec![
        st(Token::Number(10), 10),
        st(Token::Data, 10),
        st(Token::Number(1), 10),
        st(Token::Comma, 10),
        st(Token::StringLiteral("A".to_string()), 10),
        st(Token::Colon, 10),
        st(Token::Read, 10),
        st(Token::Identifier("X".to_string()), 10),
        st(Token::Comma, 10),
        st(Token::Identifier("Y".to_string()), 10),
        st(Token::Colon, 10),
        st(Token::Restore, 10),
        st(Token::Number(10), 10),
        st(Token::Colon, 10),
        st(Token::Poke, 10),
        st(Token::Number(7), 10),
        st(Token::Comma, 10),
        st(Token::Number(1), 10),
        st(Token::Comma, 10),
        st(Token::Number(2), 10),
        st(Token::Colon, 10),
        st(Token::Call, 10),
        st(Token::Number(9), 10),
        st(Token::Colon, 10),
        st(Token::Rem(" hi".to_string()), 10),
    ];
    let (program, errors) = parse_all(tokens);
    assert!(errors.is_empty());
    let expected = Statement::Sequence {
        statements: vec![
            Statement::Data {
                values: vec![DataItem::Number(1), DataItem::StringItem("A".to_string())],
            },
            Statement::Read {
                variables: vec!["X".to_string(), "Y".to_string()],
            },
            Statement::Restore {
                line_number: Some(10),
            },
            Statement::Poke {
                address: 7,
                values: vec![1, 2],
            },
            Statement::Call { address: 9 },
            Statement::Rem {
                content: " hi".to_string(),
            },
        ],
    };
    assert_eq!(program.lines()[0].statement, expected);
}

#[test]
fn poke_byte_must_fit_eight_bits() {
    // 10 POKE 7, 300
    let tokens = vec![
        st(Token::Number(10), 10),
        st(Token::Poke, 10),
        st(Token::Number(7), 10),
        st(Token::Comma, 10),
        st(Token::Number(300), 10),
    ];
    let (_, errors) = parse_all(tokens);
    assert_eq!(
        errors,
        vec![Error {
            kind: ErrorKind::ExpectedUnsigned,
            line: 10
        }]
    );
}

#[test]
fn if_then_else_parses_with_optional_then() {
    // 10 IF A = 1 THEN RETURN ELSE END
    let tokens = vec![
        st(Token::Number(10), 10),
        st(Token::If, 10),
        st(Token::Identifier("A".to_string()), 10),
        st(Token::Equal, 10),
        st(Token::Number(1), 10),
        st(Token::Then, 10),
        st(Token::Return, 10),
        st(Token::Else, 10),
        st(Token::End, 10),
    ];
    let (program, errors) = parse_all(tokens);
    assert!(errors.is_empty());
    let expected = Statement::If {
        condition: binary(
            2,
            Expression {
                id: 0,
                kind: ExpressionKind::Variable("A".to_string()),
            },
            BinaryOperator::Eq,
            num(1, 1),
        ),
        then: Box::new(Statement::Return),
        else_: Some(Box::new(Statement::End)),
    };
    assert_eq!(program.lines()[0].statement, expected);
}

#[test]
fn input_with_prompt_parses() {
    // 10 INPUT "NAME"; N$
    let tokens = vec![
        st(Token::Number(10), 10),
        st(Token::Input, 10),
        st(Token::StringLiteral("NAME".to_string()), 10),
        st(Token::Semicolon, 10),
        st(Token::Identifier("N$".to_string()), 10),
    ];
    let (program, errors) = parse_all(tokens);
    assert!(errors.is_empty());
    let expected = Statement::Input {
        prompt: Some(Expression {
            id: 0,
            kind: ExpressionKind::StringLiteral("NAME".to_string()),
        }),
        variable: "N$".to_string(),
    };
    assert_eq!(program.lines()[0].statement, expected);
}

#[test]
fn lines_are_ordered_and_unique() {
    // Lines arrive as 30, 10, 30: iteration must be ascending, and the
    // later 30 replaces the earlier one.
    let tokens = vec![
        st(Token::Number(30), 1),
        st(Token::Return, 1),
        st(Token::Newline, 1),
        st(Token::Number(10), 2),
        st(Token::End, 2),
        st(Token::Newline, 2),
        st(Token::Number(30), 3),
        st(Token::Rem("x".to_string()), 3),
    ];
    let (program, errors) = parse_all(tokens);
    assert!(errors.is_empty());
    assert_eq!(program.len(), 2);
    assert_eq!(program.lines()[0].number, 10);
    assert_eq!(program.lines()[0].statement, Statement::End);
    assert_eq!(program.lines()[1].number, 30);
    assert_eq!(
        program.lines()[1].statement,
        Statement::Rem {
            content: "x".to_string()
        }
    );
}

#[test]
fn current_token_peeks_without_consuming() {
    let tokens = vec![st(Token::Number(10), 10), st(Token::End, 10)];
    let parser = Parser::new(tokens);
    assert!(matches!(parser.current_token(), Some(Token::Number(10))));
    assert!(matches!(parser.current_token(), Some(Token::Number(10))));
}

#[test]
fn expression_duplicate_is_structurally_identical() {
    let e = binary(3, num(1, 5), BinaryOperator::Add, num(2, 6));
    assert_eq!(e.duplicate(), e);
}
