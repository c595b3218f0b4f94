//! Tests of the HIR builder: lowering shapes, interning, label
//! resolution, fatal conditions, and idempotence.

use std::collections::HashMap;

use basic_front::ast::Program;
use basic_front::builder::HirBuilder;
use basic_front::error::BuildError;
use basic_front::hir::{BinaryOperator, Expression, Hir, Operand};
use basic_front::parser::Parser;
use basic_front::tokens::{SourceToken, Token};

fn st(token: Token, line: u32) -> SourceToken {
    SourceToken { token, line }
}

fn parse_clean(tokens: Vec<SourceToken>) -> Program {
    let mut parser = Parser::new(tokens);
    let (program, errors) = parser.parse();
    assert!(errors.is_empty());
    program
}

fn build_clean(tokens: Vec<SourceToken>) -> (Vec<Hir>, Vec<String>) {
    let program = parse_clean(tokens);
    let (hir, strs) = HirBuilder::new(program).build().unwrap();
    (hir.instructions().clone(), strs)
}

fn expr(left: Operand, op: BinaryOperator, right: Operand, dest: Operand) -> Hir {
    Hir::Expression(Expression {
        left,
        op,
        right,
        dest,
    })
}

fn var(id: u32) -> Operand {
    Operand::Variable { id }
}

fn lit(value: i32) -> Operand {
    Operand::NumberLiteral { value }
}

/// A straight-line interpreter over the instruction forms the tests use:
/// three-address operations, copies, and prints.
fn run(instrs: &[Hir]) -> Vec<i32> {
    let mut vars: HashMap<u32, i32> = HashMap::new();
    let mut out = Vec::new();
    let val = |vars: &HashMap<u32, i32>, op: &Operand| -> i32 {
        match op {
            Operand::Variable { id } => *vars.get(id).unwrap(),
            Operand::NumberLiteral { value } => *value,
            _ => panic!("operand not supported by this interpreter"),
        }
    };
    for i in instrs {
        match i {
            Hir::Expression(e) => {
                let l = val(&vars, &e.left);
                let r = val(&vars, &e.right);
                let v = match e.op {
                    BinaryOperator::Add => l + r,
                    BinaryOperator::Sub => l - r,
                    BinaryOperator::Mul => l * r,
                    BinaryOperator::Div => l / r,
                    _ => panic!("operator not supported by this interpreter"),
                };
                match e.dest {
                    Operand::Variable { id } => {
                        vars.insert(id, v);
                    }
                    _ => panic!("destination not supported"),
                }
            }
            Hir::Copy { src, dest } => {
                let v = val(&vars, src);
                match dest {
                    Operand::Variable { id } => {
                        vars.insert(*id, v);
                    }
                    _ => panic!("destination not supported"),
                }
            }
            Hir::Print { operand } => {
                out.push(val(&vars, operand));
            }
            Hir::Label { .. } => {}
            _ => panic!("instruction not supported by this interpreter"),
        }
    }
    out
}

#[test]
fn copy_then_print_shares_the_operand() {
    // 10 LET X = 5 | 20 PRINT X: exactly one Copy of the literal into X's
    // operand, then one Print of that same operand.
    let tokens = vec![
        st(Token::Number(10), 10),
        st(Token::Let, 10),
        st(Token::Identifier("X".to_string()), 10),
        st(Token::Equal, 10),
        st(Token::Number(5), 10),
        st(Token::Newline, 10),
        st(Token::Number(20), 20),
        st(Token::Print, 20),
        st(Token::Identifier("X".to_string()), 20),
    ];
    let (hir, strs) = build_clean(tokens);
    assert_eq!(
        hir,
        vec![
            Hir::Copy {
                src: lit(5),
                dest: var(0)
            },
            Hir::Print { operand: var(0) },
        ]
    );
    assert!(strs.is_empty());
}

#[test]
fn evaluating_lowered_precedence_gives_fourteen() {
    // 10 PRINT 2 + 3 * 4 computes 14.
    let tokens = vec![
        st(Token::Number(10), 10),
        st(Token::Print, 10),
        st(Token::Number(2), 10),
        st(Token::Plus, 10),
        st(Token::Number(3), 10),
        st(Token::Star, 10),
        st(Token::Number(4), 10),
    ];
    let (hir, _) = build_clean(tokens);
    assert_eq!(run(&hir), vec![14]);
}

#[test]
fn evaluating_right_leaning_chain() {
    // 10 PRINT 1 - 2 - 3 groups as 1 - (2 - 3) and computes 2.
    let tokens = vec![
        st(Token::Number(10), 10),
        st(Token::Print, 10),
        st(Token::Number(1), 10),
        st(Token::Minus, 10),
        st(Token::Number(2), 10),
        st(Token::Minus, 10),
        st(Token::Number(3), 10),
    ];
    let (hir, _) = build_clean(tokens);
    assert_eq!(run(&hir), vec![2]);
}

#[test]
fn variable_identity_is_per_name() {
    // X twice, X$ once: X resolves to one id both times; X$ gets a
    // distinct id of the indirect kind.
    let tokens = vec![
        st(Token::Number(10), 10),
        st(Token::Let, 10),
        st(Token::Identifier("X".to_string()), 10),
        st(Token::Equal, 10),
        st(Token::Number(1), 10),
        st(Token::Newline, 10),
        st(Token::Number(20), 20),
        st(Token::Print, 20),
        st(Token::Identifier("X".to_string()), 20),
        st(Token::Newline, 20),
        st(Token::Number(30), 30),
        st(Token::Print, 30),
        st(Token::Identifier("X$".to_string()), 30),
    ];
    let (hir, _) = build_clean(tokens);
    assert_eq!(
        hir,
        vec![
            Hir::Copy {
                src: lit(1),
                dest: var(0)
            },
            Hir::Print { operand: var(0) },
            Hir::Print {
                operand: Operand::IndirectVariable { id: 1 }
            },
        ]
    );
}

#[test]
fn string_literals_are_deduplicated() {
    // PRINT "HI" twice: both occurrences reference the same table index.
    let tokens = vec![
        st(Token::Number(10), 10),
        st(Token::Print, 10),
        st(Token::StringLiteral("HI".to_string()), 10),
        st(Token::Newline, 10),
        st(Token::Number(20), 20),
        st(Token::Print, 20),
        st(Token::StringLiteral("HI".to_string()), 20),
    ];
    let (hir, strs) = build_clean(tokens);
    assert_eq!(
        hir,
        vec![
            Hir::Print {
                operand: Operand::IndirectNumberLiteral { value: 0 }
            },
            Hir::Print {
                operand: Operand::IndirectNumberLiteral { value: 0 }
            },
        ]
    );
    assert_eq!(strs, vec!["HI".to_string()]);
}

#[test]
fn distinct_string_literals_get_distinct_indexes() {
    let tokens = vec![
        st(Token::Number(10), 10),
        st(Token::Print, 10),
        st(Token::StringLiteral("A".to_string()), 10),
        st(Token::Semicolon, 10),
        st(Token::StringLiteral("B".to_string()), 10),
        st(Token::Semicolon, 10),
        st(Token::StringLiteral("A".to_string()), 10),
    ];
    let (hir, strs) = build_clean(tokens);
    assert_eq!(strs, vec!["A".to_string(), "B".to_string()]);
    assert_eq!(
        hir,
        vec![
            Hir::Print {
                operand: Operand::IndirectNumberLiteral { value: 0 }
            },
            Hir::Print {
                operand: Operand::IndirectNumberLiteral { value: 1 }
            },
            Hir::Print {
                operand: Operand::IndirectNumberLiteral { value: 0 }
            },
        ]
    );
}

#[test]
fn for_next_lowers_in_the_documented_order() {
    // 10 FOR I = 1 TO 3 : LET A = 9 : NEXT I
    let tokens = vec![
        st(Token::Number(10), 10),
        st(Token::For, 10),
        st(Token::Identifier("I".to_string()), 10),
        st(Token::Equal, 10),
        st(Token::Number(1), 10),
        st(Token::To, 10),
        st(Token::Number(3), 10),
        st(Token::Colon, 10),
        st(Token::Let, 10),
        st(Token::Identifier("A".to_string()), 10),
        st(Token::Equal, 10),
        st(Token::Number(9), 10),
        st(Token::Colon, 10),
        st(Token::Next, 10),
        st(Token::Identifier("I".to_string()), 10),
    ];
    let (hir, _) = build_clean(tokens);
    assert_eq!(
        hir,
        vec![
            // copy 1 -> I
            Hir::Copy {
                src: lit(1),
                dest: var(0)
            },
            // begin label
            Hir::Label { id: 0 },
            // compare I >= 3
            expr(var(0), BinaryOperator::Ge, lit(3), var(1)),
            // branch to the end label when done
            Hir::If {
                condition: var(1),
                label: 1
            },
            // the body
            Hir::Copy {
                src: lit(9),
                dest: var(2)
            },
            // increment I by the default step of 1
            expr(var(0), BinaryOperator::Add, lit(1), var(0)),
            // back to the loop head, then the end label
            Hir::Goto { label: 0 },
            Hir::Label { id: 1 },
        ]
    );
}

#[test]
fn for_with_step_lowers_the_step_at_next() {
    // 10 FOR I = 0 TO 9 STEP 2 : NEXT I
    let tokens = vec![
        st(Token::Number(10), 10),
        st(Token::For, 10),
        st(Token::Identifier("I".to_string()), 10),
        st(Token::Equal, 10),
        st(Token::Number(0), 10),
        st(Token::To, 10),
        st(Token::Number(9), 10),
        st(Token::Step, 10),
        st(Token::Number(2), 10),
        st(Token::Colon, 10),
        st(Token::Next, 10),
        st(Token::Identifier("I".to_string()), 10),
    ];
    let (hir, _) = build_clean(tokens);
    assert_eq!(
        hir,
        vec![
            Hir::Copy {
                src: lit(0),
                dest: var(0)
            },
            Hir::Label { id: 0 },
            expr(var(0), BinaryOperator::Ge, lit(9), var(1)),
            Hir::If {
                condition: var(1),
                label: 1
            },
            expr(var(0), BinaryOperator::Add, lit(2), var(0)),
            Hir::Goto { label: 0 },
            Hir::Label { id: 1 },
        ]
    );
}

#[test]
fn backward_jump_resolves_to_an_inserted_label() {
    // 10 LET A = 1 | 20 GOTO 10
    let tokens = vec![
        st(Token::Number(10), 10),
        st(Token::Let, 10),
        st(Token::Identifier("A".to_string()), 10),
        st(Token::Equal, 10),
        st(Token::Number(1), 10),
        st(Token::Newline, 10),
        st(Token::Number(20), 20),
        st(Token::Goto, 20),
        st(Token::Number(10), 20),
    ];
    let (hir, _) = build_clean(tokens);
    assert_eq!(
        hir,
        vec![
            Hir::Label { id: 0 },
            Hir::Copy {
                src: lit(1),
                dest: var(0)
            },
            Hir::Goto { label: 0 },
        ]
    );
}

#[test]
fn forward_jump_resolves_to_an_inserted_label() {
    // 10 GOTO 30 | 20 LET A = 1 | 30 END
    let tokens = vec![
        st(Token::Number(10), 10),
        st(Token::Goto, 10),
        st(Token::Number(30), 10),
        st(Token::Newline, 10),
        st(Token::Number(20), 20),
        st(Token::Let, 20),
        st(Token::Identifier("A".to_string()), 20),
        st(Token::Equal, 20),
        st(Token::Number(1), 20),
        st(Token::Newline, 20),
        st(Token::Number(30), 30),
        st(Token::End, 30),
    ];
    let (hir, _) = build_clean(tokens);
    assert_eq!(
        hir,
        vec![
            Hir::Goto { label: 0 },
            Hir::Copy {
                src: lit(1),
                dest: var(0)
            },
            Hir::Label { id: 0 },
        ]
    );
}

#[test]
fn gosub_and_return_resolve_like_goto() {
    // 10 GOSUB 30 | 20 END | 30 RETURN
    let tokens = vec![
        st(Token::Number(10), 10),
        st(Token::Gosub, 10),
        st(Token::Number(30), 10),
        st(Token::Newline, 10),
        st(Token::Number(20), 20),
        st(Token::End, 20),
        st(Token::Newline, 20),
        st(Token::Number(30), 30),
        st(Token::Return, 30),
    ];
    let (hir, _) = build_clean(tokens);
    assert_eq!(
        hir,
        vec![
            Hir::GoSub { label: 0 },
            Hir::Label { id: 0 },
            Hir::Return,
        ]
    );
}

#[test]
fn jump_to_missing_line_is_a_fatal_build_error() {
    // 10 GOTO 99
    let tokens = vec![
        st(Token::Number(10), 10),
        st(Token::Goto, 10),
        st(Token::Number(99), 10),
    ];
    let program = parse_clean(tokens);
    let result = HirBuilder::new(program).build();
    assert_eq!(
        result.err(),
        Some(BuildError::UnresolvedJumpTarget { line_number: 99 })
    );
}

#[test]
fn next_without_open_for_is_a_fatal_build_error() {
    // 10 NEXT I
    let tokens = vec![
        st(Token::Number(10), 10),
        st(Token::Next, 10),
        st(Token::Identifier("I".to_string()), 10),
    ];
    let program = parse_clean(tokens);
    let result = HirBuilder::new(program).build();
    assert_eq!(result.err(), Some(BuildError::UnmatchedNext));
}

#[test]
fn if_lowers_through_a_negated_condition() {
    // 10 IF A THEN RETURN: the condition is negated into a fresh
    // variable and the branch skips the THEN statement when it holds.
    let tokens = vec![
        st(Token::Number(10), 10),
        st(Token::If, 10),
        st(Token::Identifier("A".to_string()), 10),
        st(Token::Then, 10),
        st(Token::Return, 10),
    ];
    let (hir, _) = build_clean(tokens);
    assert_eq!(
        hir,
        vec![
            expr(var(0), BinaryOperator::Eq, lit(0), var(1)),
            Hir::If {
                condition: var(1),
                label: 0
            },
            Hir::Return,
            Hir::Label { id: 0 },
        ]
    );
}

#[test]
fn else_branch_runs_unconditionally_after_the_label() {
    // 10 IF 1 THEN LET A = 1 ELSE LET A = 2: the lowering emits no jump
    // around the ELSE branch, so it sits right after the label.
    let tokens = vec![
        st(Token::Number(10), 10),
        st(Token::If, 10),
        st(Token::Number(1), 10),
        st(Token::Then, 10),
        st(Token::Let, 10),
        st(Token::Identifier("A".to_string()), 10),
        st(Token::Equal, 10),
        st(Token::Number(1), 10),
        st(Token::Else, 10),
        st(Token::Let, 10),
        st(Token::Identifier("A".to_string()), 10),
        st(Token::Equal, 10),
        st(Token::Number(2), 10),
    ];
    let (hir, _) = build_clean(tokens);
    assert_eq!(
        hir,
        vec![
            expr(lit(1), BinaryOperator::Eq, lit(0), var(0)),
            Hir::If {
                condition: var(0),
                label: 0
            },
            Hir::Copy {
                src: lit(1),
                dest: var(1)
            },
            Hir::Label { id: 0 },
            Hir::Copy {
                src: lit(2),
                dest: var(1)
            },
        ]
    );
}

#[test]
fn input_prompt_prints_before_reading() {
    // 10 INPUT "NAME"; N$
    let tokens = vec![
        st(Token::Number(10), 10),
        st(Token::Input, 10),
        st(Token::StringLiteral("NAME".to_string()), 10),
        st(Token::Semicolon, 10),
        st(Token::Identifier("N$".to_string()), 10),
    ];
    let (hir, strs) = build_clean(tokens);
    assert_eq!(
        hir,
        vec![
            Hir::Print {
                operand: Operand::IndirectNumberLiteral { value: 0 }
            },
            Hir::Input {
                dest: Operand::IndirectVariable { id: 0 }
            },
        ]
    );
    assert_eq!(strs, vec!["NAME".to_string()]);
}

#[test]
fn building_twice_from_the_same_source_is_identical() {
    let tokens = || {
        vec![
            st(Token::Number(10), 10),
            st(Token::Let, 10),
            st(Token::Identifier("X".to_string()), 10),
            st(Token::Equal, 10),
            st(Token::Number(2), 10),
            st(Token::Plus, 10),
            st(Token::Number(3), 10),
            st(Token::Newline, 10),
            st(Token::Number(20), 20),
            st(Token::Print, 20),
            st(Token::Identifier("X".to_string()), 20),
            st(Token::Semicolon, 20),
            st(Token::StringLiteral("OK".to_string()), 20),
            st(Token::Newline, 20),
            st(Token::Number(30), 30),
            st(Token::Goto, 30),
            st(Token::Number(10), 30),
        ]
    };
    let (h1, s1) = build_clean(tokens());
    let (h2, s2) = build_clean(tokens());
    assert_eq!(h1, h2);
    assert_eq!(s1, s2);
}

#[test]
fn operand_accessors_expose_only_their_kind() {
    assert_eq!(var(3).variable_id(), Some(3));
    assert_eq!(var(3).number_literal_value(), None);
    assert_eq!(lit(7).number_literal_value(), Some(7));
    assert_eq!(lit(7).variable_id(), None);
    assert_eq!(
        (Operand::IndirectVariable { id: 2 }).variable_id(),
        None
    );
}

#[test]
fn second_jump_to_the_same_line_reuses_the_label() {
    // 10 LET A = 1 | 20 GOTO 10 | 30 GOTO 10: one label serves both.
    let tokens = vec![
        st(Token::Number(10), 10),
        st(Token::Let, 10),
        st(Token::Identifier("A".to_string()), 10),
        st(Token::Equal, 10),
        st(Token::Number(1), 10),
        st(Token::Newline, 10),
        st(Token::Number(20), 20),
        st(Token::Goto, 20),
        st(Token::Number(10), 20),
        st(Token::Newline, 20),
        st(Token::Number(30), 30),
        st(Token::Goto, 30),
        st(Token::Number(10), 30),
    ];
    let (hir, _) = build_clean(tokens);
    assert_eq!(
        hir,
        vec![
            Hir::Label { id: 0 },
            Hir::Copy {
                src: lit(1),
                dest: var(0)
            },
            Hir::Goto { label: 0 },
            Hir::Goto { label: 0 },
        ]
    );
}

#[test]
fn jump_into_a_loop_gets_its_own_label() {
    // 10 FOR I = 1 TO 2 | 20 NEXT I | 30 GOTO 20: the jump to line 20
    // inserts a fresh label before that line's first instruction, between
    // the loop's branch and its increment.
    let tokens = vec![
        st(Token::Number(10), 10),
        st(Token::For, 10),
        st(Token::Identifier("I".to_string()), 10),
        st(Token::Equal, 10),
        st(Token::Number(1), 10),
        st(Token::To, 10),
        st(Token::Number(2), 10),
        st(Token::Newline, 10),
        st(Token::Number(20), 20),
        st(Token::Next, 20),
        st(Token::Identifier("I".to_string()), 20),
        st(Token::Newline, 20),
        st(Token::Number(30), 30),
        st(Token::Goto, 30),
        st(Token::Number(20), 30),
    ];
    let (hir, _) = build_clean(tokens);
    assert_eq!(
        hir,
        vec![
            Hir::Copy {
                src: lit(1),
                dest: var(0)
            },
            Hir::Label { id: 0 },
            expr(var(0), BinaryOperator::Ge, lit(2), var(1)),
            Hir::If {
                condition: var(1),
                label: 1
            },
            Hir::Label { id: 2 },
            expr(var(0), BinaryOperator::Add, lit(1), var(0)),
            Hir::Goto { label: 0 },
            Hir::Label { id: 1 },
            Hir::Goto { label: 2 },
        ]
    );
}

#[test]
fn empty_source_builds_an_empty_program() {
    let program = parse_clean(Vec::new());
    assert_eq!(program.len(), 0);
    let (hir, strs) = HirBuilder::new(program).build().unwrap();
    assert!(hir.instructions().is_empty());
    assert!(strs.is_empty());
}

#[test]
fn wait_data_rem_emit_no_instructions() {
    // 10 WAIT 5 : REM note : DATA 1
    let tokens = vec![
        st(Token::Number(10), 10),
        st(Token::Wait, 10),
        st(Token::Number(5), 10),
        st(Token::Colon, 10),
        st(Token::Rem(" note".to_string()), 10),
        st(Token::Colon, 10),
        st(Token::Data, 10),
        st(Token::Number(1), 10),
    ];
    let (hir, strs) = build_clean(tokens);
    assert!(hir.is_empty());
    assert!(strs.is_empty());
}
