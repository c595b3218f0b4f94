//! The mathematical definition of the grammar.
//!
//! Each function here defines, over a token sequence and a position, what
//! one production of the surface language recognizes, which abstract
//! syntax it produces, how far it advances, which node ids it assigns, and
//! which error it raises where.  The executable parser in
//! [`crate::parser`] is proved to follow these functions exactly.
//!
//! Expression parsing never fails: a position where no expression (or no
//! well-formed parenthesized expression) starts simply recognizes nothing,
//! and consumes nothing — the backtracking contract.  Statement parsing
//! fails with a structured [`Error`].

use vstd::prelude::*;
use crate::ast::{add_line_s, BinaryOperator, DataItemS, ExprKindS, ExprS, LineS, StmtS};
use crate::error::{Error, ErrorKind};
use crate::tokens::{STok, TokenS};

verus! {

/// The token at a position, if the position is in range.
pub open spec fn tok_at(t: Seq<STok>, i: int) -> Option<TokenS> {
    if 0 <= i < t.len() {
        Some(t[i].tok)
    } else {
        None
    }
}

/// The source line blamed for a diagnostic at a position: the line of the
/// token there, or of the last token once the stream is exhausted.
pub open spec fn line_at(t: Seq<STok>, i: int) -> u32 {
    if 0 <= i < t.len() {
        t[i].line
    } else if t.len() > 0 {
        t[t.len() - 1].line
    } else {
        0
    }
}

/// Node ids grow by one per node; at the very top of the id space they
/// saturate, so id assignment is total.
pub open spec fn bump_id(id: u32) -> u32 {
    if id < u32::MAX {
        (id + 1) as u32
    } else {
        id
    }
}

/// What recognizing an expression yields: the next position, the next free
/// node id, and the expression's value.
pub struct PE {
    pub next: int,
    pub id: u32,
    pub expr: ExprS,
}

/// What recognizing a statement yields.
pub struct PS {
    pub next: int,
    pub id: u32,
    pub stmt: StmtS,
}

/// How a statement-level production fails: the error, the position the
/// parse stopped at, and the next free node id at that point.
pub struct PFail {
    pub err: Error,
    pub next: int,
    pub id: u32,
}

/// The failure raised at a position.
pub open spec fn perr(t: Seq<STok>, i: int, id: u32, kind: ErrorKind) -> PFail {
    PFail { err: Error { kind, line: line_at(t, i) }, next: i, id }
}

// ------------------------------------------------------------------
// Expressions: precedence climbing, one function per level.
// Each level recognizes its left operand at the next-higher level, then
// optionally an operator of its own level and a right operand by
// re-entering the *same* level: same-level chains group to the right.
// ------------------------------------------------------------------

/// The operator tokens of the `*` / `/` level.
pub open spec fn mul_op(tk: TokenS) -> Option<BinaryOperator> {
    match tk {
        TokenS::Star => Some(BinaryOperator::Mul),
        TokenS::Slash => Some(BinaryOperator::Div),
        _ => None,
    }
}

/// The operator tokens of the `+` / `-` level.
pub open spec fn add_op(tk: TokenS) -> Option<BinaryOperator> {
    match tk {
        TokenS::Plus => Some(BinaryOperator::Add),
        TokenS::Minus => Some(BinaryOperator::Sub),
        _ => None,
    }
}

/// The comparison operator tokens.
pub open spec fn cmp_op(tk: TokenS) -> Option<BinaryOperator> {
    match tk {
        TokenS::Equal => Some(BinaryOperator::Eq),
        TokenS::NotEqual => Some(BinaryOperator::Ne),
        TokenS::Less => Some(BinaryOperator::Lt),
        TokenS::LessEqual => Some(BinaryOperator::Le),
        TokenS::Greater => Some(BinaryOperator::Gt),
        TokenS::GreaterEqual => Some(BinaryOperator::Ge),
        _ => None,
    }
}

/// The logical operator tokens.
pub open spec fn logic_op(tk: TokenS) -> Option<BinaryOperator> {
    match tk {
        TokenS::And => Some(BinaryOperator::And),
        TokenS::Or => Some(BinaryOperator::Or),
        _ => None,
    }
}

/// A factor: a number literal, a string literal, a variable reference, or
/// a fully parenthesized sub-expression.
pub open spec fn p_factor(t: Seq<STok>, i: int, id: u32) -> Option<PE>
    decreases t.len() - i, 0int,
{
    match tok_at(t, i) {
        Some(TokenS::Number(n)) => Some(
            PE { next: i + 1, id: bump_id(id), expr: ExprS { id, kind: ExprKindS::NumberLiteral(n) } },
        ),
        Some(TokenS::Identifier(s)) => Some(
            PE { next: i + 1, id: bump_id(id), expr: ExprS { id, kind: ExprKindS::Variable(s) } },
        ),
        Some(TokenS::StringLiteral(s)) => Some(
            PE {
                next: i + 1,
                id: bump_id(id),
                expr: ExprS { id, kind: ExprKindS::StringLiteral(s) },
            },
        ),
        Some(TokenS::LeftParen) => match p_and_or(t, i + 1, id) {
            Some(pe) => match tok_at(t, pe.next) {
                Some(TokenS::RightParen) => Some(PE { next: pe.next + 1, id: pe.id, expr: pe.expr }),
                _ => None,
            },
            None => None,
        },
        _ => None,
    }
}

/// The `*` / `/` level.
pub open spec fn p_mul_div(t: Seq<STok>, i: int, id: u32) -> Option<PE>
    decreases t.len() - i, 1int,
{
    match p_factor(t, i, id) {
        Some(left) => {
            if left.next >= i && left.next < t.len() {
                match mul_op(t[left.next].tok) {
                    Some(op) => match p_mul_div(t, left.next + 1, left.id) {
                        Some(right) => Some(
                            PE {
                                next: right.next,
                                id: bump_id(right.id),
                                expr: ExprS {
                                    id: right.id,
                                    kind: ExprKindS::Binary {
                                        left: Box::new(left.expr),
                                        op,
                                        right: Box::new(right.expr),
                                    },
                                },
                            },
                        ),
                        None => Some(left),
                    },
                    None => Some(left),
                }
            } else {
                Some(left)
            }
        },
        None => None,
    }
}

/// The `+` / `-` level.
pub open spec fn p_add_sub(t: Seq<STok>, i: int, id: u32) -> Option<PE>
    decreases t.len() - i, 2int,
{
    match p_mul_div(t, i, id) {
        Some(left) => {
            if left.next >= i && left.next < t.len() {
                match add_op(t[left.next].tok) {
                    Some(op) => match p_add_sub(t, left.next + 1, left.id) {
                        Some(right) => Some(
                            PE {
                                next: right.next,
                                id: bump_id(right.id),
                                expr: ExprS {
                                    id: right.id,
                                    kind: ExprKindS::Binary {
                                        left: Box::new(left.expr),
                                        op,
                                        right: Box::new(right.expr),
                                    },
                                },
                            },
                        ),
                        None => Some(left),
                    },
                    None => Some(left),
                }
            } else {
                Some(left)
            }
        },
        None => None,
    }
}

/// The comparison level.
pub open spec fn p_comparison(t: Seq<STok>, i: int, id: u32) -> Option<PE>
    decreases t.len() - i, 3int,
{
    match p_add_sub(t, i, id) {
        Some(left) => {
            if left.next >= i && left.next < t.len() {
                match cmp_op(t[left.next].tok) {
                    Some(op) => match p_comparison(t, left.next + 1, left.id) {
                        Some(right) => Some(
                            PE {
                                next: right.next,
                                id: bump_id(right.id),
                                expr: ExprS {
                                    id: right.id,
                                    kind: ExprKindS::Binary {
                                        left: Box::new(left.expr),
                                        op,
                                        right: Box::new(right.expr),
                                    },
                                },
                            },
                        ),
                        None => Some(left),
                    },
                    None => Some(left),
                }
            } else {
                Some(left)
            }
        },
        None => None,
    }
}

/// The `AND` / `OR` level: the loosest-binding one.
pub open spec fn p_and_or(t: Seq<STok>, i: int, id: u32) -> Option<PE>
    decreases t.len() - i, 4int,
{
    match p_comparison(t, i, id) {
        Some(left) => {
            if left.next >= i && left.next < t.len() {
                match logic_op(t[left.next].tok) {
                    Some(op) => match p_and_or(t, left.next + 1, left.id) {
                        Some(right) => Some(
                            PE {
                                next: right.next,
                                id: bump_id(right.id),
                                expr: ExprS {
                                    id: right.id,
                                    kind: ExprKindS::Binary {
                                        left: Box::new(left.expr),
                                        op,
                                        right: Box::new(right.expr),
                                    },
                                },
                            },
                        ),
                        None => Some(left),
                    },
                    None => Some(left),
                }
            } else {
                Some(left)
            }
        },
        None => None,
    }
}

/// A whole expression.
pub open spec fn p_expression(t: Seq<STok>, i: int, id: u32) -> Option<PE> {
    p_and_or(t, i, id)
}

// ------------------------------------------------------------------
// Laws of the expression grammar.
// ------------------------------------------------------------------

/// Precedence: in `a + b * c` the `*` binds tighter, for every choice of
/// number literals, of source lines, and of the starting node id — the
/// whole expression is recognized as `a + (b * c)`.
pub proof fn lemma_precedence_mul_over_add(t: Seq<STok>, a: i32, b: i32, c: i32, id: u32)
    requires
        t.len() == 5,
        t[0].tok == TokenS::Number(a),
        t[1].tok == TokenS::Plus,
        t[2].tok == TokenS::Number(b),
        t[3].tok == TokenS::Star,
        t[4].tok == TokenS::Number(c),
    ensures
        p_expression(t, 0, id) matches Some(pe) && pe.next == 5 && (pe.expr.kind matches
            ExprKindS::Binary { left: l, op: o, right: r } && o == BinaryOperator::Add
            && (*l).kind == ExprKindS::NumberLiteral(a) && ((*r).kind matches ExprKindS::Binary {
            left: rl,
            op: ro,
            right: rr,
        } && ro == BinaryOperator::Mul && (*rl).kind == ExprKindS::NumberLiteral(b) && (*rr).kind
            == ExprKindS::NumberLiteral(c))),
{
    let b1 = bump_id(id);
    let b2 = bump_id(b1);
    let b3 = bump_id(b2);
    let b4 = bump_id(b3);
    let ea = ExprS { id, kind: ExprKindS::NumberLiteral(a) };
    let eb = ExprS { id: b1, kind: ExprKindS::NumberLiteral(b) };
    let ec = ExprS { id: b2, kind: ExprKindS::NumberLiteral(c) };
    let ebc = ExprS {
        id: b3,
        kind: ExprKindS::Binary { left: Box::new(eb), op: BinaryOperator::Mul, right: Box::new(ec) },
    };
    let eabc = ExprS {
        id: b4,
        kind: ExprKindS::Binary {
            left: Box::new(ea),
            op: BinaryOperator::Add,
            right: Box::new(ebc),
        },
    };
    assert(p_factor(t, 0, id) == Some(PE { next: 1, id: b1, expr: ea }));
    assert(p_mul_div(t, 0, id) == Some(PE { next: 1, id: b1, expr: ea }));
    assert(p_factor(t, 2, b1) == Some(PE { next: 3, id: b2, expr: eb }));
    assert(p_factor(t, 4, b2) == Some(PE { next: 5, id: b3, expr: ec }));
    assert(p_mul_div(t, 4, b2) == Some(PE { next: 5, id: b3, expr: ec }));
    assert(p_mul_div(t, 2, b1) == Some(PE { next: 5, id: b4, expr: ebc }));
    assert(p_add_sub(t, 2, b1) == Some(PE { next: 5, id: b4, expr: ebc }));
    assert(p_add_sub(t, 0, id) == Some(PE { next: 5, id: bump_id(b4), expr: eabc }));
    assert(p_comparison(t, 0, id) == Some(PE { next: 5, id: bump_id(b4), expr: eabc }));
    assert(p_and_or(t, 0, id) == Some(PE { next: 5, id: bump_id(b4), expr: eabc }));
}

/// Same-precedence chains group to the right: `a - b - c` is recognized
/// as `a - (b - c)`, not as the arithmetic-conventional `(a - b) - c`,
/// for every choice of number literals, source lines, and starting id.
pub proof fn lemma_chain_groups_right(t: Seq<STok>, a: i32, b: i32, c: i32, id: u32)
    requires
        t.len() == 5,
        t[0].tok == TokenS::Number(a),
        t[1].tok == TokenS::Minus,
        t[2].tok == TokenS::Number(b),
        t[3].tok == TokenS::Minus,
        t[4].tok == TokenS::Number(c),
    ensures
        p_expression(t, 0, id) matches Some(pe) && pe.next == 5 && (pe.expr.kind matches
            ExprKindS::Binary { left: l, op: o, right: r } && o == BinaryOperator::Sub
            && (*l).kind == ExprKindS::NumberLiteral(a) && ((*r).kind matches ExprKindS::Binary {
            left: rl,
            op: ro,
            right: rr,
        } && ro == BinaryOperator::Sub && (*rl).kind == ExprKindS::NumberLiteral(b) && (*rr).kind
            == ExprKindS::NumberLiteral(c))),
{
    let b1 = bump_id(id);
    let b2 = bump_id(b1);
    let b3 = bump_id(b2);
    let b4 = bump_id(b3);
    let ea = ExprS { id, kind: ExprKindS::NumberLiteral(a) };
    let eb = ExprS { id: b1, kind: ExprKindS::NumberLiteral(b) };
    let ec = ExprS { id: b2, kind: ExprKindS::NumberLiteral(c) };
    let ebc = ExprS {
        id: b3,
        kind: ExprKindS::Binary { left: Box::new(eb), op: BinaryOperator::Sub, right: Box::new(ec) },
    };
    let eabc = ExprS {
        id: b4,
        kind: ExprKindS::Binary {
            left: Box::new(ea),
            op: BinaryOperator::Sub,
            right: Box::new(ebc),
        },
    };
    assert(p_factor(t, 0, id) == Some(PE { next: 1, id: b1, expr: ea }));
    assert(p_mul_div(t, 0, id) == Some(PE { next: 1, id: b1, expr: ea }));
    assert(p_factor(t, 2, b1) == Some(PE { next: 3, id: b2, expr: eb }));
    assert(p_mul_div(t, 2, b1) == Some(PE { next: 3, id: b2, expr: eb }));
    assert(p_factor(t, 4, b2) == Some(PE { next: 5, id: b3, expr: ec }));
    assert(p_mul_div(t, 4, b2) == Some(PE { next: 5, id: b3, expr: ec }));
    assert(p_add_sub(t, 4, b2) == Some(PE { next: 5, id: b3, expr: ec }));
    assert(p_add_sub(t, 2, b1) == Some(PE { next: 5, id: b4, expr: ebc }));
    assert(p_add_sub(t, 0, id) == Some(PE { next: 5, id: bump_id(b4), expr: eabc }));
    assert(p_comparison(t, 0, id) == Some(PE { next: 5, id: bump_id(b4), expr: eabc }));
    assert(p_and_or(t, 0, id) == Some(PE { next: 5, id: bump_id(b4), expr: eabc }));
}

// ------------------------------------------------------------------
// Statements.  Each production is entered at the position of its leading
// keyword (which the dispatcher has already recognized) and consumes it.
// ------------------------------------------------------------------

/// `LET` (keyword optional) `ident = expr`.
pub open spec fn p_let(t: Seq<STok>, i: int, id: u32) -> Result<PS, PFail> {
    let after_kw = match tok_at(t, i) {
        Some(TokenS::Let) => match tok_at(t, i + 1) {
            Some(TokenS::Identifier(v)) => Ok((i + 2, v)),
            _ => Err(perr(t, i + 1, id, ErrorKind::ExpectedIdentifier)),
        },
        Some(TokenS::Identifier(v)) => Ok((i + 1, v)),
        _ => Err(perr(t, i, id, ErrorKind::ExpectedStatement)),
    };
    match after_kw {
        Ok((j, v)) => match tok_at(t, j) {
            Some(TokenS::Equal) => match p_expression(t, j + 1, id) {
                Some(pe) => Ok(
                    PS {
                        next: pe.next,
                        id: pe.id,
                        stmt: StmtS::Let { variable: v, expression: pe.expr },
                    },
                ),
                None => Err(perr(t, j + 1, id, ErrorKind::ExpectedExpression)),
            },
            _ => Err(perr(t, j, id, ErrorKind::UnexpectedToken)),
        },
        Err(f) => Err(f),
    }
}

/// What a `PRINT` / `PAUSE` item list yields.
pub struct PIt {
    pub next: int,
    pub id: u32,
    pub items: Seq<ExprS>,
}

/// Zero or more expressions separated by `;`; a trailing `;` is consumed
/// even when no further expression follows it.
pub open spec fn p_print_items(t: Seq<STok>, i: int, id: u32) -> PIt
    decreases t.len() - i,
{
    match p_expression(t, i, id) {
        None => PIt { next: i, id, items: Seq::empty() },
        Some(pe) => {
            if pe.next >= i && pe.next < t.len() && t[pe.next].tok is Semicolon {
                let rest = p_print_items(t, pe.next + 1, pe.id);
                PIt { next: rest.next, id: rest.id, items: seq![pe.expr] + rest.items }
            } else {
                PIt { next: pe.next, id: pe.id, items: seq![pe.expr] }
            }
        },
    }
}

/// `PRINT expr (; expr)*`.
pub open spec fn p_print(t: Seq<STok>, i: int, id: u32) -> Result<PS, PFail> {
    let items = p_print_items(t, i + 1, id);
    Ok(PS { next: items.next, id: items.id, stmt: StmtS::Print { content: items.items } })
}

/// `PAUSE expr (; expr)*`.
pub open spec fn p_pause(t: Seq<STok>, i: int, id: u32) -> Result<PS, PFail> {
    let items = p_print_items(t, i + 1, id);
    Ok(PS { next: items.next, id: items.id, stmt: StmtS::Pause { content: items.items } })
}

/// `INPUT [prompt] [;] ident`.
pub open spec fn p_input(t: Seq<STok>, i: int, id: u32) -> Result<PS, PFail> {
    let (j, id1, prompt) = match p_expression(t, i + 1, id) {
        Some(pe) => (pe.next, pe.id, Some(pe.expr)),
        None => (i + 1, id, None),
    };
    let j1 = if tok_at(t, j) is Some && tok_at(t, j) matches Some(TokenS::Semicolon) {
        j + 1
    } else {
        j
    };
    match tok_at(t, j1) {
        Some(TokenS::Identifier(v)) => Ok(
            PS { next: j1 + 1, id: id1, stmt: StmtS::Input { prompt, variable: v } },
        ),
        _ => Err(PFail {
            err: Error { kind: ErrorKind::ExpectedIdentifier, line: line_at(t, j1) },
            next: j1,
            id: id1,
        }),
    }
}

/// `WAIT expr`.
pub open spec fn p_wait(t: Seq<STok>, i: int, id: u32) -> Result<PS, PFail> {
    match p_expression(t, i + 1, id) {
        Some(pe) => Ok(PS { next: pe.next, id: pe.id, stmt: StmtS::Wait { time: pe.expr } }),
        None => Err(perr(t, i + 1, id, ErrorKind::ExpectedExpression)),
    }
}

/// A non-negative integer literal at `i`, as a `u32`.
pub open spec fn p_unsigned(t: Seq<STok>, i: int) -> Option<u32> {
    match tok_at(t, i) {
        Some(TokenS::Number(n)) => if n >= 0 {
            Some(n as u32)
        } else {
            None
        },
        _ => None,
    }
}

/// `GOTO line`.
pub open spec fn p_goto(t: Seq<STok>, i: int, id: u32) -> Result<PS, PFail> {
    match p_unsigned(t, i + 1) {
        Some(n) => Ok(PS { next: i + 2, id, stmt: StmtS::Goto { line_number: n } }),
        None => Err(perr(t, i + 1, id, ErrorKind::ExpectedUnsigned)),
    }
}

/// `GOSUB line`.
pub open spec fn p_gosub(t: Seq<STok>, i: int, id: u32) -> Result<PS, PFail> {
    match p_unsigned(t, i + 1) {
        Some(n) => Ok(PS { next: i + 2, id, stmt: StmtS::GoSub { line_number: n } }),
        None => Err(perr(t, i + 1, id, ErrorKind::ExpectedUnsigned)),
    }
}

/// `RETURN`.
pub open spec fn p_return(t: Seq<STok>, i: int, id: u32) -> Result<PS, PFail> {
    Ok(PS { next: i + 1, id, stmt: StmtS::Return })
}

/// `END`.
pub open spec fn p_end(t: Seq<STok>, i: int, id: u32) -> Result<PS, PFail> {
    Ok(PS { next: i + 1, id, stmt: StmtS::End })
}

/// `DATA value (, value)*`: each value is a literal number or string.
pub open spec fn p_data_items(t: Seq<STok>, i: int) -> Result<(int, Seq<DataItemS>), (Error, int)>
    decreases t.len() - i,
{
    let item = match tok_at(t, i) {
        Some(TokenS::Number(n)) => Some(DataItemS::Number(n)),
        Some(TokenS::StringLiteral(s)) => Some(DataItemS::StringItem(s)),
        _ => None,
    };
    match item {
        None => Err((Error { kind: ErrorKind::ExpectedDataItem, line: line_at(t, i) }, i)),
        Some(v) => {
            if i + 1 < t.len() && t[i + 1].tok is Comma {
                match p_data_items(t, i + 2) {
                    Ok((n, rest)) => Ok((n, seq![v] + rest)),
                    Err(e) => Err(e),
                }
            } else {
                Ok((i + 1, seq![v]))
            }
        },
    }
}

/// `DATA value (, value)*`.
pub open spec fn p_data(t: Seq<STok>, i: int, id: u32) -> Result<PS, PFail> {
    match p_data_items(t, i + 1) {
        Ok((n, values)) => Ok(PS { next: n, id, stmt: StmtS::Data { values } }),
        Err((e, at)) => Err(PFail { err: e, next: at, id }),
    }
}

/// `READ ident (, ident)*`.
pub open spec fn p_read_items(t: Seq<STok>, i: int) -> Result<(int, Seq<Seq<char>>), (Error, int)>
    decreases t.len() - i,
{
    match tok_at(t, i) {
        Some(TokenS::Identifier(v)) => {
            if i + 1 < t.len() && t[i + 1].tok is Comma {
                match p_read_items(t, i + 2) {
                    Ok((n, rest)) => Ok((n, seq![v] + rest)),
                    Err(e) => Err(e),
                }
            } else {
                Ok((i + 1, seq![v]))
            }
        },
        _ => Err((Error { kind: ErrorKind::ExpectedIdentifier, line: line_at(t, i) }, i)),
    }
}

/// `READ ident (, ident)*`.
pub open spec fn p_read(t: Seq<STok>, i: int, id: u32) -> Result<PS, PFail> {
    match p_read_items(t, i + 1) {
        Ok((n, variables)) => Ok(PS { next: n, id, stmt: StmtS::Read { variables } }),
        Err((e, at)) => Err(PFail { err: e, next: at, id }),
    }
}

/// `RESTORE [line]`: a missing number means "from the beginning"; a
/// negative one is an error.
pub open spec fn p_restore(t: Seq<STok>, i: int, id: u32) -> Result<PS, PFail> {
    match tok_at(t, i + 1) {
        Some(TokenS::Number(n)) => if n >= 0 {
            Ok(PS { next: i + 2, id, stmt: StmtS::Restore { line_number: Some(n as u32) } })
        } else {
            Err(perr(t, i + 1, id, ErrorKind::ExpectedUnsigned))
        },
        _ => Ok(PS { next: i + 1, id, stmt: StmtS::Restore { line_number: None } }),
    }
}

/// The byte values of a `POKE`: non-negative integers that fit 8 bits.
pub open spec fn p_poke_values(t: Seq<STok>, i: int) -> Result<(int, Seq<u8>), (Error, int)>
    decreases t.len() - i,
{
    let byte = match tok_at(t, i) {
        Some(TokenS::Number(n)) => if 0 <= n <= 255 {
            Some(n as u8)
        } else {
            None
        },
        _ => None,
    };
    match byte {
        None => Err((Error { kind: ErrorKind::ExpectedUnsigned, line: line_at(t, i) }, i)),
        Some(b) => {
            if i + 1 < t.len() && t[i + 1].tok is Comma {
                match p_poke_values(t, i + 2) {
                    Ok((n, rest)) => Ok((n, seq![b] + rest)),
                    Err(e) => Err(e),
                }
            } else {
                Ok((i + 1, seq![b]))
            }
        },
    }
}

/// `POKE address, byte (, byte)*`.
pub open spec fn p_poke(t: Seq<STok>, i: int, id: u32) -> Result<PS, PFail> {
    match p_unsigned(t, i + 1) {
        None => Err(perr(t, i + 1, id, ErrorKind::ExpectedUnsigned)),
        Some(address) => match tok_at(t, i + 2) {
            Some(TokenS::Comma) => match p_poke_values(t, i + 3) {
                Ok((n, values)) => Ok(PS { next: n, id, stmt: StmtS::Poke { address, values } }),
                Err((e, at)) => Err(PFail { err: e, next: at, id }),
            },
            _ => Err(perr(t, i + 2, id, ErrorKind::UnexpectedToken)),
        },
    }
}

/// `CALL address`.
pub open spec fn p_call(t: Seq<STok>, i: int, id: u32) -> Result<PS, PFail> {
    match p_unsigned(t, i + 1) {
        Some(address) => Ok(PS { next: i + 2, id, stmt: StmtS::Call { address } }),
        None => Err(perr(t, i + 1, id, ErrorKind::ExpectedUnsigned)),
    }
}

/// `NEXT ident`.
pub open spec fn p_next(t: Seq<STok>, i: int, id: u32) -> Result<PS, PFail> {
    match tok_at(t, i + 1) {
        Some(TokenS::Identifier(v)) => Ok(
            PS { next: i + 2, id, stmt: StmtS::Next { variable: v } },
        ),
        _ => Err(perr(t, i + 1, id, ErrorKind::ExpectedIdentifier)),
    }
}

/// `FOR ident = fromExpr TO toExpr [STEP stepExpr]`.
pub open spec fn p_for(t: Seq<STok>, i: int, id: u32) -> Result<PS, PFail> {
    match tok_at(t, i + 1) {
        Some(TokenS::Identifier(v)) => match tok_at(t, i + 2) {
            Some(TokenS::Equal) => match p_expression(t, i + 3, id) {
                None => Err(perr(t, i + 3, id, ErrorKind::ExpectedExpression)),
                Some(from) => match tok_at(t, from.next) {
                    Some(TokenS::To) => match p_expression(t, from.next + 1, from.id) {
                        None => Err(
                            perr(t, from.next + 1, from.id, ErrorKind::ExpectedExpression),
                        ),
                        Some(to) => match tok_at(t, to.next) {
                            Some(TokenS::Step) => match p_expression(t, to.next + 1, to.id) {
                                None => Err(
                                    perr(t, to.next + 1, to.id, ErrorKind::ExpectedExpression),
                                ),
                                Some(step) => Ok(
                                    PS {
                                        next: step.next,
                                        id: step.id,
                                        stmt: StmtS::For {
                                            variable: v,
                                            from: from.expr,
                                            to: to.expr,
                                            step: Some(step.expr),
                                        },
                                    },
                                ),
                            },
                            _ => Ok(
                                PS {
                                    next: to.next,
                                    id: to.id,
                                    stmt: StmtS::For {
                                        variable: v,
                                        from: from.expr,
                                        to: to.expr,
                                        step: None,
                                    },
                                },
                            ),
                        },
                    },
                    _ => Err(perr(t, from.next, from.id, ErrorKind::UnexpectedToken)),
                },
            },
            _ => Err(perr(t, i + 2, id, ErrorKind::UnexpectedToken)),
        },
        _ => Err(perr(t, i + 1, id, ErrorKind::ExpectedIdentifier)),
    }
}

/// `DIM ident ( size ) [* length]`.
pub open spec fn p_dim(t: Seq<STok>, i: int, id: u32) -> Result<PS, PFail> {
    match tok_at(t, i + 1) {
        Some(TokenS::Identifier(v)) => match tok_at(t, i + 2) {
            Some(TokenS::LeftParen) => match p_unsigned(t, i + 3) {
                None => Err(perr(t, i + 3, id, ErrorKind::ExpectedUnsigned)),
                Some(size) => match tok_at(t, i + 4) {
                    Some(TokenS::RightParen) => match tok_at(t, i + 5) {
                        Some(TokenS::Star) => match p_unsigned(t, i + 6) {
                            Some(length) => Ok(
                                PS {
                                    next: i + 7,
                                    id,
                                    stmt: StmtS::Dim { variable: v, size, length: Some(length) },
                                },
                            ),
                            None => Err(perr(t, i + 6, id, ErrorKind::ExpectedUnsigned)),
                        },
                        _ => Ok(
                            PS {
                                next: i + 5,
                                id,
                                stmt: StmtS::Dim { variable: v, size, length: None },
                            },
                        ),
                    },
                    _ => Err(perr(t, i + 4, id, ErrorKind::ExpectedRightParen)),
                },
            },
            _ => Err(perr(t, i + 2, id, ErrorKind::ExpectedLeftParen)),
        },
        _ => Err(perr(t, i + 1, id, ErrorKind::ExpectedIdentifier)),
    }
}

/// `REM ...`: the comment's trailing text is kept as statement payload.
pub open spec fn p_comment(t: Seq<STok>, i: int, id: u32) -> Result<PS, PFail> {
    match tok_at(t, i) {
        Some(TokenS::Rem(s)) => Ok(PS { next: i + 1, id, stmt: StmtS::Rem { content: s } }),
        _ => Err(perr(t, i, id, ErrorKind::ExpectedStatement)),
    }
}

// ------------------------------------------------------------------
// Statement dispatch, colon-joined sequences, lines, and the program
// loop with line-level error recovery.
// ------------------------------------------------------------------

/// One atomic statement, dispatched on its leading token.
pub open spec fn p_atomic(t: Seq<STok>, i: int, id: u32) -> Result<PS, PFail>
    decreases t.len() - i, 1int,
{
    match tok_at(t, i) {
        Some(TokenS::Let) => p_let(t, i, id),
        Some(TokenS::Identifier(_)) => p_let(t, i, id),
        Some(TokenS::Print) => p_print(t, i, id),
        Some(TokenS::Pause) => p_pause(t, i, id),
        Some(TokenS::Input) => p_input(t, i, id),
        Some(TokenS::Wait) => p_wait(t, i, id),
        Some(TokenS::Goto) => p_goto(t, i, id),
        Some(TokenS::For) => p_for(t, i, id),
        Some(TokenS::Next) => p_next(t, i, id),
        Some(TokenS::End) => p_end(t, i, id),
        Some(TokenS::Gosub) => p_gosub(t, i, id),
        Some(TokenS::If) => p_if(t, i, id),
        Some(TokenS::Return) => p_return(t, i, id),
        Some(TokenS::Data) => p_data(t, i, id),
        Some(TokenS::Read) => p_read(t, i, id),
        Some(TokenS::Restore) => p_restore(t, i, id),
        Some(TokenS::Poke) => p_poke(t, i, id),
        Some(TokenS::Call) => p_call(t, i, id),
        Some(TokenS::Dim) => p_dim(t, i, id),
        Some(TokenS::Rem(_)) => p_comment(t, i, id),
        _ => Err(perr(t, i, id, ErrorKind::ExpectedStatement)),
    }
}

/// `IF expr [THEN] stmt [ELSE stmt]`: both branches are single (possibly
/// colon-joined) statements.
pub open spec fn p_if(t: Seq<STok>, i: int, id: u32) -> Result<PS, PFail>
    decreases t.len() - i, 0int,
{
    match p_expression(t, i + 1, id) {
        None => Err(perr(t, i + 1, id, ErrorKind::ExpectedExpression)),
        Some(cond) => {
            if cond.next >= i + 2 && cond.next <= t.len() {
                let j = if cond.next < t.len() && t[cond.next].tok is Then {
                    cond.next + 1
                } else {
                    cond.next
                };
                match p_statement(t, j, cond.id) {
                    Err(f) => Err(f),
                    Ok(then) => {
                        if then.next >= i && then.next < t.len() && t[then.next].tok is Else {
                            match p_statement(t, then.next + 1, then.id) {
                                Err(f) => Err(f),
                                Ok(els) => Ok(
                                    PS {
                                        next: els.next,
                                        id: els.id,
                                        stmt: StmtS::If {
                                            condition: cond.expr,
                                            then: Box::new(then.stmt),
                                            else_: Some(Box::new(els.stmt)),
                                        },
                                    },
                                ),
                            }
                        } else {
                            Ok(
                                PS {
                                    next: then.next,
                                    id: then.id,
                                    stmt: StmtS::If {
                                        condition: cond.expr,
                                        then: Box::new(then.stmt),
                                        else_: None,
                                    },
                                },
                            )
                        }
                    },
                }
            } else {
                // Never reached: a recognized expression always advances
                // past the `IF` keyword and stays inside the stream.
                Err(perr(t, i + 1, id, ErrorKind::ExpectedExpression))
            }
        },
    }
}

/// The `:`-separated list of atomic statements a line's body is made of.
pub open spec fn p_stmt_list(t: Seq<STok>, i: int, id: u32) -> Result<(int, u32, Seq<StmtS>), PFail>
    decreases t.len() - i, 2int,
{
    match p_atomic(t, i, id) {
        Err(f) => Err(f),
        Ok(ps) => {
            if ps.next >= i && ps.next < t.len() && t[ps.next].tok is Colon {
                match p_stmt_list(t, ps.next + 1, ps.id) {
                    Ok((n, id2, rest)) => Ok((n, id2, seq![ps.stmt] + rest)),
                    Err(f) => Err(f),
                }
            } else {
                Ok((ps.next, ps.id, seq![ps.stmt]))
            }
        },
    }
}

/// A statement body: a single statement stays bare, two or more become a
/// sequence.
pub open spec fn p_statement(t: Seq<STok>, i: int, id: u32) -> Result<PS, PFail>
    decreases t.len() - i, 3int,
{
    match p_stmt_list(t, i, id) {
        Err(f) => Err(f),
        Ok((n, id2, stmts)) => Ok(
            PS {
                next: n,
                id: id2,
                stmt: if stmts.len() == 1 {
                    stmts[0]
                } else {
                    StmtS::Sequence { statements: stmts }
                },
            },
        ),
    }
}

/// What recognizing a full line yields.
pub struct PLine {
    pub next: int,
    pub id: u32,
    pub number: u32,
    pub stmt: StmtS,
}

/// A full line: `lineNumber statementBody (newline | end-of-input)`.
pub open spec fn p_line(t: Seq<STok>, i: int, id: u32) -> Result<PLine, PFail> {
    match p_unsigned(t, i) {
        None => Err(perr(t, i, id, ErrorKind::ExpectedLineNumber)),
        Some(number) => match p_statement(t, i + 1, id) {
            Err(f) => Err(f),
            Ok(ps) => match tok_at(t, ps.next) {
                Some(TokenS::Newline) => Ok(
                    PLine { next: ps.next + 1, id: ps.id, number, stmt: ps.stmt },
                ),
                None => Ok(PLine { next: ps.next, id: ps.id, number, stmt: ps.stmt }),
                Some(_) => Err(PFail {
                    err: Error { kind: ErrorKind::ExpectedEndOfLine, line: line_at(t, ps.next) },
                    next: ps.next,
                    id: ps.id,
                }),
            },
        },
    }
}

/// Line-level recovery: discard tokens up to and including the next
/// newline.
pub open spec fn p_skip_line(t: Seq<STok>, i: int) -> int
    decreases t.len() - i,
{
    if !(0 <= i < t.len()) {
        t.len() as int
    } else if t[i].tok is Newline {
        i + 1
    } else {
        p_skip_line(t, i + 1)
    }
}

/// The program loop: parse lines one after the other; a failed line is
/// recorded as one error, the rest of that line is discarded, and parsing
/// resumes at the next line.
pub open spec fn p_program(
    t: Seq<STok>,
    i: int,
    id: u32,
    acc: Seq<LineS>,
    errs: Seq<Error>,
) -> (Seq<LineS>, Seq<Error>)
    decreases t.len() - i,
{
    if !(0 <= i < t.len()) {
        (acc, errs)
    } else {
        match p_line(t, i, id) {
            Ok(pl) => {
                if i < pl.next <= t.len() {
                    p_program(t, pl.next, pl.id, add_line_s(acc, pl.number, pl.stmt), errs)
                } else {
                    // Never reached: a parsed line always advances and
                    // stays inside the stream.
                    (acc, errs)
                }
            },
            Err(f) => {
                let k = p_skip_line(t, f.next);
                if i < k <= t.len() {
                    p_program(t, k, f.id, acc, errs.push(f.err))
                } else {
                    // Never reached: recovery always advances past the
                    // failing line.
                    (acc, errs.push(f.err))
                }
            },
        }
    }
}

} // verus!
