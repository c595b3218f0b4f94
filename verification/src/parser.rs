//! The executable parser.
//!
//! A [`Parser`] owns the token stream the tokenizer produced and a cursor
//! into it, applies precedence climbing for expressions and recursive
//! descent for statements, and recovers from an error locally for one
//! line.  Every method is proved to recognize exactly what the grammar
//! functions of [`crate::grammar`] say: same syntax tree, same node ids,
//! same cursor movement, same errors.

use vstd::prelude::*;
use crate::ast;
use crate::ast::{BinaryOperator, Expression, ExpressionKind, Statement};
use crate::error::Error;
use crate::grammar::{
    add_op, bump_id, cmp_op, line_at, logic_op, mul_op, p_add_sub, p_and_or, p_atomic, p_call,
    p_comment, p_comparison, p_data, p_data_items, p_dim, p_end, p_expression, p_factor, p_for,
    p_gosub, p_goto, p_if, p_input, p_let, p_line, p_mul_div, p_next, p_pause, p_poke,
    p_poke_values, p_print, p_print_items, p_program, p_read, p_read_items, p_restore, p_return,
    p_skip_line,
    p_statement, p_stmt_list, p_unsigned, p_wait, perr, tok_at, PE, PFail, PIt, PLine, PS,
};
use crate::tokens::{SourceToken, STok, Token, TokenS};

verus! {

broadcast use vstd::std_specs::vec::group_vec_axioms, vstd::seq::group_seq_axioms;

/// Consumes a token stream and produces a parsed program together with the
/// line-level errors met on the way.
pub struct Parser {
    tokens: Vec<SourceToken>,
    pos: usize,
    next_id: u32,
}

/// The executable step recognized an expression (or recognized nothing)
/// exactly as the model `sr` says, moving the cursor and the id counter
/// from (`p0`, `id0`) to (`p1`, `id1`).
pub open spec fn eopt_ok(
    sr: Option<PE>,
    p0: int,
    id0: u32,
    p1: int,
    id1: u32,
    r: Option<Expression>,
) -> bool {
    match sr {
        Some(pe) => r matches Some(e) && e.deep_view() == pe.expr && p1 == pe.next && id1 == pe.id,
        None => r is None && p1 == p0 && id1 == id0,
    }
}

/// The executable step recognized a statement, or failed, exactly as the
/// model `sr` says.
pub open spec fn pst_ok(sr: Result<PS, PFail>, p1: int, id1: u32, r: Result<
    Statement,
    Error,
>) -> bool {
    match sr {
        Ok(ps) => r matches Ok(st) && st.deep_view() == ps.stmt && p1 == ps.next && id1 == ps.id,
        Err(f) => r == Err::<Statement, Error>(f.err) && p1 == f.next && id1 == f.id,
    }
}

impl Parser {
    /// The mathematical value of the token stream.
    pub closed spec fn toks(&self) -> Seq<STok> {
        self.tokens.deep_view()
    }

    /// The cursor.
    pub closed spec fn at(&self) -> int {
        self.pos as int
    }

    /// The next free expression node id.
    pub closed spec fn id(&self) -> u32 {
        self.next_id
    }

    /// A parser over a finished token stream, positioned at its start.
    pub fn new(tokens: Vec<SourceToken>) -> (r: Parser)
        ensures
            r.toks() == tokens.deep_view(),
            r.at() == 0,
            r.id() == 0,
    {
        Parser { tokens, pos: 0, next_id: 0 }
    }

    /// The token under the cursor, if any.
    pub fn current_token(&self) -> (r: Option<&Token>)
        ensures
            match tok_at(self.toks(), self.at()) {
                Some(tk) => r matches Some(t) && t.deep_view() == tk,
                None => r is None,
            },
    {
        if self.pos < self.tokens.len() {
            Some(&self.tokens[self.pos].token)
        } else {
            None
        }
    }

    /// Advance the id counter, saturating at the top of the id space.
    fn bump(&mut self)
        ensures
            final(self).tokens == old(self).tokens,
            final(self).pos == old(self).pos,
            final(self).next_id == bump_id(old(self).next_id),
    {
        if self.next_id < u32::MAX {
            self.next_id = self.next_id + 1;
        }
    }

    /// A factor: a literal, a variable, or a parenthesized expression.
    fn factor(&mut self) -> (r: Option<Expression>)
        ensures
            final(self).tokens == old(self).tokens,
            eopt_ok(
                p_factor(old(self).toks(), old(self).at(), old(self).id()),
                old(self).at(),
                old(self).id(),
                final(self).at(),
                final(self).id(),
                r,
            ),
        decreases self.tokens@.len() - self.pos, 0int,
    {
        if self.pos >= self.tokens.len() {
            return None;
        }
        match &self.tokens[self.pos].token {
            Token::Number(n) => {
                let e = Expression { id: self.next_id, kind: ExpressionKind::NumberLiteral(*n) };
                self.pos = self.pos + 1;
                self.bump();
                Some(e)
            },
            Token::Identifier(s) => {
                let e = Expression { id: self.next_id, kind: ExpressionKind::Variable(s.clone()) };
                self.pos = self.pos + 1;
                self.bump();
                Some(e)
            },
            Token::StringLiteral(s) => {
                let e = Expression {
                    id: self.next_id,
                    kind: ExpressionKind::StringLiteral(s.clone()),
                };
                self.pos = self.pos + 1;
                self.bump();
                Some(e)
            },
            Token::LeftParen => {
                let save_pos = self.pos;
                let save_id = self.next_id;
                self.pos = self.pos + 1;
                match self.and_or() {
                    Some(e) => {
                        if self.pos < self.tokens.len() && matches!(
                            &self.tokens[self.pos].token,
                            Token::RightParen,
                        ) {
                            self.pos = self.pos + 1;
                            Some(e)
                        } else {
                            self.pos = save_pos;
                            self.next_id = save_id;
                            None
                        }
                    },
                    None => {
                        self.pos = save_pos;
                        self.next_id = save_id;
                        None
                    },
                }
            },
            _ => None,
        }
    }

    /// The `*` / `/` level.
    fn mul_div(&mut self) -> (r: Option<Expression>)
        ensures
            final(self).tokens == old(self).tokens,
            eopt_ok(
                p_mul_div(old(self).toks(), old(self).at(), old(self).id()),
                old(self).at(),
                old(self).id(),
                final(self).at(),
                final(self).id(),
                r,
            ),
        decreases self.tokens@.len() - self.pos, 1int,
    {
        let entry = self.pos;
        let left = match self.factor() {
            Some(e) => e,
            None => {
                return None;
            },
        };
        if self.pos >= entry && self.pos < self.tokens.len() {
            let op = match &self.tokens[self.pos].token {
                Token::Star => Some(BinaryOperator::Mul),
                Token::Slash => Some(BinaryOperator::Div),
                _ => None,
            };
            match op {
                Some(op) => {
                    self.pos = self.pos + 1;
                    match self.mul_div() {
                        Some(right) => {
                            let e = Expression {
                                id: self.next_id,
                                kind: ExpressionKind::Binary {
                                    left: Box::new(left),
                                    op,
                                    right: Box::new(right),
                                },
                            };
                            self.bump();
                            Some(e)
                        },
                        None => {
                            self.pos = self.pos - 1;
                            Some(left)
                        },
                    }
                },
                None => Some(left),
            }
        } else {
            Some(left)
        }
    }

    /// The `+` / `-` level.
    fn add_sub(&mut self) -> (r: Option<Expression>)
        ensures
            final(self).tokens == old(self).tokens,
            eopt_ok(
                p_add_sub(old(self).toks(), old(self).at(), old(self).id()),
                old(self).at(),
                old(self).id(),
                final(self).at(),
                final(self).id(),
                r,
            ),
        decreases self.tokens@.len() - self.pos, 2int,
    {
        let entry = self.pos;
        let left = match self.mul_div() {
            Some(e) => e,
            None => {
                return None;
            },
        };
        if self.pos >= entry && self.pos < self.tokens.len() {
            let op = match &self.tokens[self.pos].token {
                Token::Plus => Some(BinaryOperator::Add),
                Token::Minus => Some(BinaryOperator::Sub),
                _ => None,
            };
            match op {
                Some(op) => {
                    self.pos = self.pos + 1;
                    match self.add_sub() {
                        Some(right) => {
                            let e = Expression {
                                id: self.next_id,
                                kind: ExpressionKind::Binary {
                                    left: Box::new(left),
                                    op,
                                    right: Box::new(right),
                                },
                            };
                            self.bump();
                            Some(e)
                        },
                        None => {
                            self.pos = self.pos - 1;
                            Some(left)
                        },
                    }
                },
                None => Some(left),
            }
        } else {
            Some(left)
        }
    }

    /// The comparison level.
    fn comparison(&mut self) -> (r: Option<Expression>)
        ensures
            final(self).tokens == old(self).tokens,
            eopt_ok(
                p_comparison(old(self).toks(), old(self).at(), old(self).id()),
                old(self).at(),
                old(self).id(),
                final(self).at(),
                final(self).id(),
                r,
            ),
        decreases self.tokens@.len() - self.pos, 3int,
    {
        let entry = self.pos;
        let left = match self.add_sub() {
            Some(e) => e,
            None => {
                return None;
            },
        };
        if self.pos >= entry && self.pos < self.tokens.len() {
            let op = match &self.tokens[self.pos].token {
                Token::Equal => Some(BinaryOperator::Eq),
                Token::NotEqual => Some(BinaryOperator::Ne),
                Token::Less => Some(BinaryOperator::Lt),
                Token::LessEqual => Some(BinaryOperator::Le),
                Token::Greater => Some(BinaryOperator::Gt),
                Token::GreaterEqual => Some(BinaryOperator::Ge),
                _ => None,
            };
            match op {
                Some(op) => {
                    self.pos = self.pos + 1;
                    match self.comparison() {
                        Some(right) => {
                            let e = Expression {
                                id: self.next_id,
                                kind: ExpressionKind::Binary {
                                    left: Box::new(left),
                                    op,
                                    right: Box::new(right),
                                },
                            };
                            self.bump();
                            Some(e)
                        },
                        None => {
                            self.pos = self.pos - 1;
                            Some(left)
                        },
                    }
                },
                None => Some(left),
            }
        } else {
            Some(left)
        }
    }

    /// The `AND` / `OR` level.
    fn and_or(&mut self) -> (r: Option<Expression>)
        ensures
            final(self).tokens == old(self).tokens,
            eopt_ok(
                p_and_or(old(self).toks(), old(self).at(), old(self).id()),
                old(self).at(),
                old(self).id(),
                final(self).at(),
                final(self).id(),
                r,
            ),
        decreases self.tokens@.len() - self.pos, 4int,
    {
        let entry = self.pos;
        let left = match self.comparison() {
            Some(e) => e,
            None => {
                return None;
            },
        };
        if self.pos >= entry && self.pos < self.tokens.len() {
            let op = match &self.tokens[self.pos].token {
                Token::And => Some(BinaryOperator::And),
                Token::Or => Some(BinaryOperator::Or),
                _ => None,
            };
            match op {
                Some(op) => {
                    self.pos = self.pos + 1;
                    match self.and_or() {
                        Some(right) => {
                            let e = Expression {
                                id: self.next_id,
                                kind: ExpressionKind::Binary {
                                    left: Box::new(left),
                                    op,
                                    right: Box::new(right),
                                },
                            };
                            self.bump();
                            Some(e)
                        },
                        None => {
                            self.pos = self.pos - 1;
                            Some(left)
                        },
                    }
                },
                None => Some(left),
            }
        } else {
            Some(left)
        }
    }

    /// A whole expression, or nothing if no expression starts here.
    fn expression(&mut self) -> (r: Option<Expression>)
        ensures
            final(self).tokens == old(self).tokens,
            eopt_ok(
                p_expression(old(self).toks(), old(self).at(), old(self).id()),
                old(self).at(),
                old(self).id(),
                final(self).at(),
                final(self).id(),
                r,
            ),
    {
        self.and_or()
    }

    /// Advance the cursor past the token under it.
    fn advance(&mut self)
        requires
            old(self).at() < old(self).toks().len(),
        ensures
            final(self).tokens == old(self).tokens,
            final(self).next_id == old(self).next_id,
            final(self).at() == old(self).at() + 1,
    {
        if self.pos < self.tokens.len() {
            self.pos = self.pos + 1;
        }
    }

    /// The source line blamed for a diagnostic at the cursor.
    fn current_line(&self) -> (r: u32)
        ensures
            r == line_at(self.toks(), self.at()),
    {
        if self.pos < self.tokens.len() {
            self.tokens[self.pos].line
        } else if self.tokens.len() > 0 {
            self.tokens[self.tokens.len() - 1].line
        } else {
            0
        }
    }

    /// `LET` (keyword optional) `ident = expr`.
    fn let_(&mut self) -> (r: Result<Statement, Error>)
        ensures
            final(self).tokens == old(self).tokens,
            pst_ok(
                p_let(old(self).toks(), old(self).at(), old(self).id()),
                final(self).at(),
                final(self).id(),
                r,
            ),
    {
        if self.pos >= self.tokens.len() {
            return Err(Error { kind: crate::error::ErrorKind::ExpectedStatement, line: self.current_line() });
        }
        let variable: String;
        match &self.tokens[self.pos].token {
            Token::Let => {
                self.pos = self.pos + 1;
                if self.pos < self.tokens.len() && matches!(
                    &self.tokens[self.pos].token,
                    Token::Identifier(_),
                ) {
                    match &self.tokens[self.pos].token {
                        Token::Identifier(s) => {
                            variable = s.clone();
                        },
                        _ => {
                            variable = vstd::pervasive::unreached();
                        },
                    }
                    self.pos = self.pos + 1;
                } else {
                    return Err(Error {
                        kind: crate::error::ErrorKind::ExpectedIdentifier,
                        line: self.current_line(),
                    });
                }
            },
            Token::Identifier(s) => {
                variable = s.clone();
                self.pos = self.pos + 1;
            },
            _ => {
                return Err(Error {
                    kind: crate::error::ErrorKind::ExpectedStatement,
                    line: self.current_line(),
                });
            },
        }
        if !(self.pos < self.tokens.len() && matches!(&self.tokens[self.pos].token, Token::Equal)) {
            return Err(Error {
                kind: crate::error::ErrorKind::UnexpectedToken,
                line: self.current_line(),
            });
        }
        self.pos = self.pos + 1;
        match self.expression() {
            Some(expression) => Ok(Statement::Let { variable, expression }),
            None => Err(Error {
                kind: crate::error::ErrorKind::ExpectedExpression,
                line: self.current_line(),
            }),
        }
    }

    /// One or more expressions separated by `;`.
    fn print_items(&mut self) -> (r: Vec<Expression>)
        ensures
            final(self).tokens == old(self).tokens,
            ({
                let it = p_print_items(old(self).toks(), old(self).at(), old(self).id());
                final(self).at() == it.next && final(self).id() == it.id && r.deep_view()
                    == it.items
            }),
        decreases self.tokens@.len() - self.pos,
    {
        let entry = self.pos;
        let e = match self.expression() {
            Some(e) => e,
            None => {
                let r: Vec<Expression> = Vec::new();
                proof {
                    assert(r.deep_view() =~= Seq::<ast::ExprS>::empty());
                }
                return r;
            },
        };
        if self.pos >= entry && self.pos < self.tokens.len() && matches!(
            &self.tokens[self.pos].token,
            Token::Semicolon,
        ) {
            self.pos = self.pos + 1;
            let mut rest = self.print_items();
            rest.insert(0, e);
            proof {
                assert(rest.deep_view() =~= seq![
                    p_print_items(old(self).toks(), old(self).at(), old(self).id()).items[0],
                ] + rest.deep_view().drop_first());
            }
            rest
        } else {
            let mut r: Vec<Expression> = Vec::new();
            r.push(e);
            proof {
                assert(r.deep_view() =~= seq![e.deep_view()]);
            }
            r
        }
    }

    /// `PRINT expr (; expr)*`.
    fn print(&mut self) -> (r: Result<Statement, Error>)
        requires
            old(self).at() < old(self).toks().len(),
        ensures
            final(self).tokens == old(self).tokens,
            pst_ok(
                p_print(old(self).toks(), old(self).at(), old(self).id()),
                final(self).at(),
                final(self).id(),
                r,
            ),
    {
        self.advance();
        let content = self.print_items();
        Ok(Statement::Print { content })
    }

    /// `PAUSE expr (; expr)*`.
    fn pause(&mut self) -> (r: Result<Statement, Error>)
        requires
            old(self).at() < old(self).toks().len(),
        ensures
            final(self).tokens == old(self).tokens,
            pst_ok(
                p_pause(old(self).toks(), old(self).at(), old(self).id()),
                final(self).at(),
                final(self).id(),
                r,
            ),
    {
        self.advance();
        let content = self.print_items();
        Ok(Statement::Pause { content })
    }

    /// `INPUT [prompt] [;] ident`.
    fn input(&mut self) -> (r: Result<Statement, Error>)
        requires
            old(self).at() < old(self).toks().len(),
        ensures
            final(self).tokens == old(self).tokens,
            pst_ok(
                p_input(old(self).toks(), old(self).at(), old(self).id()),
                final(self).at(),
                final(self).id(),
                r,
            ),
    {
        self.advance();
        let prompt = self.expression();
        if self.pos < self.tokens.len() && matches!(
            &self.tokens[self.pos].token,
            Token::Semicolon,
        ) {
            self.pos = self.pos + 1;
        }
        if self.pos < self.tokens.len() {
            match &self.tokens[self.pos].token {
                Token::Identifier(s) => {
                    let variable = s.clone();
                    self.pos = self.pos + 1;
                    return Ok(Statement::Input { prompt, variable });
                },
                _ => {},
            }
        }
        Err(Error { kind: crate::error::ErrorKind::ExpectedIdentifier, line: self.current_line() })
    }

    /// `WAIT expr`.
    fn wait(&mut self) -> (r: Result<Statement, Error>)
        requires
            old(self).at() < old(self).toks().len(),
        ensures
            final(self).tokens == old(self).tokens,
            pst_ok(
                p_wait(old(self).toks(), old(self).at(), old(self).id()),
                final(self).at(),
                final(self).id(),
                r,
            ),
    {
        self.advance();
        match self.expression() {
            Some(time) => Ok(Statement::Wait { time }),
            None => Err(Error {
                kind: crate::error::ErrorKind::ExpectedExpression,
                line: self.current_line(),
            }),
        }
    }

    /// A non-negative integer literal under the cursor, consumed.
    fn unsigned(&mut self) -> (r: Option<u32>)
        ensures
            final(self).tokens == old(self).tokens,
            final(self).id() == old(self).id(),
            match p_unsigned(old(self).toks(), old(self).at()) {
                Some(n) => r == Some(n) && final(self).at() == old(self).at() + 1,
                None => r is None && final(self).at() == old(self).at(),
            },
    {
        if self.pos < self.tokens.len() {
            match &self.tokens[self.pos].token {
                Token::Number(n) => {
                    if *n >= 0 {
                        self.pos = self.pos + 1;
                        return Some(*n as u32);
                    }
                },
                _ => {},
            }
        }
        None
    }

    /// `GOTO line`.
    fn goto(&mut self) -> (r: Result<Statement, Error>)
        requires
            old(self).at() < old(self).toks().len(),
        ensures
            final(self).tokens == old(self).tokens,
            pst_ok(
                p_goto(old(self).toks(), old(self).at(), old(self).id()),
                final(self).at(),
                final(self).id(),
                r,
            ),
    {
        self.advance();
        match self.unsigned() {
            Some(line_number) => Ok(Statement::Goto { line_number }),
            None => Err(Error {
                kind: crate::error::ErrorKind::ExpectedUnsigned,
                line: self.current_line(),
            }),
        }
    }

    /// `GOSUB line`.
    fn gosub(&mut self) -> (r: Result<Statement, Error>)
        requires
            old(self).at() < old(self).toks().len(),
        ensures
            final(self).tokens == old(self).tokens,
            pst_ok(
                p_gosub(old(self).toks(), old(self).at(), old(self).id()),
                final(self).at(),
                final(self).id(),
                r,
            ),
    {
        self.advance();
        match self.unsigned() {
            Some(line_number) => Ok(Statement::GoSub { line_number }),
            None => Err(Error {
                kind: crate::error::ErrorKind::ExpectedUnsigned,
                line: self.current_line(),
            }),
        }
    }

    /// `RETURN`.
    fn return_(&mut self) -> (r: Result<Statement, Error>)
        requires
            old(self).at() < old(self).toks().len(),
        ensures
            final(self).tokens == old(self).tokens,
            pst_ok(
                p_return(old(self).toks(), old(self).at(), old(self).id()),
                final(self).at(),
                final(self).id(),
                r,
            ),
    {
        self.advance();
        Ok(Statement::Return)
    }

    /// `END`.
    fn end(&mut self) -> (r: Result<Statement, Error>)
        requires
            old(self).at() < old(self).toks().len(),
        ensures
            final(self).tokens == old(self).tokens,
            pst_ok(
                p_end(old(self).toks(), old(self).at(), old(self).id()),
                final(self).at(),
                final(self).id(),
                r,
            ),
    {
        self.advance();
        Ok(Statement::End)
    }

    /// The literal values of a `DATA` statement.
    fn data_items(&mut self) -> (r: Result<Vec<ast::DataItem>, Error>)
        ensures
            final(self).tokens == old(self).tokens,
            final(self).id() == old(self).id(),
            match p_data_items(old(self).toks(), old(self).at()) {
                Ok((n, items)) => r matches Ok(v) && v.deep_view() == items && final(self).at()
                    == n,
                Err((e, at)) => r == Err::<Vec<ast::DataItem>, Error>(e) && final(self).at() == at,
            },
        decreases self.tokens@.len() - self.pos,
    {
        let item: ast::DataItem;
        if self.pos < self.tokens.len() {
            match &self.tokens[self.pos].token {
                Token::Number(n) => {
                    item = ast::DataItem::Number(*n);
                },
                Token::StringLiteral(s) => {
                    item = ast::DataItem::StringItem(s.clone());
                },
                _ => {
                    return Err(Error {
                        kind: crate::error::ErrorKind::ExpectedDataItem,
                        line: self.current_line(),
                    });
                },
            }
        } else {
            return Err(Error {
                kind: crate::error::ErrorKind::ExpectedDataItem,
                line: self.current_line(),
            });
        }
        if self.pos + 1 < self.tokens.len() && matches!(
            &self.tokens[self.pos + 1].token,
            Token::Comma,
        ) {
            self.pos = self.pos + 2;
            match self.data_items() {
                Ok(mut rest) => {
                    rest.insert(0, item);
                    proof {
                        assert(rest.deep_view() =~= seq![rest.deep_view()[0]]
                            + rest.deep_view().drop_first());
                    }
                    Ok(rest)
                },
                Err(e) => Err(e),
            }
        } else {
            self.pos = self.pos + 1;
            let mut v: Vec<ast::DataItem> = Vec::new();
            v.push(item);
            proof {
                assert(v.deep_view() =~= seq![item.deep_view()]);
            }
            Ok(v)
        }
    }

    /// `DATA value (, value)*`.
    fn data(&mut self) -> (r: Result<Statement, Error>)
        requires
            old(self).at() < old(self).toks().len(),
        ensures
            final(self).tokens == old(self).tokens,
            pst_ok(
                p_data(old(self).toks(), old(self).at(), old(self).id()),
                final(self).at(),
                final(self).id(),
                r,
            ),
    {
        self.advance();
        match self.data_items() {
            Ok(values) => Ok(Statement::Data { values }),
            Err(e) => Err(e),
        }
    }

    /// The variables of a `READ` statement.
    fn read_items(&mut self) -> (r: Result<Vec<String>, Error>)
        ensures
            final(self).tokens == old(self).tokens,
            final(self).id() == old(self).id(),
            match p_read_items(old(self).toks(), old(self).at()) {
                Ok((n, items)) => r matches Ok(v) && v.deep_view() == items && final(self).at()
                    == n,
                Err((e, at)) => r == Err::<Vec<String>, Error>(e) && final(self).at() == at,
            },
        decreases self.tokens@.len() - self.pos,
    {
        let item: String;
        if self.pos < self.tokens.len() {
            match &self.tokens[self.pos].token {
                Token::Identifier(s) => {
                    item = s.clone();
                },
                _ => {
                    return Err(Error {
                        kind: crate::error::ErrorKind::ExpectedIdentifier,
                        line: self.current_line(),
                    });
                },
            }
        } else {
            return Err(Error {
                kind: crate::error::ErrorKind::ExpectedIdentifier,
                line: self.current_line(),
            });
        }
        if self.pos + 1 < self.tokens.len() && matches!(
            &self.tokens[self.pos + 1].token,
            Token::Comma,
        ) {
            self.pos = self.pos + 2;
            match self.read_items() {
                Ok(mut rest) => {
                    rest.insert(0, item);
                    proof {
                        assert(rest.deep_view() =~= seq![rest.deep_view()[0]]
                            + rest.deep_view().drop_first());
                    }
                    Ok(rest)
                },
                Err(e) => Err(e),
            }
        } else {
            self.pos = self.pos + 1;
            let mut v: Vec<String> = Vec::new();
            v.push(item);
            proof {
                assert(v.deep_view() =~= seq![v.deep_view()[0]]);
            }
            Ok(v)
        }
    }

    /// `READ ident (, ident)*`.
    fn read(&mut self) -> (r: Result<Statement, Error>)
        requires
            old(self).at() < old(self).toks().len(),
        ensures
            final(self).tokens == old(self).tokens,
            pst_ok(
                p_read(old(self).toks(), old(self).at(), old(self).id()),
                final(self).at(),
                final(self).id(),
                r,
            ),
    {
        self.advance();
        match self.read_items() {
            Ok(variables) => Ok(Statement::Read { variables }),
            Err(e) => Err(e),
        }
    }

    /// `RESTORE [line]`.
    fn restore(&mut self) -> (r: Result<Statement, Error>)
        requires
            old(self).at() < old(self).toks().len(),
        ensures
            final(self).tokens == old(self).tokens,
            pst_ok(
                p_restore(old(self).toks(), old(self).at(), old(self).id()),
                final(self).at(),
                final(self).id(),
                r,
            ),
    {
        self.advance();
        if self.pos < self.tokens.len() {
            match &self.tokens[self.pos].token {
                Token::Number(n) => {
                    if *n >= 0 {
                        let line_number = Some(*n as u32);
                        self.pos = self.pos + 1;
                        return Ok(Statement::Restore { line_number });
                    } else {
                        return Err(Error {
                            kind: crate::error::ErrorKind::ExpectedUnsigned,
                            line: self.current_line(),
                        });
                    }
                },
                _ => {},
            }
        }
        Ok(Statement::Restore { line_number: None })
    }

    /// The byte values of a `POKE` statement.
    fn poke_values(&mut self) -> (r: Result<Vec<u8>, Error>)
        ensures
            final(self).tokens == old(self).tokens,
            final(self).id() == old(self).id(),
            match p_poke_values(old(self).toks(), old(self).at()) {
                Ok((n, items)) => r matches Ok(v) && v@ == items && final(self).at() == n,
                Err((e, at)) => r == Err::<Vec<u8>, Error>(e) && final(self).at() == at,
            },
        decreases self.tokens@.len() - self.pos,
    {
        let item: u8;
        if self.pos < self.tokens.len() {
            match &self.tokens[self.pos].token {
                Token::Number(n) => {
                    if 0 <= *n && *n <= 255 {
                        item = *n as u8;
                    } else {
                        return Err(Error {
                            kind: crate::error::ErrorKind::ExpectedUnsigned,
                            line: self.current_line(),
                        });
                    }
                },
                _ => {
                    return Err(Error {
                        kind: crate::error::ErrorKind::ExpectedUnsigned,
                        line: self.current_line(),
                    });
                },
            }
        } else {
            return Err(Error {
                kind: crate::error::ErrorKind::ExpectedUnsigned,
                line: self.current_line(),
            });
        }
        if self.pos + 1 < self.tokens.len() && matches!(
            &self.tokens[self.pos + 1].token,
            Token::Comma,
        ) {
            self.pos = self.pos + 2;
            match self.poke_values() {
                Ok(mut rest) => {
                    rest.insert(0, item);
                    proof {
                        assert(rest@ =~= seq![rest@[0]] + rest@.drop_first());
                    }
                    Ok(rest)
                },
                Err(e) => Err(e),
            }
        } else {
            self.pos = self.pos + 1;
            let mut v: Vec<u8> = Vec::new();
            v.push(item);
            Ok(v)
        }
    }

    /// `POKE address, byte (, byte)*`.
    fn poke(&mut self) -> (r: Result<Statement, Error>)
        requires
            old(self).at() < old(self).toks().len(),
        ensures
            final(self).tokens == old(self).tokens,
            pst_ok(
                p_poke(old(self).toks(), old(self).at(), old(self).id()),
                final(self).at(),
                final(self).id(),
                r,
            ),
    {
        self.advance();
        let address = match self.unsigned() {
            Some(a) => a,
            None => {
                return Err(Error {
                    kind: crate::error::ErrorKind::ExpectedUnsigned,
                    line: self.current_line(),
                });
            },
        };
        if !(self.pos < self.tokens.len() && matches!(&self.tokens[self.pos].token, Token::Comma)) {
            return Err(Error {
                kind: crate::error::ErrorKind::UnexpectedToken,
                line: self.current_line(),
            });
        }
        self.pos = self.pos + 1;
        match self.poke_values() {
            Ok(values) => Ok(Statement::Poke { address, values }),
            Err(e) => Err(e),
        }
    }

    /// `CALL address`.
    fn call(&mut self) -> (r: Result<Statement, Error>)
        requires
            old(self).at() < old(self).toks().len(),
        ensures
            final(self).tokens == old(self).tokens,
            pst_ok(
                p_call(old(self).toks(), old(self).at(), old(self).id()),
                final(self).at(),
                final(self).id(),
                r,
            ),
    {
        self.advance();
        match self.unsigned() {
            Some(address) => Ok(Statement::Call { address }),
            None => Err(Error {
                kind: crate::error::ErrorKind::ExpectedUnsigned,
                line: self.current_line(),
            }),
        }
    }

    /// `NEXT ident`.
    fn next(&mut self) -> (r: Result<Statement, Error>)
        requires
            old(self).at() < old(self).toks().len(),
        ensures
            final(self).tokens == old(self).tokens,
            pst_ok(
                p_next(old(self).toks(), old(self).at(), old(self).id()),
                final(self).at(),
                final(self).id(),
                r,
            ),
    {
        self.advance();
        if self.pos < self.tokens.len() {
            match &self.tokens[self.pos].token {
                Token::Identifier(s) => {
                    let variable = s.clone();
                    self.pos = self.pos + 1;
                    return Ok(Statement::Next { variable });
                },
                _ => {},
            }
        }
        Err(Error { kind: crate::error::ErrorKind::ExpectedIdentifier, line: self.current_line() })
    }

    /// `FOR ident = fromExpr TO toExpr [STEP stepExpr]`.
    fn for_(&mut self) -> (r: Result<Statement, Error>)
        requires
            old(self).at() < old(self).toks().len(),
        ensures
            final(self).tokens == old(self).tokens,
            pst_ok(
                p_for(old(self).toks(), old(self).at(), old(self).id()),
                final(self).at(),
                final(self).id(),
                r,
            ),
    {
        self.advance();
        let variable: String;
        if self.pos < self.tokens.len() {
            match &self.tokens[self.pos].token {
                Token::Identifier(s) => {
                    variable = s.clone();
                    self.pos = self.pos + 1;
                },
                _ => {
                    return Err(Error {
                        kind: crate::error::ErrorKind::ExpectedIdentifier,
                        line: self.current_line(),
                    });
                },
            }
        } else {
            return Err(Error {
                kind: crate::error::ErrorKind::ExpectedIdentifier,
                line: self.current_line(),
            });
        }
        if !(self.pos < self.tokens.len() && matches!(&self.tokens[self.pos].token, Token::Equal)) {
            return Err(Error {
                kind: crate::error::ErrorKind::UnexpectedToken,
                line: self.current_line(),
            });
        }
        self.pos = self.pos + 1;
        let from = match self.expression() {
            Some(e) => e,
            None => {
                return Err(Error {
                    kind: crate::error::ErrorKind::ExpectedExpression,
                    line: self.current_line(),
                });
            },
        };
        if !(self.pos < self.tokens.len() && matches!(&self.tokens[self.pos].token, Token::To)) {
            return Err(Error {
                kind: crate::error::ErrorKind::UnexpectedToken,
                line: self.current_line(),
            });
        }
        self.pos = self.pos + 1;
        let to = match self.expression() {
            Some(e) => e,
            None => {
                return Err(Error {
                    kind: crate::error::ErrorKind::ExpectedExpression,
                    line: self.current_line(),
                });
            },
        };
        let step: Option<Expression>;
        if self.pos < self.tokens.len() && matches!(&self.tokens[self.pos].token, Token::Step) {
            self.pos = self.pos + 1;
            match self.expression() {
                Some(e) => {
                    step = Some(e);
                },
                None => {
                    return Err(Error {
                        kind: crate::error::ErrorKind::ExpectedExpression,
                        line: self.current_line(),
                    });
                },
            }
        } else {
            step = None;
        }
        Ok(Statement::For { variable, from, to, step })
    }

    /// `DIM ident ( size ) [* length]`.
    fn dim(&mut self) -> (r: Result<Statement, Error>)
        requires
            old(self).at() < old(self).toks().len(),
        ensures
            final(self).tokens == old(self).tokens,
            pst_ok(
                p_dim(old(self).toks(), old(self).at(), old(self).id()),
                final(self).at(),
                final(self).id(),
                r,
            ),
    {
        self.advance();
        let variable: String;
        if self.pos < self.tokens.len() {
            match &self.tokens[self.pos].token {
                Token::Identifier(s) => {
                    variable = s.clone();
                    self.pos = self.pos + 1;
                },
                _ => {
                    return Err(Error {
                        kind: crate::error::ErrorKind::ExpectedIdentifier,
                        line: self.current_line(),
                    });
                },
            }
        } else {
            return Err(Error {
                kind: crate::error::ErrorKind::ExpectedIdentifier,
                line: self.current_line(),
            });
        }
        if !(self.pos < self.tokens.len() && matches!(
            &self.tokens[self.pos].token,
            Token::LeftParen,
        )) {
            return Err(Error {
                kind: crate::error::ErrorKind::ExpectedLeftParen,
                line: self.current_line(),
            });
        }
        self.pos = self.pos + 1;
        let size = match self.unsigned() {
            Some(n) => n,
            None => {
                return Err(Error {
                    kind: crate::error::ErrorKind::ExpectedUnsigned,
                    line: self.current_line(),
                });
            },
        };
        if !(self.pos < self.tokens.len() && matches!(
            &self.tokens[self.pos].token,
            Token::RightParen,
        )) {
            return Err(Error {
                kind: crate::error::ErrorKind::ExpectedRightParen,
                line: self.current_line(),
            });
        }
        self.pos = self.pos + 1;
        let length: Option<u32>;
        if self.pos < self.tokens.len() && matches!(&self.tokens[self.pos].token, Token::Star) {
            self.pos = self.pos + 1;
            match self.unsigned() {
                Some(n) => {
                    length = Some(n);
                },
                None => {
                    return Err(Error {
                        kind: crate::error::ErrorKind::ExpectedUnsigned,
                        line: self.current_line(),
                    });
                },
            }
        } else {
            length = None;
        }
        Ok(Statement::Dim { variable, size, length })
    }

    /// `REM ...`, keeping the comment's text.
    fn comment(&mut self) -> (r: Result<Statement, Error>)
        ensures
            final(self).tokens == old(self).tokens,
            pst_ok(
                p_comment(old(self).toks(), old(self).at(), old(self).id()),
                final(self).at(),
                final(self).id(),
                r,
            ),
    {
        if self.pos < self.tokens.len() {
            match &self.tokens[self.pos].token {
                Token::Rem(s) => {
                    let content = s.clone();
                    self.pos = self.pos + 1;
                    return Ok(Statement::Rem { content });
                },
                _ => {},
            }
        }
        Err(Error { kind: crate::error::ErrorKind::ExpectedStatement, line: self.current_line() })
    }

    /// One atomic statement, dispatched on its leading token.
    fn atomic_statement(&mut self) -> (r: Result<Statement, Error>)
        ensures
            final(self).tokens == old(self).tokens,
            pst_ok(
                p_atomic(old(self).toks(), old(self).at(), old(self).id()),
                final(self).at(),
                final(self).id(),
                r,
            ),
        decreases self.tokens@.len() - self.pos, 1int,
    {
        if self.pos >= self.tokens.len() {
            return Err(Error {
                kind: crate::error::ErrorKind::ExpectedStatement,
                line: self.current_line(),
            });
        }
        match &self.tokens[self.pos].token {
            Token::Let => self.let_(),
            Token::Identifier(_) => self.let_(),
            Token::Print => self.print(),
            Token::Pause => self.pause(),
            Token::Input => self.input(),
            Token::Wait => self.wait(),
            Token::Goto => self.goto(),
            Token::For => self.for_(),
            Token::Next => self.next(),
            Token::End => self.end(),
            Token::Gosub => self.gosub(),
            Token::If => self.if_(),
            Token::Return => self.return_(),
            Token::Data => self.data(),
            Token::Read => self.read(),
            Token::Restore => self.restore(),
            Token::Poke => self.poke(),
            Token::Call => self.call(),
            Token::Dim => self.dim(),
            Token::Rem(_) => self.comment(),
            _ => Err(Error {
                kind: crate::error::ErrorKind::ExpectedStatement,
                line: self.current_line(),
            }),
        }
    }

    /// `IF expr [THEN] stmt [ELSE stmt]`.
    #[verifier::rlimit(50)]
    fn if_(&mut self) -> (r: Result<Statement, Error>)
        requires
            old(self).at() < old(self).toks().len(),
        ensures
            final(self).tokens == old(self).tokens,
            pst_ok(
                p_if(old(self).toks(), old(self).at(), old(self).id()),
                final(self).at(),
                final(self).id(),
                r,
            ),
        decreases self.tokens@.len() - self.pos, 0int,
    {
        let entry = self.pos;
        let entry_id = self.next_id;
        self.advance();
        let condition = match self.expression() {
            Some(e) => e,
            None => {
                return Err(Error {
                    kind: crate::error::ErrorKind::ExpectedExpression,
                    line: self.current_line(),
                });
            },
        };
        if !(self.pos >= 2 && self.pos - 2 >= entry && self.pos <= self.tokens.len()) {
            // Never reached: a recognized expression always advances past
            // the keyword and stays inside the stream.
            self.pos = entry + 1;
            self.next_id = entry_id;
            return Err(Error {
                kind: crate::error::ErrorKind::ExpectedExpression,
                line: self.current_line(),
            });
        }
        if self.pos < self.tokens.len() && matches!(&self.tokens[self.pos].token, Token::Then) {
            self.pos = self.pos + 1;
        }
        let then = match self.statement() {
            Ok(st) => st,
            Err(e) => {
                return Err(e);
            },
        };
        if self.pos >= entry && self.pos < self.tokens.len() && matches!(
            &self.tokens[self.pos].token,
            Token::Else,
        ) {
            self.pos = self.pos + 1;
            match self.statement() {
                Ok(els) => Ok(Statement::If {
                    condition,
                    then: Box::new(then),
                    else_: Some(Box::new(els)),
                }),
                Err(e) => Err(e),
            }
        } else {
            Ok(Statement::If { condition, then: Box::new(then), else_: None })
        }
    }

    /// The `:`-separated list of atomic statements a line's body is made
    /// of.
    fn stmt_list(&mut self) -> (r: Result<Vec<Statement>, Error>)
        ensures
            final(self).tokens == old(self).tokens,
            match p_stmt_list(old(self).toks(), old(self).at(), old(self).id()) {
                Ok((n, id2, stmts)) => r matches Ok(v) && ast::stmts_dv(v@) == stmts
                    && final(self).at() == n && final(self).id() == id2,
                Err(f) => r == Err::<Vec<Statement>, Error>(f.err) && final(self).at() == f.next
                    && final(self).id() == f.id,
            },
        decreases self.tokens@.len() - self.pos, 2int,
    {
        let entry = self.pos;
        let st = match self.atomic_statement() {
            Ok(st) => st,
            Err(e) => {
                return Err(e);
            },
        };
        if self.pos >= entry && self.pos < self.tokens.len() && matches!(
            &self.tokens[self.pos].token,
            Token::Colon,
        ) {
            self.pos = self.pos + 1;
            match self.stmt_list() {
                Ok(mut rest) => {
                    proof {
                        ast::lemma_stmts_dv(rest@);
                    }
                    rest.insert(0, st);
                    proof {
                        ast::lemma_stmts_dv(rest@);
                        assert(ast::stmts_dv(rest@) =~= seq![ast::stmt_dv(st)] + ast::stmts_dv(
                            rest@.drop_first(),
                        ));
                    }
                    Ok(rest)
                },
                Err(e) => Err(e),
            }
        } else {
            let mut v: Vec<Statement> = Vec::new();
            v.push(st);
            proof {
                ast::lemma_stmts_dv(v@);
                assert(ast::stmts_dv(v@) =~= seq![ast::stmt_dv(st)]);
            }
            Ok(v)
        }
    }

    /// A statement body: colon-joined atomic statements collapse to a
    /// single statement when exactly one is present.
    fn statement(&mut self) -> (r: Result<Statement, Error>)
        ensures
            final(self).tokens == old(self).tokens,
            pst_ok(
                p_statement(old(self).toks(), old(self).at(), old(self).id()),
                final(self).at(),
                final(self).id(),
                r,
            ),
        decreases self.tokens@.len() - self.pos, 3int,
    {
        let mut stmts = match self.stmt_list() {
            Ok(v) => v,
            Err(e) => {
                return Err(e);
            },
        };
        proof {
            ast::lemma_stmts_dv(stmts@);
        }
        if stmts.len() == 1 {
            let st = stmts.remove(0);
            Ok(st)
        } else {
            let st = Statement::Sequence { statements: stmts };
            Ok(st)
        }
    }

    /// A full line: `lineNumber statementBody (newline | end-of-input)`.
    fn line(&mut self) -> (r: Result<(u32, Statement), Error>)
        ensures
            final(self).tokens == old(self).tokens,
            match p_line(old(self).toks(), old(self).at(), old(self).id()) {
                Ok(pl) => r matches Ok(p) && p.0 == pl.number && p.1.deep_view() == pl.stmt
                    && final(self).at() == pl.next && final(self).id() == pl.id,
                Err(f) => r == Err::<(u32, Statement), Error>(f.err) && final(self).at() == f.next
                    && final(self).id() == f.id,
            },
    {
        let number = match self.unsigned() {
            Some(n) => n,
            None => {
                return Err(Error {
                    kind: crate::error::ErrorKind::ExpectedLineNumber,
                    line: self.current_line(),
                });
            },
        };
        let statement = match self.statement() {
            Ok(st) => st,
            Err(e) => {
                return Err(e);
            },
        };
        if self.pos < self.tokens.len() {
            if matches!(&self.tokens[self.pos].token, Token::Newline) {
                self.pos = self.pos + 1;
            } else {
                return Err(Error {
                    kind: crate::error::ErrorKind::ExpectedEndOfLine,
                    line: self.current_line(),
                });
            }
        }
        Ok((number, statement))
    }

    /// Parse the whole token stream: one statement body per numbered line.
    /// A failed line is recorded as one error, the rest of that line is
    /// discarded, and parsing resumes at the next line, so one pass
    /// collects every line's error.
    pub fn parse(&mut self) -> (r: (ast::Program, Vec<Error>))
        ensures
            final(self).toks() == old(self).toks(),
            ({
                let (lines, errs) = p_program(
                    old(self).toks(),
                    old(self).at(),
                    old(self).id(),
                    Seq::empty(),
                    Seq::empty(),
                );
                r.0.deep_view() == lines && r.1@ == errs
            }),
            r.0.well_formed(),
    {
        let ghost t = self.toks();
        let ghost p0 = self.at();
        let ghost id0 = self.id();
        let mut program = ast::Program::new();
        let mut errors: Vec<Error> = Vec::new();
        while self.pos < self.tokens.len()
            invariant
                t == self.toks(),
                t == old(self).toks(),
                p0 == old(self).at(),
                id0 == old(self).id(),
                self.tokens == old(self).tokens,
                program.well_formed(),
                p_program(t, p0, id0, Seq::empty(), Seq::empty()) == p_program(
                    t,
                    self.at(),
                    self.id(),
                    program.deep_view(),
                    errors@,
                ),
            decreases self.tokens@.len() - self.pos,
        {
            let entry = self.pos;
            let ghost cur_id = self.id();
            let ghost cur_prog = program.deep_view();
            let ghost cur_errs = errors@;
            match self.line() {
                Ok((number, statement)) => {
                    if !(self.pos > entry && self.pos <= self.tokens.len()) {
                        // Never reached: a parsed line always advances and
                        // stays inside the stream.
                        return (program, errors);
                    }
                    program.add_line(number, statement);
                },
                Err(e) => {
                    errors.push(e);
                    let ghost fail_at = self.at();
                    let ghost fail_id = self.id();
                    while self.pos < self.tokens.len() && !matches!(
                        &self.tokens[self.pos].token,
                        Token::Newline,
                    )
                        invariant
                            t == self.toks(),
                            self.tokens == old(self).tokens,
                            self.id() == fail_id,
                            p_skip_line(t, fail_at) == p_skip_line(t, self.at()),
                        decreases self.tokens@.len() - self.pos,
                    {
                        self.pos = self.pos + 1;
                    }
                    if self.pos < self.tokens.len() {
                        self.pos = self.pos + 1;
                    } else {
                        self.pos = self.tokens.len();
                    }
                    if !(self.pos > entry && self.pos <= self.tokens.len()) {
                        // Never reached: recovery always advances past the
                        // failing line.
                        return (program, errors);
                    }
                },
            }
        }
        (program, errors)
    }
}

} // verus!
