//! The abstract syntax tree: one parsed line's statement tree, and a whole
//! program as an ordered collection of (line number, statement) pairs.
//!
//! Every expression node carries a small integer id assigned at
//! construction.  The HIR builder's memo table is keyed by that id, so that
//! node identity does not depend on memory addresses.

use vstd::prelude::*;

verus! {

broadcast use vstd::std_specs::vec::group_vec_axioms, vstd::seq::group_seq_axioms;

/// A binary operator of the surface language.
#[derive(Debug, Clone, Copy, PartialEq, Eq, Structural)]
pub enum BinaryOperator {
    // Arithmetic
    Add,
    Sub,
    Mul,
    Div,
    // Logical
    And,
    Or,
    // Comparison
    Eq,
    Ne,
    Lt,
    Le,
    Gt,
    Ge,
}

/// An expression node: its identity tag and its syntactic form.
#[derive(Debug, PartialEq)]
pub struct Expression {
    /// Identity of this node, assigned once at construction.
    pub id: u32,
    pub kind: ExpressionKind,
}

/// The syntactic forms an expression can take.
#[derive(Debug, PartialEq)]
pub enum ExpressionKind {
    NumberLiteral(i32),
    StringLiteral(String),
    /// A variable reference; a trailing `$` in the name marks it as holding
    /// string data and is part of the variable's identity.
    Variable(String),
    Binary { left: Box<Expression>, op: BinaryOperator, right: Box<Expression> },
}

/// A literal value of a `DATA` statement.
#[derive(Debug, Clone, PartialEq)]
pub enum DataItem {
    Number(i32),
    StringItem(String),
}

/// One statement, possibly containing nested statements (`IF` branches and
/// colon-joined sequences).
#[derive(Debug, PartialEq)]
#[allow(inconsistent_fields)]
pub enum Statement {
    Let { variable: String, expression: Expression },
    Print { content: Vec<Expression> },
    Pause { content: Vec<Expression> },
    Input { prompt: Option<Expression>, variable: String },
    Wait { time: Expression },
    Goto { line_number: u32 },
    GoSub { line_number: u32 },
    Return,
    If { condition: Expression, then: Box<Statement>, else_: Option<Box<Statement>> },
    For { variable: String, from: Expression, to: Expression, step: Option<Expression> },
    Next { variable: String },
    End,
    Data { values: Vec<DataItem> },
    Read { variables: Vec<String> },
    Restore { line_number: Option<u32> },
    Poke { address: u32, values: Vec<u8> },
    Call { address: u32 },
    Dim { variable: String, size: u32, length: Option<u32> },
    Rem { content: String },
    Sequence { statements: Vec<Statement> },
}

/// One program line: its line number and its statement.
#[derive(Debug, PartialEq)]
pub struct Line {
    pub number: u32,
    pub statement: Statement,
}

// ------------------------------------------------------------------
// Mathematical values of the tree types.
// ------------------------------------------------------------------

/// The mathematical value of an [`Expression`].
pub struct ExprS {
    pub id: u32,
    pub kind: ExprKindS,
}

pub enum ExprKindS {
    NumberLiteral(i32),
    StringLiteral(Seq<char>),
    Variable(Seq<char>),
    Binary { left: Box<ExprS>, op: BinaryOperator, right: Box<ExprS> },
}

pub enum DataItemS {
    Number(i32),
    StringItem(Seq<char>),
}

#[allow(inconsistent_fields)]
pub enum StmtS {
    Let { variable: Seq<char>, expression: ExprS },
    Print { content: Seq<ExprS> },
    Pause { content: Seq<ExprS> },
    Input { prompt: Option<ExprS>, variable: Seq<char> },
    Wait { time: ExprS },
    Goto { line_number: u32 },
    GoSub { line_number: u32 },
    Return,
    If { condition: ExprS, then: Box<StmtS>, else_: Option<Box<StmtS>> },
    For { variable: Seq<char>, from: ExprS, to: ExprS, step: Option<ExprS> },
    Next { variable: Seq<char> },
    End,
    Data { values: Seq<DataItemS> },
    Read { variables: Seq<Seq<char>> },
    Restore { line_number: Option<u32> },
    Poke { address: u32, values: Seq<u8> },
    Call { address: u32 },
    Dim { variable: Seq<char>, size: u32, length: Option<u32> },
    Rem { content: Seq<char> },
    Sequence { statements: Seq<StmtS> },
}

/// The mathematical value of a [`Line`].
pub struct LineS {
    pub number: u32,
    pub stmt: StmtS,
}

/// The mathematical value of an expression tree.
pub open spec fn expr_dv(e: Expression) -> ExprS
    decreases e,
{
    ExprS {
        id: e.id,
        kind: match e.kind {
            ExpressionKind::NumberLiteral(n) => ExprKindS::NumberLiteral(n),
            ExpressionKind::StringLiteral(s) => ExprKindS::StringLiteral(s@),
            ExpressionKind::Variable(s) => ExprKindS::Variable(s@),
            ExpressionKind::Binary { left, op, right } => ExprKindS::Binary {
                left: Box::new(expr_dv(*left)),
                op,
                right: Box::new(expr_dv(*right)),
            },
        },
    }
}

impl DeepView for Expression {
    type V = ExprS;

    open spec fn deep_view(&self) -> ExprS {
        expr_dv(*self)
    }
}

impl Expression {
    /// A structurally identical copy of this expression tree, node ids
    /// included.
    pub fn duplicate(&self) -> (r: Expression)
        ensures
            r.deep_view() == self.deep_view(),
        decreases *self,
    {
        match &self.kind {
            ExpressionKind::NumberLiteral(n) => Expression {
                id: self.id,
                kind: ExpressionKind::NumberLiteral(*n),
            },
            ExpressionKind::StringLiteral(s) => Expression {
                id: self.id,
                kind: ExpressionKind::StringLiteral(s.clone()),
            },
            ExpressionKind::Variable(s) => Expression {
                id: self.id,
                kind: ExpressionKind::Variable(s.clone()),
            },
            ExpressionKind::Binary { left, op, right } => Expression {
                id: self.id,
                kind: ExpressionKind::Binary {
                    left: Box::new(left.duplicate()),
                    op: *op,
                    right: Box::new(right.duplicate()),
                },
            },
        }
    }
}

impl DeepView for DataItem {
    type V = DataItemS;

    open spec fn deep_view(&self) -> DataItemS {
        match self {
            DataItem::Number(n) => DataItemS::Number(*n),
            DataItem::StringItem(s) => DataItemS::StringItem(s@),
        }
    }
}

/// The mathematical values of a sequence of statements.
pub open spec fn stmts_dv(v: Seq<Statement>) -> Seq<StmtS>
    decreases v,
{
    if v.len() == 0 {
        Seq::empty()
    } else {
        seq![stmt_dv(v.first())] + stmts_dv(v.drop_first())
    }
}

/// The mathematical value of a statement tree.
pub open spec fn stmt_dv(s: Statement) -> StmtS
    decreases s via stmt_dv_dec
{
    match s {
        Statement::Let { variable, expression } => StmtS::Let {
            variable: variable@,
            expression: expression.deep_view(),
        },
        Statement::Print { content } => StmtS::Print { content: content.deep_view() },
        Statement::Pause { content } => StmtS::Pause { content: content.deep_view() },
        Statement::Input { prompt, variable } => StmtS::Input {
            prompt: prompt.deep_view(),
            variable: variable@,
        },
        Statement::Wait { time } => StmtS::Wait { time: time.deep_view() },
        Statement::Goto { line_number } => StmtS::Goto { line_number },
        Statement::GoSub { line_number } => StmtS::GoSub { line_number },
        Statement::Return => StmtS::Return,
        Statement::If { condition, then, else_ } => StmtS::If {
            condition: condition.deep_view(),
            then: Box::new(stmt_dv(*then)),
            else_: match else_ {
                Option::Some(e) => Option::Some(Box::new(stmt_dv(*e))),
                Option::None => Option::None,
            },
        },
        Statement::For { variable, from, to, step } => StmtS::For {
            variable: variable@,
            from: from.deep_view(),
            to: to.deep_view(),
            step: step.deep_view(),
        },
        Statement::Next { variable } => StmtS::Next { variable: variable@ },
        Statement::End => StmtS::End,
        Statement::Data { values } => StmtS::Data { values: values.deep_view() },
        Statement::Read { variables } => StmtS::Read { variables: variables.deep_view() },
        Statement::Restore { line_number } => StmtS::Restore { line_number },
        Statement::Poke { address, values } => StmtS::Poke { address, values: values@ },
        Statement::Call { address } => StmtS::Call { address },
        Statement::Dim { variable, size, length } => StmtS::Dim {
            variable: variable@,
            size,
            length,
        },
        Statement::Rem { content } => StmtS::Rem { content: content@ },
        Statement::Sequence { statements } => StmtS::Sequence {
            statements: stmts_dv(statements@),
        },
    }
}

/// The value of a statement sequence is the values of its statements, in
/// order.
pub proof fn lemma_stmts_dv(v: Seq<Statement>)
    ensures
        stmts_dv(v).len() == v.len(),
        forall|i: int| 0 <= i < v.len() ==> stmts_dv(v)[i] == stmt_dv(v[i]),
    decreases v.len(),
{
    if v.len() > 0 {
        lemma_stmts_dv(v.drop_first());
    }
}

#[via_fn]
proof fn stmt_dv_dec(s: Statement) {
    match s {
        Statement::Sequence { statements } => {
            assert(decreases_to!(s => statements));
            assert(decreases_to!(statements => statements@));
        },
        _ => {},
    }
}

impl DeepView for Statement {
    type V = StmtS;

    open spec fn deep_view(&self) -> StmtS {
        stmt_dv(*self)
    }
}

impl DeepView for Line {
    type V = LineS;

    open spec fn deep_view(&self) -> LineS {
        LineS { number: self.number, stmt: self.statement.deep_view() }
    }
}

// ------------------------------------------------------------------
// Programs.
// ------------------------------------------------------------------

/// Insertion of one line into an ordered program: existing lines with the
/// same number are replaced, otherwise the line is placed so that numbers
/// stay strictly ascending.
pub open spec fn add_line_s(lines: Seq<LineS>, number: u32, stmt: StmtS) -> Seq<LineS>
    decreases lines.len(),
{
    if lines.len() == 0 {
        seq![LineS { number, stmt }]
    } else if number < lines[0].number {
        seq![LineS { number, stmt }] + lines
    } else if number == lines[0].number {
        seq![LineS { number, stmt }] + lines.drop_first()
    } else {
        seq![lines[0]] + add_line_s(lines.drop_first(), number, stmt)
    }
}

/// Line numbers strictly ascending.
pub open spec fn lines_sorted(lines: Seq<LineS>) -> bool {
    forall|i: int, j: int| 0 <= i < j < lines.len() ==> lines[i].number < lines[j].number
}

/// A whole parsed program: a mapping from line number to statement, kept in
/// ascending line-number order, since BASIC execution order is line-number
/// order.
#[derive(Debug)]
pub struct Program {
    lines: Vec<Line>,
}

impl DeepView for Program {
    type V = Seq<LineS>;

    closed spec fn deep_view(&self) -> Seq<LineS> {
        self.lines.deep_view()
    }
}

impl Program {
    /// Line numbers are unique and ascending, regardless of insertion order.
    pub open spec fn well_formed(&self) -> bool {
        lines_sorted(self.deep_view())
    }

    /// The empty program.
    pub fn new() -> (r: Program)
        ensures
            r.deep_view() == Seq::<LineS>::empty(),
            r.well_formed(),
    {
        let r = Program { lines: Vec::new() };
        proof {
            assert(r.deep_view() =~= Seq::<LineS>::empty());
        }
        r
    }

    /// Add one line.  A line with the same number is replaced; otherwise the
    /// line is inserted at its place in ascending number order.
    pub fn add_line(&mut self, number: u32, statement: Statement)
        ensures
            final(self).deep_view() == add_line_s(
                old(self).deep_view(),
                number,
                statement.deep_view(),
            ),
            old(self).well_formed() ==> final(self).well_formed(),
    {
        let ghost old_lines = self.deep_view();
        let mut idx: usize = 0;
        while idx < self.lines.len() && self.lines[idx].number < number
            invariant
                idx <= self.lines.len(),
                self.lines.deep_view() == old_lines,
                forall|k: int| 0 <= k < idx ==> old_lines[k].number < number,
            decreases self.lines.len() - idx,
        {
            idx = idx + 1;
        }
        proof {
            assert(idx < old_lines.len() ==> self.lines[idx as int].deep_view() == old_lines[idx as int]);
        }
        let ghost st = statement.deep_view();
        if idx < self.lines.len() && self.lines[idx].number == number {
            self.lines.set(idx, Line { number, statement });
            proof {
                assert(self.lines.deep_view() =~= old_lines.subrange(0, idx as int) + seq![
                    LineS { number, stmt: st },
                ] + old_lines.subrange(idx as int + 1, old_lines.len() as int));
            }
        } else {
            self.lines.insert(idx, Line { number, statement });
            proof {
                assert(self.lines.deep_view() =~= old_lines.subrange(0, idx as int) + seq![
                    LineS { number, stmt: st },
                ] + old_lines.subrange(idx as int, old_lines.len() as int));
            }
        }
        proof {
            lemma_add_line_at(old_lines, number, st, idx as int);
            if lines_sorted(old_lines) {
                lemma_add_line_sorted(old_lines, number, st);
            }
        }
    }

    /// The lines of the program, in ascending line-number order.
    pub fn lines(&self) -> (r: &Vec<Line>)
        ensures
            r.deep_view() == self.deep_view(),
    {
        &self.lines
    }

    /// How many lines the program has.
    pub fn len(&self) -> (r: usize)
        ensures
            r == self.deep_view().len(),
    {
        self.lines.len()
    }
}

/// Where the first `idx` line numbers are below `number`, and the line at
/// `idx` (if any) is not, ordered insertion lands exactly at `idx`.
proof fn lemma_add_line_at(lines: Seq<LineS>, number: u32, stmt: StmtS, idx: int)
    requires
        0 <= idx <= lines.len(),
        forall|k: int| 0 <= k < idx ==> lines[k].number < number,
        idx < lines.len() ==> number <= lines[idx].number,
    ensures
        add_line_s(lines, number, stmt) == if idx < lines.len() && lines[idx].number == number {
            lines.subrange(0, idx) + seq![LineS { number, stmt }] + lines.subrange(
                idx + 1,
                lines.len() as int,
            )
        } else {
            lines.subrange(0, idx) + seq![LineS { number, stmt }] + lines.subrange(
                idx,
                lines.len() as int,
            )
        },
    decreases lines.len(),
{
    if lines.len() == 0 {
        assert(add_line_s(lines, number, stmt) =~= lines.subrange(0, 0) + seq![
            LineS { number, stmt },
        ] + lines.subrange(0, 0));
    } else if idx == 0 {
        if number == lines[0].number {
            assert(add_line_s(lines, number, stmt) =~= lines.subrange(0, 0) + seq![
                LineS { number, stmt },
            ] + lines.subrange(1, lines.len() as int));
        } else {
            assert(add_line_s(lines, number, stmt) =~= lines.subrange(0, 0) + seq![
                LineS { number, stmt },
            ] + lines.subrange(0, lines.len() as int));
        }
    } else {
        let tail = lines.drop_first();
        lemma_add_line_at(tail, number, stmt, idx - 1);
        if idx < lines.len() && lines[idx].number == number {
            assert(add_line_s(lines, number, stmt) =~= lines.subrange(0, idx) + seq![
                LineS { number, stmt },
            ] + lines.subrange(idx + 1, lines.len() as int));
        } else {
            assert(add_line_s(lines, number, stmt) =~= lines.subrange(0, idx) + seq![
                LineS { number, stmt },
            ] + lines.subrange(idx, lines.len() as int));
        }
    }
}

/// Ordered insertion keeps line numbers strictly ascending.
pub proof fn lemma_add_line_sorted(lines: Seq<LineS>, number: u32, stmt: StmtS)
    requires
        lines_sorted(lines),
    ensures
        lines_sorted(add_line_s(lines, number, stmt)),
    decreases lines.len(),
{
    if lines.len() == 0 {
    } else if number < lines[0].number {
    } else if number == lines[0].number {
        assert(add_line_s(lines, number, stmt) =~= seq![LineS { number, stmt }]
            + lines.drop_first());
    } else {
        let tail = lines.drop_first();
        assert(lines_sorted(tail));
        lemma_add_line_sorted(tail, number, stmt);
        let r = seq![lines[0]] + add_line_s(tail, number, stmt);
        lemma_add_line_members(tail, number, stmt);
        assert forall|i: int, j: int| 0 <= i < j < r.len() implies r[i].number < r[j].number by {
            if i == 0 {
                let inner = add_line_s(tail, number, stmt);
                assert(r[j] == inner[j - 1]);
            }
        }
    }
}

/// Every line of an insertion result is either the inserted line or one of
/// the original lines.
proof fn lemma_add_line_members(lines: Seq<LineS>, number: u32, stmt: StmtS)
    ensures
        forall|i: int|
            0 <= i < add_line_s(lines, number, stmt).len() ==> (add_line_s(
                lines,
                number,
                stmt,
            )[i].number == number || exists|j: int|
                0 <= j < lines.len() && lines[j].number == add_line_s(lines, number, stmt)[i].number),
    decreases lines.len(),
{
    if lines.len() == 0 {
    } else if number < lines[0].number {
    } else if number == lines[0].number {
    } else {
        let tail = lines.drop_first();
        lemma_add_line_members(tail, number, stmt);
        let r = seq![lines[0]] + add_line_s(tail, number, stmt);
        assert forall|i: int| 0 <= i < r.len() implies (r[i].number == number || exists|j: int|
            0 <= j < lines.len() && lines[j].number == r[i].number) by {
            if i == 0 {
                assert(lines[0].number == r[0].number);
            } else {
                let inner = add_line_s(tail, number, stmt);
                assert(r[i] == inner[i - 1]);
                if inner[i - 1].number != number {
                    let j = choose|j: int|
                        0 <= j < tail.len() && tail[j].number == inner[i - 1].number;
                    assert(lines[j + 1].number == r[i].number);
                }
            }
        }
    }
}

} // verus!
