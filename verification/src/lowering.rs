//! The mathematical model of HIR lowering.
//!
//! A builder state is a [`BState`]; the functions here define, value by
//! value, what one build does: how variables and string literals are
//! interned, what instructions each statement emits, and how the deferred
//! jump list is resolved into labels.  The executable builder in
//! [`crate::builder`] is proved to follow these functions exactly.

use vstd::prelude::*;
use crate::ast;
use crate::ast::{ExprS, ExprKindS, StmtS, LineS};
use crate::error::BuildError;
use crate::hir;
use crate::hir::{Hir, Operand};

verus! {

// ------------------------------------------------------------------
// Association sequences (the model of the builder's lookup tables).
// ------------------------------------------------------------------

/// First value bound to `k`, if any.
pub open spec fn assoc_find<K, V>(m: Seq<(K, V)>, k: K) -> Option<V>
    decreases m.len(),
{
    if m.len() == 0 {
        None
    } else if m.first().0 == k {
        Some(m.first().1)
    } else {
        assoc_find(m.drop_first(), k)
    }
}

/// Bind `k` to `v`: replace the existing binding, or append a new one.
pub open spec fn assoc_set<K, V>(m: Seq<(K, V)>, k: K, v: V) -> Seq<(K, V)>
    decreases m.len(),
{
    if m.len() == 0 {
        seq![(k, v)]
    } else if m.first().0 == k {
        seq![(k, v)] + m.drop_first()
    } else {
        seq![m.first()] + assoc_set(m.drop_first(), k, v)
    }
}

/// Index of the first occurrence of `s` in the string literal table.
pub open spec fn str_index(strs: Seq<Seq<char>>, s: Seq<char>) -> Option<int>
    decreases strs.len(),
{
    if strs.len() == 0 {
        None
    } else if strs.first() == s {
        Some(0)
    } else {
        match str_index(strs.drop_first(), s) {
            Some(i) => Some(i + 1),
            None => None,
        }
    }
}

// ------------------------------------------------------------------
// Builder state.
// ------------------------------------------------------------------

/// An open `FOR` loop, waiting for its `NEXT`.
pub struct ForFrameS {
    pub begin_label: u32,
    pub end_label: u32,
    pub step: Option<ExprS>,
}

/// The full state of one build.
pub struct BState {
    /// Instructions emitted so far.
    pub hir: Seq<Hir>,
    /// Variable table: surface name (trailing `$` included) to its operand.
    pub vars: Seq<(Seq<char>, Operand)>,
    /// Expression memo table: node id to the operand already computed for
    /// that node.
    pub memo: Seq<(u32, Operand)>,
    /// String literal table, in order of first occurrence, deduplicated.
    pub strs: Seq<Seq<char>>,
    /// Line number to the instruction index where that line's lowering
    /// began.
    pub line_map: Seq<(u32, int)>,
    /// Stack of open `FOR` frames.
    pub for_stack: Seq<ForFrameS>,
    /// Positions of emitted `Goto`/`GoSub` instructions whose label field
    /// still holds a raw line number.
    pub jumps: Seq<int>,
    /// Next fresh variable id.
    pub next_var: u32,
    /// Next fresh label id.
    pub next_label: u32,
}

/// The state a fresh builder starts from.
pub open spec fn init_state() -> BState {
    BState {
        hir: Seq::empty(),
        vars: Seq::empty(),
        memo: Seq::empty(),
        strs: Seq::empty(),
        line_map: Seq::empty(),
        for_stack: Seq::empty(),
        jumps: Seq::empty(),
        next_var: 0,
        next_label: 0,
    }
}

/// A surface variable name denotes string data exactly when it ends in `$`.
pub open spec fn is_string_name(name: Seq<char>) -> bool {
    name.len() > 0 && name.last() == '$'
}

/// The operand a fresh variable slot gets for a given surface name.
pub open spec fn fresh_var_operand(name: Seq<char>, id: u32) -> Operand {
    if is_string_name(name) {
        Operand::IndirectVariable { id }
    } else {
        Operand::Variable { id }
    }
}

/// Intern a variable name: the first reference allocates a slot, every
/// later reference resolves to the same operand.
pub open spec fn intern_var(m: BState, name: Seq<char>) -> Result<(BState, Operand), BuildError> {
    match assoc_find(m.vars, name) {
        Some(op) => Ok((m, op)),
        None => {
            if m.next_var == u32::MAX {
                Err(BuildError::CapacityExceeded)
            } else {
                let op = fresh_var_operand(name, m.next_var);
                let m1 = BState {
                    vars: assoc_set(m.vars, name, op),
                    next_var: (m.next_var + 1) as u32,
                    ..m
                };
                Ok((m1, op))
            }
        },
    }
}

/// Intern a string literal: deduplicated on exact text equality, in order
/// of first occurrence.  The result is the table index, which must fit the
/// `i32` payload of an indirect operand.
pub open spec fn intern_str(m: BState, s: Seq<char>) -> Result<(BState, i32), BuildError> {
    match str_index(m.strs, s) {
        Some(i) => {
            if i > i32::MAX {
                Err(BuildError::CapacityExceeded)
            } else {
                Ok((m, i as i32))
            }
        },
        None => {
            if m.strs.len() > i32::MAX {
                Err(BuildError::CapacityExceeded)
            } else {
                Ok((BState { strs: m.strs.push(s), ..m }, m.strs.len() as i32))
            }
        },
    }
}

/// The HIR operator for a surface operator.
pub open spec fn hir_op(op: ast::BinaryOperator) -> hir::BinaryOperator {
    match op {
        ast::BinaryOperator::Add => hir::BinaryOperator::Add,
        ast::BinaryOperator::Sub => hir::BinaryOperator::Sub,
        ast::BinaryOperator::Mul => hir::BinaryOperator::Mul,
        ast::BinaryOperator::Div => hir::BinaryOperator::Div,
        ast::BinaryOperator::And => hir::BinaryOperator::And,
        ast::BinaryOperator::Or => hir::BinaryOperator::Or,
        ast::BinaryOperator::Eq => hir::BinaryOperator::Eq,
        ast::BinaryOperator::Ne => hir::BinaryOperator::Ne,
        ast::BinaryOperator::Lt => hir::BinaryOperator::Lt,
        ast::BinaryOperator::Le => hir::BinaryOperator::Le,
        ast::BinaryOperator::Gt => hir::BinaryOperator::Gt,
        ast::BinaryOperator::Ge => hir::BinaryOperator::Ge,
    }
}

// ------------------------------------------------------------------
// Expression lowering.
// ------------------------------------------------------------------

/// Lower one expression node, emitting the instructions that compute it and
/// returning the operand that holds its value.
pub open spec fn lower_expr(m: BState, e: ExprS) -> Result<(BState, Operand), BuildError>
    decreases e, 0int,
{
    match e.kind {
        ExprKindS::NumberLiteral(n) => Ok((m, Operand::NumberLiteral { value: n })),
        ExprKindS::StringLiteral(s) => match intern_str(m, s) {
            Ok((m1, idx)) => Ok((m1, Operand::IndirectNumberLiteral { value: idx })),
            Err(e) => Err(e),
        },
        ExprKindS::Variable(name) => intern_var(m, name),
        ExprKindS::Binary { left, op, right } => match lower_operand(m, *left) {
            Ok((m1, lop)) => match lower_operand(m1, *right) {
                Ok((m2, rop)) => {
                    if m2.next_var == u32::MAX {
                        Err(BuildError::CapacityExceeded)
                    } else {
                        let dest = Operand::Variable { id: m2.next_var };
                        let instr = Hir::Expression(hir::Expression {
                            left: lop,
                            op: hir_op(op),
                            right: rop,
                            dest,
                        });
                        let m3 = BState {
                            next_var: (m2.next_var + 1) as u32,
                            hir: m2.hir.push(instr),
                            memo: assoc_set(m2.memo, e.id, dest),
                            ..m2
                        };
                        Ok((m3, dest))
                    }
                },
                Err(e) => Err(e),
            },
            Err(e) => Err(e),
        },
    }
}

/// Lower an operand position of a binary node: consult the memo table
/// first, and record the node's operand for reuse.
pub open spec fn lower_operand(m: BState, e: ExprS) -> Result<(BState, Operand), BuildError>
    decreases e, 1int,
{
    match assoc_find(m.memo, e.id) {
        Some(op) => Ok((m, op)),
        None => match lower_expr(m, e) {
            Ok((m1, op)) => Ok((BState { memo: assoc_set(m1.memo, e.id, op), ..m1 }, op)),
            Err(err) => Err(err),
        },
    }
}

// ------------------------------------------------------------------
// Statement lowering.
// ------------------------------------------------------------------

/// Lower the items of a `PRINT` or `PAUSE`, one `Print` instruction per
/// item, in order.
pub open spec fn lower_print_items(m: BState, items: Seq<ExprS>) -> Result<BState, BuildError>
    decreases items.len(),
{
    if items.len() == 0 {
        Ok(m)
    } else {
        match lower_expr(m, items.first()) {
            Ok((m1, op)) => lower_print_items(
                BState { hir: m1.hir.push(Hir::Print { operand: op }), ..m1 },
                items.drop_first(),
            ),
            Err(e) => Err(e),
        }
    }
}

/// Lower one statement: what every statement of the surface language
/// emits, in the order it emits it.
pub open spec fn lower_stmt(m: BState, s: StmtS) -> Result<BState, BuildError>
    decreases s, 0int,
{
    match s {
        StmtS::Let { variable, expression } => match intern_var(m, variable) {
            Ok((m1, dest)) => match lower_expr(m1, expression) {
                Ok((m2, src)) => Ok(
                    BState { hir: m2.hir.push(Hir::Copy { src, dest }), ..m2 },
                ),
                Err(e) => Err(e),
            },
            Err(e) => Err(e),
        },
        StmtS::Print { content } => lower_print_items(m, content),
        StmtS::Pause { content } => lower_print_items(m, content),
        StmtS::Input { prompt, variable } => {
            let pr = match prompt {
                Some(p) => match lower_expr(m, p) {
                    Ok((m1, op)) => Ok(
                        BState { hir: m1.hir.push(Hir::Print { operand: op }), ..m1 },
                    ),
                    Err(e) => Err(e),
                },
                None => Ok(m),
            };
            match pr {
                Ok(m1) => match intern_var(m1, variable) {
                    Ok((m2, dest)) => Ok(
                        BState { hir: m2.hir.push(Hir::Input { dest }), ..m2 },
                    ),
                    Err(e) => Err(e),
                },
                Err(e) => Err(e),
            }
        },
        StmtS::Goto { line_number } => Ok(
            BState {
                jumps: m.jumps.push(m.hir.len() as int),
                hir: m.hir.push(Hir::Goto { label: line_number }),
                ..m
            },
        ),
        StmtS::GoSub { line_number } => Ok(
            BState {
                jumps: m.jumps.push(m.hir.len() as int),
                hir: m.hir.push(Hir::GoSub { label: line_number }),
                ..m
            },
        ),
        StmtS::Return => Ok(BState { hir: m.hir.push(Hir::Return), ..m }),
        StmtS::If { condition, then, else_ } => match lower_expr(m, condition) {
            Ok((m1, cond)) => {
                if m1.next_var == u32::MAX {
                    Err(BuildError::CapacityExceeded)
                } else {
                    let neg = Operand::Variable { id: m1.next_var };
                    let m2 = BState { next_var: (m1.next_var + 1) as u32, ..m1 };
                    let m3 = BState {
                        hir: m2.hir.push(Hir::Expression(hir::Expression {
                            left: cond,
                            op: hir::BinaryOperator::Eq,
                            right: Operand::NumberLiteral { value: 0 },
                            dest: neg,
                        })),
                        ..m2
                    };
                    if m3.next_label == u32::MAX {
                        Err(BuildError::CapacityExceeded)
                    } else {
                        let lbl = m3.next_label;
                        let m4 = BState { next_label: (m3.next_label + 1) as u32, ..m3 };
                        let m5 = BState {
                            hir: m4.hir.push(Hir::If { condition: neg, label: lbl }),
                            ..m4
                        };
                        match lower_stmt(m5, *then) {
                            Ok(m6) => {
                                let m7 = BState {
                                    hir: m6.hir.push(Hir::Label { id: lbl }),
                                    ..m6
                                };
                                match else_ {
                                    Some(e) => lower_stmt(m7, *e),
                                    None => Ok(m7),
                                }
                            },
                            Err(e) => Err(e),
                        }
                    }
                }
            },
            Err(e) => Err(e),
        },
        StmtS::For { variable, from, to, step } => match intern_var(m, variable) {
            Ok((m1, index)) => match lower_expr(m1, from) {
                Ok((m2, from_op)) => {
                    let m3 = BState {
                        hir: m2.hir.push(Hir::Copy { src: from_op, dest: index }),
                        ..m2
                    };
                    if m3.next_label as int + 1 >= u32::MAX {
                        Err(BuildError::CapacityExceeded)
                    } else {
                        let begin = m3.next_label;
                        let end = (m3.next_label + 1) as u32;
                        let m4 = BState { next_label: (m3.next_label + 2) as u32, ..m3 };
                        let m5 = BState { hir: m4.hir.push(Hir::Label { id: begin }), ..m4 };
                        match lower_expr(m5, to) {
                            Ok((m6, to_op)) => {
                                if m6.next_var == u32::MAX {
                                    Err(BuildError::CapacityExceeded)
                                } else {
                                    let cmp = Operand::Variable { id: m6.next_var };
                                    let m7 = BState {
                                        next_var: (m6.next_var + 1) as u32,
                                        ..m6
                                    };
                                    let m8 = BState {
                                        hir: m7.hir.push(Hir::Expression(hir::Expression {
                                            left: index,
                                            op: hir::BinaryOperator::Ge,
                                            right: to_op,
                                            dest: cmp,
                                        })),
                                        ..m7
                                    };
                                    let m9 = BState {
                                        hir: m8.hir.push(Hir::If { condition: cmp, label: end }),
                                        ..m8
                                    };
                                    Ok(
                                        BState {
                                            for_stack: m9.for_stack.push(ForFrameS {
                                                begin_label: begin,
                                                end_label: end,
                                                step,
                                            }),
                                            ..m9
                                        },
                                    )
                                }
                            },
                            Err(e) => Err(e),
                        }
                    }
                },
                Err(e) => Err(e),
            },
            Err(e) => Err(e),
        },
        StmtS::Next { variable } => match intern_var(m, variable) {
            Ok((m1, index)) => {
                if m1.for_stack.len() == 0 {
                    Err(BuildError::UnmatchedNext)
                } else {
                    let frame = m1.for_stack.last();
                    let m2 = BState { for_stack: m1.for_stack.drop_last(), ..m1 };
                    let stepped = match frame.step {
                        Some(se) => match lower_expr(m2, se) {
                            Ok((m3, sop)) => Ok(
                                BState {
                                    hir: m3.hir.push(Hir::Expression(hir::Expression {
                                        left: index,
                                        op: hir::BinaryOperator::Add,
                                        right: sop,
                                        dest: index,
                                    })),
                                    ..m3
                                },
                            ),
                            Err(e) => Err(e),
                        },
                        None => Ok(
                            BState {
                                hir: m2.hir.push(Hir::Expression(hir::Expression {
                                    left: index,
                                    op: hir::BinaryOperator::Add,
                                    right: Operand::NumberLiteral { value: 1 },
                                    dest: index,
                                })),
                                ..m2
                            },
                        ),
                    };
                    match stepped {
                        Ok(m4) => {
                            let m5 = BState {
                                hir: m4.hir.push(Hir::Goto { label: frame.begin_label }),
                                ..m4
                            };
                            Ok(
                                BState {
                                    hir: m5.hir.push(Hir::Label { id: frame.end_label }),
                                    ..m5
                                },
                            )
                        },
                        Err(e) => Err(e),
                    }
                }
            },
            Err(e) => Err(e),
        },
        StmtS::Sequence { statements } => lower_stmts(m, statements),
        // `END` marks the end of the stream implicitly; `WAIT`, `DATA`,
        // `READ`, `RESTORE`, `POKE`, `CALL`, `DIM` and `REM` have no HIR
        // instruction and emit nothing.
        _ => Ok(m),
    }
}

/// Lower a colon-joined sequence of statements, in order.
pub open spec fn lower_stmts(m: BState, ss: Seq<StmtS>) -> Result<BState, BuildError>
    decreases ss, 1int,
{
    if ss.len() == 0 {
        Ok(m)
    } else {
        match lower_stmt(m, ss.first()) {
            Ok(m1) => lower_stmts(m1, ss.drop_first()),
            Err(e) => Err(e),
        }
    }
}

// ------------------------------------------------------------------
// Program lowering (first pass).
// ------------------------------------------------------------------

/// Lower one program line: record where its lowering begins, then lower its
/// statement.
pub open spec fn lower_line(m: BState, ln: LineS) -> Result<BState, BuildError> {
    lower_stmt(
        BState { line_map: m.line_map.push((ln.number, m.hir.len() as int)), ..m },
        ln.stmt,
    )
}

/// Lower all program lines, in the order the program stores them (ascending
/// line-number order).
pub open spec fn lower_lines(m: BState, lines: Seq<LineS>) -> Result<BState, BuildError>
    decreases lines.len(),
{
    if lines.len() == 0 {
        Ok(m)
    } else {
        match lower_line(m, lines.first()) {
            Ok(m1) => lower_lines(m1, lines.drop_first()),
            Err(e) => Err(e),
        }
    }
}

// ------------------------------------------------------------------
// Jump resolution (second pass).
// ------------------------------------------------------------------

/// The state of the resolution pass.
pub struct RState {
    pub hir: Seq<Hir>,
    pub line_map: Seq<(u32, int)>,
    pub jumps: Seq<int>,
    pub next_label: u32,
}

/// Bump by one every recorded position at or after an insertion point.
pub open spec fn shift_positions(ps: Seq<int>, t: int) -> Seq<int> {
    ps.map_values(|p: int| if p >= t { p + 1 } else { p })
}

/// Bump by one every line-start index at or after an insertion point.
pub open spec fn shift_line_map(lm: Seq<(u32, int)>, t: int) -> Seq<(u32, int)> {
    lm.map_values(|e: (u32, int)| if e.1 >= t { (e.0, e.1 + 1) } else { e })
}

/// Resolve one deferred jump (the most recently recorded one) and recurse.
///
/// The jump's raw line number is looked up in the line map; a missing entry
/// is a fatal error.  If the instruction just before the target is already
/// a label, its id is reused; otherwise a fresh label is inserted at the
/// target, and every not-yet-resolved recorded position at or after the
/// insertion point moves up by one.
pub open spec fn resolve_jumps(r: RState) -> Result<(Seq<Hir>, u32), BuildError>
    decreases r.jumps.len(),
{
    if r.jumps.len() == 0 {
        Ok((r.hir, r.next_label))
    } else {
        let og = r.jumps.last();
        let rest = r.jumps.drop_last();
        if !(0 <= og < r.hir.len()) {
            // Never reached from a real build: recorded positions always
            // hold the jump they were recorded for.
            resolve_jumps(RState { jumps: rest, ..r })
        } else {
            let target_line = match r.hir[og] {
                Hir::Goto { label } => Some(label),
                Hir::GoSub { label } => Some(label),
                _ => None,
            };
            match target_line {
                None => resolve_jumps(RState { jumps: rest, ..r }),
                Some(ln) => match assoc_find(r.line_map, ln) {
                    None => Err(BuildError::UnresolvedJumpTarget { line_number: ln }),
                    Some(t) => {
                        if !(0 <= t <= r.hir.len()) {
                            // Never reached from a real build either.
                            resolve_jumps(RState { jumps: rest, ..r })
                        } else if t >= 1 && r.hir[t - 1] is Label {
                            let label = r.hir[t - 1]->Label_id;
                            let new_hir = r.hir.update(og, rewrite_jump(r.hir[og], label));
                            resolve_jumps(RState { hir: new_hir, jumps: rest, ..r })
                        } else if r.next_label == u32::MAX {
                            Err(BuildError::CapacityExceeded)
                        } else {
                            let label = r.next_label;
                            let hir1 = r.hir.insert(t, Hir::Label { id: label });
                            let og1 = if og >= t { og + 1 } else { og };
                            let hir2 = hir1.update(og1, rewrite_jump(r.hir[og], label));
                            resolve_jumps(
                                RState {
                                    hir: hir2,
                                    line_map: shift_line_map(r.line_map, t),
                                    jumps: shift_positions(rest, t),
                                    next_label: (r.next_label + 1) as u32,
                                },
                            )
                        }
                    },
                },
            }
        }
    }
}

// ------------------------------------------------------------------
// Laws of the lookup tables.
// ------------------------------------------------------------------

/// A binding found is a binding present.
pub proof fn lemma_assoc_find_exists<K, V>(m: Seq<(K, V)>, k: K)
    requires
        assoc_find(m, k) is Some,
    ensures
        exists|j: int|
            0 <= j < m.len() && (#[trigger] m[j]).0 == k && m[j].1 == assoc_find(m, k)->Some_0,
    decreases m.len(),
{
    if m.len() > 0 {
        if m.first().0 == k {
            assert(m[0].0 == k);
        } else {
            lemma_assoc_find_exists(m.drop_first(), k);
            let j = choose|j: int|
                0 <= j < m.drop_first().len() && (#[trigger] m.drop_first()[j]).0 == k
                    && m.drop_first()[j].1 == assoc_find(m.drop_first(), k)->Some_0;
            assert(m[j + 1].0 == k);
        }
    }
}

/// Appending a binding keeps every existing binding.
pub proof fn lemma_assoc_find_push<K, V>(m: Seq<(K, V)>, k: K, e: (K, V))
    requires
        assoc_find(m, k) is Some,
    ensures
        assoc_find(m.push(e), k) == assoc_find(m, k),
    decreases m.len(),
{
    if m.len() > 0 {
        if m.first().0 == k {
            assert(m.push(e).first() == m.first());
            assert(m.push(e).drop_first() =~= m.drop_first().push(e));
        } else {
            lemma_assoc_find_push(m.drop_first(), k, e);
            assert(m.push(e).drop_first() =~= m.drop_first().push(e));
        }
    }
}

/// Appending a binding for an absent key makes it found.
pub proof fn lemma_assoc_find_push_new<K, V>(m: Seq<(K, V)>, k: K, v: V)
    requires
        assoc_find(m, k) is None,
    ensures
        assoc_find(m.push((k, v)), k) == Some(v),
    decreases m.len(),
{
    if m.len() == 0 {
        assert(m.push((k, v)).first() == (k, v));
    } else {
        lemma_assoc_find_push_new(m.drop_first(), k, v);
        assert(m.push((k, v)).drop_first() =~= m.drop_first().push((k, v)));
    }
}

/// `a` is an initial segment of `b`.
pub open spec fn table_prefix(a: Seq<Seq<char>>, b: Seq<Seq<char>>) -> bool {
    a.len() <= b.len() && forall|i: int| 0 <= i < a.len() ==> b[i] == a[i]
}

/// A first occurrence keeps its index when the table grows at the end.
pub proof fn lemma_str_index_prefix(a: Seq<Seq<char>>, b: Seq<Seq<char>>, s: Seq<char>)
    requires
        table_prefix(a, b),
        str_index(a, s) is Some,
    ensures
        str_index(b, s) == str_index(a, s),
    decreases a.len(),
{
    if a.len() > 0 {
        assert(b.len() > 0 && b.first() == a.first());
        if a.first() == s {
        } else {
            assert(table_prefix(a.drop_first(), b.drop_first()));
            lemma_str_index_prefix(a.drop_first(), b.drop_first(), s);
        }
    }
}

/// A string absent from the table is found right where it is appended.
pub proof fn lemma_str_index_push_new(a: Seq<Seq<char>>, s: Seq<char>)
    requires
        str_index(a, s) is None,
    ensures
        str_index(a.push(s), s) == Some(a.len() as int),
    decreases a.len(),
{
    if a.len() == 0 {
        assert(a.push(s).first() == s);
    } else {
        lemma_str_index_push_new(a.drop_first(), s);
        assert(a.push(s).drop_first() =~= a.drop_first().push(s));
    }
}

// ------------------------------------------------------------------
// Variable identity and string-literal identity.
// ------------------------------------------------------------------

/// The slot id a variable operand carries.
pub open spec fn var_op_id(op: Operand) -> u32 {
    match op {
        Operand::Variable { id } => id,
        Operand::IndirectVariable { id } => id,
        _ => 0,
    }
}

/// One variable-table entry is sound: its operand kind follows the `$`
/// convention of its name, and its slot id was allocated below the
/// counter.
pub open spec fn var_entry_ok(e: (Seq<char>, Operand), next_var: u32) -> bool {
    match e.1 {
        Operand::Variable { id } => !is_string_name(e.0) && id < next_var,
        Operand::IndirectVariable { id } => is_string_name(e.0) && id < next_var,
        _ => false,
    }
}

/// The variable table is sound: every entry is, and slot ids strictly
/// increase along the table, so distinct entries hold distinct ids.
pub open spec fn vars_wf(m: BState) -> bool {
    (forall|j: int| 0 <= j < m.vars.len() ==> var_entry_ok(#[trigger] m.vars[j], m.next_var))
        && (forall|j1: int, j2: int|
        0 <= j1 < j2 < m.vars.len() ==> var_op_id(m.vars[j1].1) < var_op_id(m.vars[j2].1))
}

/// `b` is a later state of the same build as `a`: the literal table only
/// grew at the end, the variable counter only grew, and every variable
/// binding of `a` still holds in `b`.
pub open spec fn extends(a: BState, b: BState) -> bool {
    table_prefix(a.strs, b.strs) && a.next_var <= b.next_var && forall|n: Seq<char>|
        (#[trigger] assoc_find(a.vars, n)) is Some ==> assoc_find(b.vars, n) == assoc_find(
            a.vars,
            n,
        )
}

pub proof fn lemma_extends_trans(a: BState, b: BState, c: BState)
    requires
        extends(a, b),
        extends(b, c),
    ensures
        extends(a, c),
{
}

/// Interning a variable: the binding it returns holds afterwards, the
/// operand kind follows the `$` convention, the table stays sound, and
/// nothing already bound changes.
pub proof fn lemma_intern_var(m: BState, n: Seq<char>)
    requires
        vars_wf(m),
    ensures
        intern_var(m, n) matches Ok(p) ==> {
            let (m2, op) = p;
            extends(m, m2) && vars_wf(m2) && assoc_find(m2.vars, n) == Some(op) && (op
                is IndirectVariable <==> is_string_name(n)) && (op is Variable || op
                is IndirectVariable) && var_op_id(op) < m2.next_var
        },
{
    match assoc_find(m.vars, n) {
        Some(op) => {
            lemma_assoc_find_exists(m.vars, n);
        },
        None => {
            if m.next_var != u32::MAX {
                let op = fresh_var_operand(n, m.next_var);
                lemma_assoc_set_absent_general(m.vars, n, op);
                lemma_assoc_find_push_new(m.vars, n, op);
                let m2 = BState {
                    vars: assoc_set(m.vars, n, op),
                    next_var: (m.next_var + 1) as u32,
                    ..m
                };
                assert(m2.vars == m.vars.push((n, op)));
                assert forall|n2: Seq<char>| (#[trigger] assoc_find(m.vars, n2)) is Some implies
                    assoc_find(m2.vars, n2) == assoc_find(m.vars, n2) by {
                    lemma_assoc_find_push(m.vars, n2, (n, op));
                }
                assert forall|j: int| 0 <= j < m2.vars.len() implies var_entry_ok(
                    #[trigger] m2.vars[j],
                    m2.next_var,
                ) by {
                    if j < m.vars.len() {
                        assert(var_entry_ok(m.vars[j], m.next_var));
                    }
                }
            }
        },
    }
}

/// Binding an absent key appends it (general form over any key/value
/// types).
pub proof fn lemma_assoc_set_absent_general<K, V>(m: Seq<(K, V)>, k: K, v: V)
    requires
        assoc_find(m, k) is None,
    ensures
        assoc_set(m, k, v) == m.push((k, v)),
    decreases m.len(),
{
    if m.len() == 0 {
        assert(assoc_set(m, k, v) =~= m.push((k, v)));
    } else {
        lemma_assoc_set_absent_general(m.drop_first(), k, v);
        assert(assoc_set(m, k, v) =~= m.push((k, v)));
    }
}

/// Interning a string literal: the index it returns is the first
/// occurrence of that text afterwards, and the table only grows at the
/// end.
pub proof fn lemma_intern_str(m: BState, s: Seq<char>)
    ensures
        intern_str(m, s) matches Ok(p) ==> {
            let (m2, idx) = p;
            table_prefix(m.strs, m2.strs) && m2.vars == m.vars && m2.next_var == m.next_var
                && idx >= 0 && str_index(m2.strs, s) == Some(idx as int)
        },
{
    match str_index(m.strs, s) {
        Some(i) => {
            lemma_str_index_nonneg(m.strs, s);
        },
        None => {
            if m.strs.len() <= i32::MAX {
                lemma_str_index_push_new(m.strs, s);
            }
        },
    }
}

/// A first occurrence index is never negative.
pub proof fn lemma_str_index_nonneg(strs: Seq<Seq<char>>, s: Seq<char>)
    ensures
        str_index(strs, s) matches Some(i) ==> 0 <= i < strs.len(),
    decreases strs.len(),
{
    if strs.len() > 0 && strs.first() != s {
        lemma_str_index_nonneg(strs.drop_first(), s);
    }
}

/// Interning the same name again, in any later state of the build, yields
/// the same operand and changes nothing: every reference to one surface
/// variable resolves to the one slot allocated at its first reference.
pub proof fn lemma_variable_identity(m: BState, n: Seq<char>, m2: BState)
    requires
        vars_wf(m),
        intern_var(m, n) matches Ok(p),
        extends((intern_var(m, n)->Ok_0).0, m2),
    ensures
        intern_var(m2, n) == Ok::<(BState, Operand), BuildError>(
            (m2, (intern_var(m, n)->Ok_0).1),
        ),
{
    lemma_intern_var(m, n);
    let (m1, op) = intern_var(m, n)->Ok_0;
    assert(assoc_find(m2.vars, n) == Some(op));
}

/// Two distinct surface names never share a slot id; a `$`-suffixed name
/// and a plain name get operands of distinct kinds.
pub proof fn lemma_distinct_variables(m: BState, n1: Seq<char>, n2: Seq<char>, m2: BState)
    requires
        vars_wf(m),
        n1 != n2,
        intern_var(m, n1) matches Ok(p),
        extends((intern_var(m, n1)->Ok_0).0, m2),
        vars_wf(m2),
        intern_var(m2, n2) matches Ok(q),
    ensures
        var_op_id((intern_var(m, n1)->Ok_0).1) != var_op_id((intern_var(m2, n2)->Ok_0).1),
        (intern_var(m, n1)->Ok_0).1 is IndirectVariable <==> is_string_name(n1),
        (intern_var(m2, n2)->Ok_0).1 is IndirectVariable <==> is_string_name(n2),
{
    lemma_intern_var(m, n1);
    let (m1, o1) = intern_var(m, n1)->Ok_0;
    lemma_intern_var(m2, n2);
    let (m3, o2) = intern_var(m2, n2)->Ok_0;
    assert(assoc_find(m2.vars, n1) == Some(o1));
    lemma_assoc_find_exists(m2.vars, n1);
    let j1 = choose|j: int|
        0 <= j < m2.vars.len() && (#[trigger] m2.vars[j]).0 == n1 && m2.vars[j].1 == o1;
    match assoc_find(m2.vars, n2) {
        Some(_) => {
            lemma_assoc_find_exists(m2.vars, n2);
            let j2 = choose|j: int|
                0 <= j < m2.vars.len() && (#[trigger] m2.vars[j]).0 == n2 && m2.vars[j].1 == o2;
            assert(j1 != j2);
            if j1 < j2 {
                assert(var_op_id(m2.vars[j1].1) < var_op_id(m2.vars[j2].1));
            } else {
                assert(var_op_id(m2.vars[j2].1) < var_op_id(m2.vars[j1].1));
            }
        },
        None => {
            assert(var_entry_ok(m2.vars[j1], m2.next_var));
            assert(var_op_id(o1) < m2.next_var);
            assert(var_op_id(o2) == m2.next_var);
        },
    }
}

/// Interning the same literal text again, in any later state of the
/// build, yields the same table index and changes nothing: every
/// occurrence of one string literal references the one slot allocated at
/// its first occurrence.
pub proof fn lemma_string_literal_identity(m: BState, s: Seq<char>, m2: BState)
    requires
        intern_str(m, s) matches Ok(p),
        table_prefix((intern_str(m, s)->Ok_0).0.strs, m2.strs),
    ensures
        intern_str(m2, s) == Ok::<(BState, i32), BuildError>((m2, (intern_str(m, s)->Ok_0).1)),
{
    lemma_intern_str(m, s);
    let (m1, idx) = intern_str(m, s)->Ok_0;
    lemma_str_index_prefix(m1.strs, m2.strs, s);
    assert(str_index(m2.strs, s) == Some(idx as int));
}

// ------------------------------------------------------------------
// The identity laws hold across a whole build: every lowering step takes
// a sound state to a sound later state.
// ------------------------------------------------------------------

/// Lowering an expression extends the build state.
pub proof fn lemma_lower_expr_ext(m: BState, e: ExprS)
    requires
        vars_wf(m),
    ensures
        lower_expr(m, e) matches Ok(p) ==> extends(m, p.0) && vars_wf(p.0) && p.0.line_map
            == m.line_map,
        lower_expr(m, e) matches Err(er) ==> !(er is UnresolvedJumpTarget),
    decreases e, 0int,
{
    match e.kind {
        ExprKindS::NumberLiteral(_) => {},
        ExprKindS::StringLiteral(s) => {
            lemma_intern_str(m, s);
        },
        ExprKindS::Variable(name) => {
            lemma_intern_var(m, name);
        },
        ExprKindS::Binary { left, op, right } => {
            lemma_lower_operand_ext(m, *left);
            match lower_operand(m, *left) {
                Ok((m1, _)) => {
                    lemma_lower_operand_ext(m1, *right);
                    match lower_operand(m1, *right) {
                        Ok((m2, _)) => {
                            lemma_extends_trans(m, m1, m2);
                        },
                        Err(_) => {},
                    }
                },
                Err(_) => {},
            }
        },
    }
}

/// As [`lemma_lower_expr_ext`], for the memo-aware entry point.
pub proof fn lemma_lower_operand_ext(m: BState, e: ExprS)
    requires
        vars_wf(m),
    ensures
        lower_operand(m, e) matches Ok(p) ==> extends(m, p.0) && vars_wf(p.0) && p.0.line_map
            == m.line_map,
        lower_operand(m, e) matches Err(er) ==> !(er is UnresolvedJumpTarget),
    decreases e, 1int,
{
    match assoc_find(m.memo, e.id) {
        Some(_) => {},
        None => {
            lemma_lower_expr_ext(m, e);
        },
    }
}

/// As [`lemma_lower_expr_ext`], for `PRINT`/`PAUSE` item lists.
pub proof fn lemma_lower_print_items_ext(m: BState, items: Seq<ExprS>)
    requires
        vars_wf(m),
    ensures
        lower_print_items(m, items) matches Ok(m2) ==> extends(m, m2) && vars_wf(m2)
            && m2.line_map == m.line_map,
        lower_print_items(m, items) matches Err(er) ==> !(er is UnresolvedJumpTarget),
    decreases items.len(),
{
    if items.len() > 0 {
        lemma_lower_expr_ext(m, items.first());
        match lower_expr(m, items.first()) {
            Ok((m1, op)) => {
                let m1p = BState { hir: m1.hir.push(Hir::Print { operand: op }), ..m1 };
                lemma_lower_print_items_ext(m1p, items.drop_first());
                match lower_print_items(m1p, items.drop_first()) {
                    Ok(m2) => {
                        lemma_extends_trans(m, m1p, m2);
                    },
                    Err(_) => {},
                }
            },
            Err(_) => {},
        }
    }
}

/// As [`lemma_lower_expr_ext`], for one statement.
pub proof fn lemma_lower_stmt_ext(m: BState, s: StmtS)
    requires
        vars_wf(m),
    ensures
        lower_stmt(m, s) matches Ok(m2) ==> extends(m, m2) && vars_wf(m2) && m2.line_map
            == m.line_map,
        lower_stmt(m, s) matches Err(er) ==> !(er is UnresolvedJumpTarget),
    decreases s, 0int,
{
    match s {
        StmtS::Let { variable, expression } => {
            lemma_intern_var(m, variable);
            match intern_var(m, variable) {
                Ok((m1, _)) => {
                    lemma_lower_expr_ext(m1, expression);
                    match lower_expr(m1, expression) {
                        Ok((m2, _)) => {
                            lemma_extends_trans(m, m1, m2);
                        },
                        Err(_) => {},
                    }
                },
                Err(_) => {},
            }
        },
        StmtS::Print { content } => {
            lemma_lower_print_items_ext(m, content);
        },
        StmtS::Pause { content } => {
            lemma_lower_print_items_ext(m, content);
        },
        StmtS::Input { prompt, variable } => {
            match prompt {
                Some(p) => {
                    lemma_lower_expr_ext(m, p);
                    match lower_expr(m, p) {
                        Ok((m1, op)) => {
                            let m1p = BState {
                                hir: m1.hir.push(Hir::Print { operand: op }),
                                ..m1
                            };
                            lemma_intern_var(m1p, variable);
                            match intern_var(m1p, variable) {
                                Ok((m2, _)) => {
                                    lemma_extends_trans(m, m1p, m2);
                                },
                                Err(_) => {},
                            }
                        },
                        Err(_) => {},
                    }
                },
                None => {
                    lemma_intern_var(m, variable);
                },
            }
        },
        StmtS::If { condition, then, else_ } => {
            lemma_lower_expr_ext(m, condition);
            match lower_expr(m, condition) {
                Ok((m1, cond)) => {
                    if m1.next_var != u32::MAX {
                        let neg = Operand::Variable { id: m1.next_var };
                        let m2 = BState { next_var: (m1.next_var + 1) as u32, ..m1 };
                        assert(vars_wf(m2)) by {
                            assert forall|j: int| 0 <= j < m2.vars.len() implies var_entry_ok(
                                #[trigger] m2.vars[j],
                                m2.next_var,
                            ) by {
                                assert(var_entry_ok(m1.vars[j], m1.next_var));
                            }
                        }
                        let m3 = BState {
                            hir: m2.hir.push(Hir::Expression(hir::Expression {
                                left: cond,
                                op: hir::BinaryOperator::Eq,
                                right: Operand::NumberLiteral { value: 0 },
                                dest: neg,
                            })),
                            ..m2
                        };
                        if m3.next_label != u32::MAX {
                            let lbl = m3.next_label;
                            let m4 = BState { next_label: (m3.next_label + 1) as u32, ..m3 };
                            let m5 = BState {
                                hir: m4.hir.push(Hir::If { condition: neg, label: lbl }),
                                ..m4
                            };
                            lemma_lower_stmt_ext(m5, *then);
                            match lower_stmt(m5, *then) {
                                Ok(m6) => {
                                    let m7 = BState {
                                        hir: m6.hir.push(Hir::Label { id: lbl }),
                                        ..m6
                                    };
                                    lemma_extends_trans(m, m5, m7);
                                    match else_ {
                                        Some(e) => {
                                            lemma_lower_stmt_ext(m7, *e);
                                            match lower_stmt(m7, *e) {
                                                Ok(m8) => {
                                                    lemma_extends_trans(m, m7, m8);
                                                },
                                                Err(_) => {},
                                            }
                                        },
                                        None => {},
                                    }
                                },
                                Err(_) => {},
                            }
                        }
                    }
                },
                Err(_) => {},
            }
        },
        StmtS::For { variable, from, to, step } => {
            lemma_intern_var(m, variable);
            match intern_var(m, variable) {
                Ok((m1, index)) => {
                    lemma_lower_expr_ext(m1, from);
                    match lower_expr(m1, from) {
                        Ok((m2, from_op)) => {
                            let m3 = BState {
                                hir: m2.hir.push(Hir::Copy { src: from_op, dest: index }),
                                ..m2
                            };
                            if m3.next_label as int + 1 < u32::MAX {
                                let m4 = BState {
                                    next_label: (m3.next_label + 2) as u32,
                                    ..m3
                                };
                                let m5 = BState {
                                    hir: m4.hir.push(Hir::Label { id: m3.next_label }),
                                    ..m4
                                };
                                lemma_extends_trans(m, m1, m5);
                                lemma_lower_expr_ext(m5, to);
                                match lower_expr(m5, to) {
                                    Ok((m6, _)) => {
                                        lemma_extends_trans(m, m5, m6);
                                        if m6.next_var != u32::MAX {
                                            let m7 = BState {
                                                next_var: (m6.next_var + 1) as u32,
                                                ..m6
                                            };
                                            assert(vars_wf(m7)) by {
                                                assert forall|j: int|
                                                    0 <= j < m7.vars.len() implies var_entry_ok(
                                                    #[trigger] m7.vars[j],
                                                    m7.next_var,
                                                ) by {
                                                    assert(var_entry_ok(m6.vars[j], m6.next_var));
                                                }
                                            }
                                        }
                                    },
                                    Err(_) => {},
                                }
                            }
                        },
                        Err(_) => {},
                    }
                },
                Err(_) => {},
            }
        },
        StmtS::Next { variable } => {
            lemma_intern_var(m, variable);
            match intern_var(m, variable) {
                Ok((m1, index)) => {
                    if m1.for_stack.len() > 0 {
                        let frame = m1.for_stack.last();
                        let m2 = BState { for_stack: m1.for_stack.drop_last(), ..m1 };
                        match frame.step {
                            Some(se) => {
                                lemma_lower_expr_ext(m2, se);
                                match lower_expr(m2, se) {
                                    Ok((m3, _)) => {
                                        lemma_extends_trans(m, m2, m3);
                                    },
                                    Err(_) => {},
                                }
                            },
                            None => {},
                        }
                    }
                },
                Err(_) => {},
            }
        },
        StmtS::Sequence { statements } => {
            lemma_lower_stmts_ext(m, statements);
        },
        _ => {},
    }
}

/// As [`lemma_lower_stmt_ext`], for statement sequences.
pub proof fn lemma_lower_stmts_ext(m: BState, ss: Seq<StmtS>)
    requires
        vars_wf(m),
    ensures
        lower_stmts(m, ss) matches Ok(m2) ==> extends(m, m2) && vars_wf(m2) && m2.line_map
            == m.line_map,
        lower_stmts(m, ss) matches Err(er) ==> !(er is UnresolvedJumpTarget),
    decreases ss, 1int,
{
    if ss.len() > 0 {
        lemma_lower_stmt_ext(m, ss.first());
        match lower_stmt(m, ss.first()) {
            Ok(m1) => {
                lemma_lower_stmts_ext(m1, ss.drop_first());
                match lower_stmts(m1, ss.drop_first()) {
                    Ok(m2) => {
                        lemma_extends_trans(m, m1, m2);
                    },
                    Err(_) => {},
                }
            },
            Err(_) => {},
        }
    }
}

/// As [`lemma_lower_stmt_ext`], for one line.
pub proof fn lemma_lower_line_ext(m: BState, ln: LineS)
    requires
        vars_wf(m),
    ensures
        lower_line(m, ln) matches Ok(m2) ==> extends(m, m2) && vars_wf(m2) && m2.line_map
            == m.line_map.push((ln.number, m.hir.len() as int)),
        lower_line(m, ln) matches Err(er) ==> !(er is UnresolvedJumpTarget),
{
    let m1 = BState { line_map: m.line_map.push((ln.number, m.hir.len() as int)), ..m };
    lemma_lower_stmt_ext(m1, ln.stmt);
}

/// A whole build only extends the state: every variable binding and every
/// string-literal index, once allocated, stays what it is for the rest of
/// the build.  Together with [`lemma_variable_identity`],
/// [`lemma_distinct_variables`] and [`lemma_string_literal_identity`]
/// this makes interning stable across a whole program.
pub proof fn lemma_lower_lines_ext(m: BState, lines: Seq<LineS>)
    requires
        vars_wf(m),
    ensures
        lower_lines(m, lines) matches Ok(m2) ==> extends(m, m2) && vars_wf(m2) && (forall|k: u32|
            (#[trigger] assoc_find(m.line_map, k)) is Some ==> assoc_find(m2.line_map, k) is Some)
            && (forall|j: int|
            0 <= j < lines.len() ==> assoc_find(m2.line_map, (#[trigger] lines[j]).number)
                is Some),
        lower_lines(m, lines) matches Err(er) ==> !(er is UnresolvedJumpTarget),
    decreases lines.len(),
{
    if lines.len() > 0 {
        lemma_lower_line_ext(m, lines.first());
        match lower_line(m, lines.first()) {
            Ok(m1) => {
                let entry = (lines.first().number, m.hir.len() as int);
                assert forall|k: u32| (#[trigger] assoc_find(m.line_map, k)) is Some implies
                    assoc_find(m1.line_map, k) is Some by {
                    lemma_assoc_find_push(m.line_map, k, entry);
                }
                assert(assoc_find(m1.line_map, lines.first().number) is Some) by {
                    match assoc_find(m.line_map, lines.first().number) {
                        Some(_) => {
                            lemma_assoc_find_push(m.line_map, lines.first().number, entry);
                        },
                        None => {
                            lemma_assoc_find_push_new(
                                m.line_map,
                                lines.first().number,
                                m.hir.len() as int,
                            );
                        },
                    }
                }
                lemma_lower_lines_ext(m1, lines.drop_first());
                match lower_lines(m1, lines.drop_first()) {
                    Ok(m2) => {
                        lemma_extends_trans(m, m1, m2);
                        assert forall|j: int| 0 <= j < lines.len() implies assoc_find(
                            m2.line_map,
                            (#[trigger] lines[j]).number,
                        ) is Some by {
                            if j == 0 {
                            } else {
                                assert(lines.drop_first()[j - 1] == lines[j]);
                            }
                        }
                    },
                    Err(_) => {},
                }
            },
            Err(_) => {},
        }
    }
}

/// The empty state a build starts from is sound.
pub proof fn lemma_init_state_wf()
    ensures
        vars_wf(init_state()),
        positions_ok(init_state()),
{
}

// ------------------------------------------------------------------
// Recorded positions stay within the instruction stream.
// ------------------------------------------------------------------

/// Every recorded jump position points into the instruction stream.
pub open spec fn jumps_ok(m: BState) -> bool {
    forall|i: int| 0 <= i < m.jumps.len() ==> 0 <= #[trigger] m.jumps[i] < m.hir.len()
}

/// Every line-start index points into (or just past) the instruction
/// stream.
pub open spec fn line_map_ok(m: BState) -> bool {
    forall|i: int| 0 <= i < m.line_map.len() ==> 0 <= #[trigger] (m.line_map[i].1) <= m.hir.len()
}

pub open spec fn positions_ok(m: BState) -> bool {
    jumps_ok(m) && line_map_ok(m)
}

/// Lowering an expression only appends instructions; it never touches the
/// line map or the jump list.
pub proof fn lemma_lower_expr_pos(m: BState, e: ExprS)
    ensures
        lower_expr(m, e) matches Ok(p) ==> p.0.hir.len() >= m.hir.len() && p.0.line_map
            == m.line_map && p.0.jumps == m.jumps,
    decreases e, 0int,
{
    match e.kind {
        ExprKindS::Binary { left, op, right } => {
            lemma_lower_operand_pos(m, *left);
            match lower_operand(m, *left) {
                Ok((m1, _)) => {
                    lemma_lower_operand_pos(m1, *right);
                },
                Err(_) => {},
            }
        },
        _ => {},
    }
}

/// As [`lemma_lower_expr_pos`], for the memo-aware entry point.
pub proof fn lemma_lower_operand_pos(m: BState, e: ExprS)
    ensures
        lower_operand(m, e) matches Ok(p) ==> p.0.hir.len() >= m.hir.len() && p.0.line_map
            == m.line_map && p.0.jumps == m.jumps,
    decreases e, 1int,
{
    match assoc_find(m.memo, e.id) {
        Some(_) => {},
        None => {
            lemma_lower_expr_pos(m, e);
        },
    }
}

/// As [`lemma_lower_expr_pos`], for `PRINT`/`PAUSE` item lists.
pub proof fn lemma_lower_print_items_pos(m: BState, items: Seq<ExprS>)
    ensures
        lower_print_items(m, items) matches Ok(m2) ==> m2.hir.len() >= m.hir.len() && m2.line_map
            == m.line_map && m2.jumps == m.jumps,
    decreases items.len(),
{
    if items.len() > 0 {
        lemma_lower_expr_pos(m, items.first());
        match lower_expr(m, items.first()) {
            Ok((m1, op)) => {
                lemma_lower_print_items_pos(
                    BState { hir: m1.hir.push(Hir::Print { operand: op }), ..m1 },
                    items.drop_first(),
                );
            },
            Err(_) => {},
        }
    }
}

/// Lowering a statement keeps every recorded position inside the
/// instruction stream.
pub proof fn lemma_lower_stmt_pos(m: BState, s: StmtS)
    requires
        positions_ok(m),
    ensures
        lower_stmt(m, s) matches Ok(m2) ==> positions_ok(m2) && m2.hir.len() >= m.hir.len(),
    decreases s, 0int,
{
    match s {
        StmtS::Let { variable, expression } => {
            match intern_var(m, variable) {
                Ok((m1, _)) => {
                    lemma_lower_expr_pos(m1, expression);
                },
                Err(_) => {},
            }
        },
        StmtS::Print { content } => {
            lemma_lower_print_items_pos(m, content);
        },
        StmtS::Pause { content } => {
            lemma_lower_print_items_pos(m, content);
        },
        StmtS::Input { prompt, variable } => {
            match prompt {
                Some(p) => {
                    lemma_lower_expr_pos(m, p);
                },
                None => {},
            }
        },
        StmtS::If { condition, then, else_ } => {
            lemma_lower_expr_pos(m, condition);
            match lower_expr(m, condition) {
                Ok((m1, cond)) => {
                    if m1.next_var != u32::MAX {
                        let neg = Operand::Variable { id: m1.next_var };
                        let m2 = BState { next_var: (m1.next_var + 1) as u32, ..m1 };
                        let m3 = BState {
                            hir: m2.hir.push(Hir::Expression(hir::Expression {
                                left: cond,
                                op: hir::BinaryOperator::Eq,
                                right: Operand::NumberLiteral { value: 0 },
                                dest: neg,
                            })),
                            ..m2
                        };
                        if m3.next_label != u32::MAX {
                            let lbl = m3.next_label;
                            let m4 = BState { next_label: (m3.next_label + 1) as u32, ..m3 };
                            let m5 = BState {
                                hir: m4.hir.push(Hir::If { condition: neg, label: lbl }),
                                ..m4
                            };
                            lemma_lower_stmt_pos(m5, *then);
                            match lower_stmt(m5, *then) {
                                Ok(m6) => {
                                    let m7 = BState {
                                        hir: m6.hir.push(Hir::Label { id: lbl }),
                                        ..m6
                                    };
                                    match else_ {
                                        Some(e) => {
                                            lemma_lower_stmt_pos(m7, *e);
                                        },
                                        None => {},
                                    }
                                },
                                Err(_) => {},
                            }
                        }
                    }
                },
                Err(_) => {},
            }
        },
        StmtS::For { variable, from, to, step } => {
            match intern_var(m, variable) {
                Ok((m1, index)) => {
                    lemma_lower_expr_pos(m1, from);
                    match lower_expr(m1, from) {
                        Ok((m2, from_op)) => {
                            let m3 = BState {
                                hir: m2.hir.push(Hir::Copy { src: from_op, dest: index }),
                                ..m2
                            };
                            if m3.next_label as int + 1 < u32::MAX {
                                let m4 = BState {
                                    next_label: (m3.next_label + 2) as u32,
                                    ..m3
                                };
                                let m5 = BState {
                                    hir: m4.hir.push(Hir::Label { id: m3.next_label }),
                                    ..m4
                                };
                                lemma_lower_expr_pos(m5, to);
                            }
                        },
                        Err(_) => {},
                    }
                },
                Err(_) => {},
            }
        },
        StmtS::Next { variable } => {
            match intern_var(m, variable) {
                Ok((m1, index)) => {
                    if m1.for_stack.len() > 0 {
                        let frame = m1.for_stack.last();
                        let m2 = BState { for_stack: m1.for_stack.drop_last(), ..m1 };
                        match frame.step {
                            Some(se) => {
                                lemma_lower_expr_pos(m2, se);
                            },
                            None => {},
                        }
                    }
                },
                Err(_) => {},
            }
        },
        StmtS::Sequence { statements } => {
            lemma_lower_stmts_pos(m, statements);
        },
        _ => {},
    }
}

/// As [`lemma_lower_stmt_pos`], for statement sequences.
pub proof fn lemma_lower_stmts_pos(m: BState, ss: Seq<StmtS>)
    requires
        positions_ok(m),
    ensures
        lower_stmts(m, ss) matches Ok(m2) ==> positions_ok(m2) && m2.hir.len() >= m.hir.len(),
    decreases ss, 1int,
{
    if ss.len() > 0 {
        lemma_lower_stmt_pos(m, ss.first());
        match lower_stmt(m, ss.first()) {
            Ok(m1) => {
                lemma_lower_stmts_pos(m1, ss.drop_first());
            },
            Err(_) => {},
        }
    }
}

/// As [`lemma_lower_stmt_pos`], for one program line.
pub proof fn lemma_lower_line_pos(m: BState, ln: LineS)
    requires
        positions_ok(m),
    ensures
        lower_line(m, ln) matches Ok(m2) ==> positions_ok(m2) && m2.hir.len() >= m.hir.len(),
{
    let m1 = BState { line_map: m.line_map.push((ln.number, m.hir.len() as int)), ..m };
    assert(positions_ok(m1));
    lemma_lower_stmt_pos(m1, ln.stmt);
}

/// As [`lemma_lower_stmt_pos`], for a whole program.
pub proof fn lemma_lower_lines_pos(m: BState, lines: Seq<LineS>)
    requires
        positions_ok(m),
    ensures
        lower_lines(m, lines) matches Ok(m2) ==> positions_ok(m2) && m2.hir.len() >= m.hir.len(),
    decreases lines.len(),
{
    if lines.len() > 0 {
        lemma_lower_line_pos(m, lines.first());
        match lower_line(m, lines.first()) {
            Ok(m1) => {
                lemma_lower_lines_pos(m1, lines.drop_first());
            },
            Err(_) => {},
        }
    }
}

// ------------------------------------------------------------------
// Unresolved jump targets.
// ------------------------------------------------------------------

/// Shifting line-start indexes changes no keys: a line is findable after a
/// label insertion exactly when it was findable before.
pub proof fn lemma_shift_find(lm: Seq<(u32, int)>, t: int, k: u32)
    ensures
        assoc_find(shift_line_map(lm, t), k) is Some <==> assoc_find(lm, k) is Some,
    decreases lm.len(),
{
    if lm.len() > 0 {
        assert(shift_line_map(lm, t).first().0 == lm.first().0);
        if lm.first().0 != k {
            assert(shift_line_map(lm, t).drop_first() =~= shift_line_map(lm.drop_first(), t));
            lemma_shift_find(lm.drop_first(), t, k);
        }
    }
}

/// Every `UnresolvedJumpTarget` error of the resolution pass names a line
/// number with no entry in the line map; equivalently, a jump whose target
/// line exists never raises one.
pub proof fn lemma_resolve_unresolved(r: RState)
    ensures
        match resolve_jumps(r) {
            Err(BuildError::UnresolvedJumpTarget { line_number }) => assoc_find(
                r.line_map,
                line_number,
            ) is None,
            _ => true,
        },
    decreases r.jumps.len(),
{
    if r.jumps.len() > 0 {
        let og = r.jumps.last();
        let rest = r.jumps.drop_last();
        if !(0 <= og < r.hir.len()) {
            lemma_resolve_unresolved(RState { jumps: rest, ..r });
        } else {
            let target_line = match r.hir[og] {
                Hir::Goto { label } => Some(label),
                Hir::GoSub { label } => Some(label),
                _ => None,
            };
            match target_line {
                None => {
                    lemma_resolve_unresolved(RState { jumps: rest, ..r });
                },
                Some(ln) => match assoc_find(r.line_map, ln) {
                    None => {},
                    Some(t) => {
                        if !(0 <= t <= r.hir.len()) {
                            lemma_resolve_unresolved(RState { jumps: rest, ..r });
                        } else if t >= 1 && r.hir[t - 1] is Label {
                            let label = r.hir[t - 1]->Label_id;
                            let new_hir = r.hir.update(og, rewrite_jump(r.hir[og], label));
                            lemma_resolve_unresolved(RState { hir: new_hir, jumps: rest, ..r });
                        } else if r.next_label == u32::MAX {
                        } else {
                            let label = r.next_label;
                            let hir1 = r.hir.insert(t, Hir::Label { id: label });
                            let og1 = if og >= t {
                                og + 1
                            } else {
                                og
                            };
                            let hir2 = hir1.update(og1, rewrite_jump(r.hir[og], label));
                            let r2 = RState {
                                hir: hir2,
                                line_map: shift_line_map(r.line_map, t),
                                jumps: shift_positions(rest, t),
                                next_label: (r.next_label + 1) as u32,
                            };
                            lemma_resolve_unresolved(r2);
                            match resolve_jumps(r2) {
                                Err(BuildError::UnresolvedJumpTarget { line_number }) => {
                                    lemma_shift_find(r.line_map, t, line_number);
                                },
                                _ => {},
                            }
                        }
                    },
                },
            }
        }
    }
}

/// A `GOTO` or `GOSUB` whose line number has no statement is a fatal build
/// error, and every such error names a line absent from the program: a
/// jump to an existing line — earlier or later in the program — never
/// aborts the build over its target.
pub proof fn lemma_unresolved_jump_names_missing_line(lines: Seq<LineS>)
    ensures
        match build_s(lines) {
            Err(BuildError::UnresolvedJumpTarget { line_number }) => forall|j: int|
                0 <= j < lines.len() ==> (#[trigger] lines[j]).number != line_number,
            _ => true,
        },
{
    lemma_init_state_wf();
    lemma_lower_lines_ext(init_state(), lines);
    match lower_lines(init_state(), lines) {
        Ok(m1) => {
            let r = RState {
                hir: m1.hir,
                line_map: m1.line_map,
                jumps: m1.jumps,
                next_label: m1.next_label,
            };
            lemma_resolve_unresolved(r);
        },
        Err(_) => {},
    }
}

// ------------------------------------------------------------------
// Every jump of a finished build points at a label that exists.
// ------------------------------------------------------------------

/// A control transfer whose operand is a label (or, transiently, a raw
/// line number).
pub open spec fn is_jump(i: Hir) -> bool {
    i is Goto || i is GoSub
}

/// The label (or transient raw line number) a jump names.
pub open spec fn jump_label(i: Hir) -> u32 {
    match i {
        Hir::Goto { label } => label,
        Hir::GoSub { label } => label,
        _ => 0,
    }
}

/// The label id is marked somewhere in the stream.
pub open spec fn label_in(h: Seq<Hir>, l: u32) -> bool {
    exists|j: int| 0 <= j < h.len() && h[j] == (Hir::Label { id: l })
}

/// During a build, every emitted jump either still holds a raw line
/// number — and then its position is on the deferred list — or names a
/// label already present; and the loop-head label of every open `FOR`
/// frame is present.
pub open spec fn stream_wf(m: BState) -> bool {
    (forall|p: int|
        0 <= p < m.hir.len() && is_jump(#[trigger] m.hir[p]) && !m.jumps.contains(p) ==> label_in(
            m.hir,
            jump_label(m.hir[p]),
        )) && (forall|k: int|
        0 <= k < m.for_stack.len() ==> label_in(
            m.hir,
            (#[trigger] m.for_stack[k]).begin_label,
        ))
}

/// A marked label stays marked when the stream grows.
pub proof fn lemma_label_in_push(h: Seq<Hir>, x: Hir, l: u32)
    requires
        label_in(h, l),
    ensures
        label_in(h.push(x), l),
{
    let j = choose|j: int| 0 <= j < h.len() && h[j] == (Hir::Label { id: l });
    assert(h.push(x)[j] == (Hir::Label { id: l }));
}

/// Appending a non-jump instruction keeps the stream well formed.
proof fn lemma_swf_push(m: BState, m2: BState, instr: Hir)
    requires
        stream_wf(m),
        !is_jump(instr),
        m2.hir == m.hir.push(instr),
        m2.jumps == m.jumps,
        m2.for_stack == m.for_stack,
    ensures
        stream_wf(m2),
        forall|l: u32| label_in(m.hir, l) ==> label_in(m2.hir, l),
{
    assert forall|l: u32| label_in(m.hir, l) implies label_in(m2.hir, l) by {
        lemma_label_in_push(m.hir, instr, l);
    }
    assert forall|p: int|
        0 <= p < m2.hir.len() && is_jump(#[trigger] m2.hir[p]) && !m2.jumps.contains(
            p,
        ) implies label_in(m2.hir, jump_label(m2.hir[p])) by {
        if p < m.hir.len() {
            assert(m2.hir[p] == m.hir[p]);
            assert(label_in(m.hir, jump_label(m.hir[p])));
        }
    }
}

/// Appending a jump while recording its position keeps the stream well
/// formed.
proof fn lemma_swf_push_jump(m: BState, m2: BState, instr: Hir)
    requires
        stream_wf(m),
        is_jump(instr),
        m2.hir == m.hir.push(instr),
        m2.jumps == m.jumps.push(m.hir.len() as int),
        m2.for_stack == m.for_stack,
    ensures
        stream_wf(m2),
        forall|l: u32| label_in(m.hir, l) ==> label_in(m2.hir, l),
{
    assert forall|l: u32| label_in(m.hir, l) implies label_in(m2.hir, l) by {
        lemma_label_in_push(m.hir, instr, l);
    }
    assert forall|p: int|
        0 <= p < m2.hir.len() && is_jump(#[trigger] m2.hir[p]) && !m2.jumps.contains(
            p,
        ) implies label_in(m2.hir, jump_label(m2.hir[p])) by {
        if p < m.hir.len() {
            assert(!m.jumps.contains(p)) by {
                if m.jumps.contains(p) {
                    let k = choose|k: int| 0 <= k < m.jumps.len() && m.jumps[k] == p;
                    assert(m2.jumps[k] == p);
                }
            }
            assert(m2.hir[p] == m.hir[p]);
            assert(label_in(m.hir, jump_label(m.hir[p])));
        } else {
            assert(m2.jumps[m.jumps.len() as int] == p);
        }
    }
}

/// Lowering an expression keeps the stream well formed: it emits only
/// three-address operations.
pub proof fn lemma_lower_expr_swf(m: BState, e: ExprS)
    requires
        stream_wf(m),
    ensures
        lower_expr(m, e) matches Ok(p) ==> stream_wf(p.0) && (forall|l: u32|
            label_in(m.hir, l) ==> label_in(p.0.hir, l)) && p.0.for_stack == m.for_stack,
    decreases e, 0int,
{
    match e.kind {
        ExprKindS::Binary { left, op, right } => {
            lemma_lower_operand_swf(m, *left);
            match lower_operand(m, *left) {
                Ok((m1, lop)) => {
                    lemma_lower_operand_swf(m1, *right);
                    match lower_operand(m1, *right) {
                        Ok((m2, rop)) => {
                            if m2.next_var != u32::MAX {
                                let dest = Operand::Variable { id: m2.next_var };
                                let instr = Hir::Expression(hir::Expression {
                                    left: lop,
                                    op: hir_op(op),
                                    right: rop,
                                    dest,
                                });
                                let m3 = BState {
                                    next_var: (m2.next_var + 1) as u32,
                                    hir: m2.hir.push(instr),
                                    memo: assoc_set(m2.memo, e.id, dest),
                                    ..m2
                                };
                                lemma_swf_push(
                                    BState { next_var: m3.next_var, memo: m3.memo, ..m2 },
                                    m3,
                                    instr,
                                );
                            }
                        },
                        Err(_) => {},
                    }
                },
                Err(_) => {},
            }
        },
        _ => {},
    }
}

/// As [`lemma_lower_expr_swf`], for the memo-aware entry point.
pub proof fn lemma_lower_operand_swf(m: BState, e: ExprS)
    requires
        stream_wf(m),
    ensures
        lower_operand(m, e) matches Ok(p) ==> stream_wf(p.0) && (forall|l: u32|
            label_in(m.hir, l) ==> label_in(p.0.hir, l)) && p.0.for_stack == m.for_stack,
    decreases e, 1int,
{
    match assoc_find(m.memo, e.id) {
        Some(_) => {},
        None => {
            lemma_lower_expr_swf(m, e);
        },
    }
}

/// As [`lemma_lower_expr_swf`], for `PRINT`/`PAUSE` item lists.
pub proof fn lemma_lower_print_items_swf(m: BState, items: Seq<ExprS>)
    requires
        stream_wf(m),
    ensures
        lower_print_items(m, items) matches Ok(m2) ==> stream_wf(m2) && (forall|l: u32|
            label_in(m.hir, l) ==> label_in(m2.hir, l)) && m2.for_stack == m.for_stack,
    decreases items.len(),
{
    if items.len() > 0 {
        lemma_lower_expr_swf(m, items.first());
        match lower_expr(m, items.first()) {
            Ok((m1, op)) => {
                let instr = Hir::Print { operand: op };
                let m1p = BState { hir: m1.hir.push(instr), ..m1 };
                lemma_swf_push(m1, m1p, instr);
                lemma_lower_print_items_swf(m1p, items.drop_first());
            },
            Err(_) => {},
        }
    }
}

/// Lowering a statement keeps the stream well formed.
pub proof fn lemma_lower_stmt_swf(m: BState, s: StmtS)
    requires
        stream_wf(m),
    ensures
        lower_stmt(m, s) matches Ok(m2) ==> stream_wf(m2) && (forall|l: u32|
            label_in(m.hir, l) ==> label_in(m2.hir, l)),
    decreases s, 0int,
{
    match s {
        StmtS::Let { variable, expression } => {
            match intern_var(m, variable) {
                Ok((m1, dest)) => {
                    lemma_lower_expr_swf(m1, expression);
                    match lower_expr(m1, expression) {
                        Ok((m2, src)) => {
                            let instr = Hir::Copy { src, dest };
                            lemma_swf_push(m2, BState { hir: m2.hir.push(instr), ..m2 }, instr);
                        },
                        Err(_) => {},
                    }
                },
                Err(_) => {},
            }
        },
        StmtS::Print { content } => {
            lemma_lower_print_items_swf(m, content);
        },
        StmtS::Pause { content } => {
            lemma_lower_print_items_swf(m, content);
        },
        StmtS::Input { prompt, variable } => {
            let pr = match prompt {
                Some(p) => {
                    lemma_lower_expr_swf(m, p);
                    match lower_expr(m, p) {
                        Ok((m1, op)) => {
                            let instr = Hir::Print { operand: op };
                            let m1p = BState { hir: m1.hir.push(instr), ..m1 };
                            lemma_swf_push(m1, m1p, instr);
                            Some(m1p)
                        },
                        Err(_) => None,
                    }
                },
                None => Some(m),
            };
            match pr {
                Some(m1) => {
                    match intern_var(m1, variable) {
                        Ok((m2, dest)) => {
                            let instr = Hir::Input { dest };
                            lemma_swf_push(m2, BState { hir: m2.hir.push(instr), ..m2 }, instr);
                        },
                        Err(_) => {},
                    }
                },
                None => {},
            }
        },
        StmtS::Goto { line_number } => {
            let instr = Hir::Goto { label: line_number };
            lemma_swf_push_jump(
                m,
                BState {
                    jumps: m.jumps.push(m.hir.len() as int),
                    hir: m.hir.push(instr),
                    ..m
                },
                instr,
            );
        },
        StmtS::GoSub { line_number } => {
            let instr = Hir::GoSub { label: line_number };
            lemma_swf_push_jump(
                m,
                BState {
                    jumps: m.jumps.push(m.hir.len() as int),
                    hir: m.hir.push(instr),
                    ..m
                },
                instr,
            );
        },
        StmtS::Return => {
            lemma_swf_push(m, BState { hir: m.hir.push(Hir::Return), ..m }, Hir::Return);
        },
        StmtS::If { condition, then, else_ } => {
            lemma_lower_expr_swf(m, condition);
            match lower_expr(m, condition) {
                Ok((m1, cond)) => {
                    if m1.next_var != u32::MAX {
                        let neg = Operand::Variable { id: m1.next_var };
                        let m2 = BState { next_var: (m1.next_var + 1) as u32, ..m1 };
                        let i1 = Hir::Expression(hir::Expression {
                            left: cond,
                            op: hir::BinaryOperator::Eq,
                            right: Operand::NumberLiteral { value: 0 },
                            dest: neg,
                        });
                        let m3 = BState { hir: m2.hir.push(i1), ..m2 };
                        lemma_swf_push(m2, m3, i1);
                        if m3.next_label != u32::MAX {
                            let lbl = m3.next_label;
                            let m4 = BState { next_label: (m3.next_label + 1) as u32, ..m3 };
                            let i2 = Hir::If { condition: neg, label: lbl };
                            let m5 = BState { hir: m4.hir.push(i2), ..m4 };
                            lemma_swf_push(m4, m5, i2);
                            lemma_lower_stmt_swf(m5, *then);
                            match lower_stmt(m5, *then) {
                                Ok(m6) => {
                                    let i3 = Hir::Label { id: lbl };
                                    let m7 = BState { hir: m6.hir.push(i3), ..m6 };
                                    lemma_swf_push(m6, m7, i3);
                                    match else_ {
                                        Some(e) => {
                                            lemma_lower_stmt_swf(m7, *e);
                                        },
                                        None => {},
                                    }
                                },
                                Err(_) => {},
                            }
                        }
                    }
                },
                Err(_) => {},
            }
        },
        StmtS::For { variable, from, to, step } => {
            match intern_var(m, variable) {
                Ok((m1, index)) => {
                    lemma_lower_expr_swf(m1, from);
                    match lower_expr(m1, from) {
                        Ok((m2, from_op)) => {
                            let i1 = Hir::Copy { src: from_op, dest: index };
                            let m3 = BState { hir: m2.hir.push(i1), ..m2 };
                            lemma_swf_push(m2, m3, i1);
                            if m3.next_label as int + 1 < u32::MAX {
                                let begin = m3.next_label;
                                let end = (m3.next_label + 1) as u32;
                                let m4 = BState { next_label: (m3.next_label + 2) as u32, ..m3 };
                                let i2 = Hir::Label { id: begin };
                                let m5 = BState { hir: m4.hir.push(i2), ..m4 };
                                lemma_swf_push(m4, m5, i2);
                                assert(m5.hir[m5.hir.len() - 1] == (Hir::Label { id: begin }));
                                assert(label_in(m5.hir, begin));
                                lemma_lower_expr_swf(m5, to);
                                match lower_expr(m5, to) {
                                    Ok((m6, to_op)) => {
                                        if m6.next_var != u32::MAX {
                                            let cmp = Operand::Variable { id: m6.next_var };
                                            let m7 = BState {
                                                next_var: (m6.next_var + 1) as u32,
                                                ..m6
                                            };
                                            let i3 = Hir::Expression(hir::Expression {
                                                left: index,
                                                op: hir::BinaryOperator::Ge,
                                                right: to_op,
                                                dest: cmp,
                                            });
                                            let m8 = BState { hir: m7.hir.push(i3), ..m7 };
                                            lemma_swf_push(m7, m8, i3);
                                            let i4 = Hir::If { condition: cmp, label: end };
                                            let m9 = BState { hir: m8.hir.push(i4), ..m8 };
                                            lemma_swf_push(m8, m9, i4);
                                            let frame = ForFrameS {
                                                begin_label: begin,
                                                end_label: end,
                                                step,
                                            };
                                            let m10 = BState {
                                                for_stack: m9.for_stack.push(frame),
                                                ..m9
                                            };
                                            assert(label_in(m9.hir, begin));
                                            assert forall|k: int|
                                                0 <= k < m10.for_stack.len() implies label_in(
                                                m10.hir,
                                                (#[trigger] m10.for_stack[k]).begin_label,
                                            ) by {
                                                if k < m9.for_stack.len() {
                                                    assert(m10.for_stack[k] == m9.for_stack[k]);
                                                }
                                            }
                                        }
                                    },
                                    Err(_) => {},
                                }
                            }
                        },
                        Err(_) => {},
                    }
                },
                Err(_) => {},
            }
        },
        StmtS::Next { variable } => {
            match intern_var(m, variable) {
                Ok((m1, index)) => {
                    if m1.for_stack.len() > 0 {
                        let frame = m1.for_stack.last();
                        assert(label_in(m1.hir, frame.begin_label));
                        let m2 = BState { for_stack: m1.for_stack.drop_last(), ..m1 };
                        let stepped = match frame.step {
                            Some(se) => {
                                lemma_lower_expr_swf(m2, se);
                                match lower_expr(m2, se) {
                                    Ok((m3, sop)) => {
                                        let i1 = Hir::Expression(hir::Expression {
                                            left: index,
                                            op: hir::BinaryOperator::Add,
                                            right: sop,
                                            dest: index,
                                        });
                                        let m3p = BState { hir: m3.hir.push(i1), ..m3 };
                                        lemma_swf_push(m3, m3p, i1);
                                        Some(m3p)
                                    },
                                    Err(_) => None,
                                }
                            },
                            None => {
                                let i1 = Hir::Expression(hir::Expression {
                                    left: index,
                                    op: hir::BinaryOperator::Add,
                                    right: Operand::NumberLiteral { value: 1 },
                                    dest: index,
                                });
                                let m2p = BState { hir: m2.hir.push(i1), ..m2 };
                                lemma_swf_push(m2, m2p, i1);
                                Some(m2p)
                            },
                        };
                        match stepped {
                            Some(m4) => {
                                assert(label_in(m4.hir, frame.begin_label));
                                let i2 = Hir::Goto { label: frame.begin_label };
                                let m5 = BState { hir: m4.hir.push(i2), ..m4 };
                                assert(stream_wf(m5)) by {
                                    lemma_label_in_push(m4.hir, i2, frame.begin_label);
                                    assert forall|l: u32| label_in(m4.hir, l) implies label_in(
                                        m5.hir,
                                        l,
                                    ) by {
                                        lemma_label_in_push(m4.hir, i2, l);
                                    }
                                    assert forall|p: int|
                                        0 <= p < m5.hir.len() && is_jump(#[trigger] m5.hir[p])
                                            && !m5.jumps.contains(p) implies label_in(
                                        m5.hir,
                                        jump_label(m5.hir[p]),
                                    ) by {
                                        if p < m4.hir.len() {
                                            assert(m5.hir[p] == m4.hir[p]);
                                            assert(label_in(m4.hir, jump_label(m4.hir[p])));
                                            lemma_label_in_push(
                                                m4.hir,
                                                i2,
                                                jump_label(m4.hir[p]),
                                            );
                                        } else {
                                            assert(label_in(m5.hir, frame.begin_label));
                                        }
                                    }
                                }
                                assert forall|l: u32| label_in(m4.hir, l) implies label_in(
                                    m5.hir,
                                    l,
                                ) by {
                                    lemma_label_in_push(m4.hir, i2, l);
                                }
                                let i3 = Hir::Label { id: frame.end_label };
                                let m6 = BState { hir: m5.hir.push(i3), ..m5 };
                                lemma_swf_push(m5, m6, i3);
                            },
                            None => {},
                        }
                    }
                },
                Err(_) => {},
            }
        },
        StmtS::Sequence { statements } => {
            lemma_lower_stmts_swf(m, statements);
        },
        _ => {},
    }
}

/// As [`lemma_lower_stmt_swf`], for statement sequences.
pub proof fn lemma_lower_stmts_swf(m: BState, ss: Seq<StmtS>)
    requires
        stream_wf(m),
    ensures
        lower_stmts(m, ss) matches Ok(m2) ==> stream_wf(m2) && (forall|l: u32|
            label_in(m.hir, l) ==> label_in(m2.hir, l)),
    decreases ss, 1int,
{
    if ss.len() > 0 {
        lemma_lower_stmt_swf(m, ss.first());
        match lower_stmt(m, ss.first()) {
            Ok(m1) => {
                lemma_lower_stmts_swf(m1, ss.drop_first());
            },
            Err(_) => {},
        }
    }
}

/// As [`lemma_lower_stmt_swf`], for a whole program.
pub proof fn lemma_lower_lines_swf(m: BState, lines: Seq<LineS>)
    requires
        stream_wf(m),
    ensures
        lower_lines(m, lines) matches Ok(m2) ==> stream_wf(m2),
    decreases lines.len(),
{
    if lines.len() > 0 {
        let m1 = BState {
            line_map: m.line_map.push((lines.first().number, m.hir.len() as int)),
            ..m
        };
        lemma_lower_stmt_swf(m1, lines.first().stmt);
        match lower_line(m, lines.first()) {
            Ok(m2) => {
                lemma_lower_lines_swf(m2, lines.drop_first());
            },
            Err(_) => {},
        }
    }
}

/// The same well-formedness, phrased over the resolution pass's state.
pub open spec fn rstream_wf(h: Seq<Hir>, jumps: Seq<int>) -> bool {
    forall|p: int|
        0 <= p < h.len() && is_jump(#[trigger] h[p]) && !jumps.contains(p) ==> label_in(
            h,
            jump_label(h[p]),
        )
}

/// Positions move together: a recorded position shifted by an insertion
/// is on the shifted list exactly when the original was on the original
/// list.
proof fn lemma_shift_contains(ps: Seq<int>, t: int, p: int)
    requires
        ps.contains(p),
    ensures
        shift_positions(ps, t).contains(
            if p >= t {
                p + 1
            } else {
                p
            },
        ),
{
    let k = choose|k: int| 0 <= k < ps.len() && ps[k] == p;
    assert(shift_positions(ps, t)[k] == if p >= t {
        p + 1
    } else {
        p
    });
}

/// Resolution preserves well-formedness step by step, and so leaves every
/// jump of its final stream pointing at a present label.
pub proof fn lemma_resolve_swf(r: RState)
    requires
        rstream_wf(r.hir, r.jumps),
        forall|i: int| 0 <= i < r.line_map.len() ==> 0 <= #[trigger] (r.line_map[i].1) <= r.hir.len(),
    ensures
        resolve_jumps(r) matches Ok(p) ==> (forall|q: int|
            0 <= q < p.0.len() && is_jump(#[trigger] p.0[q]) ==> label_in(p.0, jump_label(p.0[q]))),
    decreases r.jumps.len(),
{
    if r.jumps.len() == 0 {
    } else {
        let og = r.jumps.last();
        let rest = r.jumps.drop_last();
        assert(r.jumps.contains(og)) by {
            assert(r.jumps[r.jumps.len() - 1] == og);
        }
        if !(0 <= og < r.hir.len()) {
            let r2 = RState { jumps: rest, ..r };
            assert(rstream_wf(r2.hir, r2.jumps)) by {
                assert forall|p: int|
                    0 <= p < r2.hir.len() && is_jump(#[trigger] r2.hir[p]) && !r2.jumps.contains(
                        p,
                    ) implies label_in(r2.hir, jump_label(r2.hir[p])) by {
                    assert(!r.jumps.contains(p)) by {
                        if r.jumps.contains(p) {
                            let k = choose|k: int| 0 <= k < r.jumps.len() && r.jumps[k] == p;
                            assert(k == r.jumps.len() - 1 || rest[k] == p);
                        }
                    }
                }
            }
            lemma_resolve_swf(r2);
        } else {
            let target_line = match r.hir[og] {
                Hir::Goto { label } => Some(label),
                Hir::GoSub { label } => Some(label),
                _ => None,
            };
            match target_line {
                None => {
                    let r2 = RState { jumps: rest, ..r };
                    assert(rstream_wf(r2.hir, r2.jumps)) by {
                        assert forall|p: int|
                            0 <= p < r2.hir.len() && is_jump(#[trigger] r2.hir[p])
                                && !r2.jumps.contains(p) implies label_in(
                            r2.hir,
                            jump_label(r2.hir[p]),
                        ) by {
                            assert(p != og);
                            assert(!r.jumps.contains(p)) by {
                                if r.jumps.contains(p) {
                                    let k = choose|k: int|
                                        0 <= k < r.jumps.len() && r.jumps[k] == p;
                                    assert(k == r.jumps.len() - 1 || rest[k] == p);
                                }
                            }
                        }
                    }
                    lemma_resolve_swf(r2);
                },
                Some(ln) => match assoc_find(r.line_map, ln) {
                    None => {},
                    Some(t) => {
                        if !(0 <= t <= r.hir.len()) {
                            // Dead: a found line-start index is a bounded
                            // entry of the line map.
                            lemma_assoc_find_exists(r.line_map, ln);
                            assert(false);
                        } else if t >= 1 && r.hir[t - 1] is Label {
                            let label = r.hir[t - 1]->Label_id;
                            let new_hir = r.hir.update(og, rewrite_jump(r.hir[og], label));
                            let r2 = RState { hir: new_hir, jumps: rest, ..r };
                            assert(new_hir[t - 1] == (Hir::Label { id: label }));
                            assert(rstream_wf(r2.hir, r2.jumps)) by {
                                assert forall|p: int|
                                    0 <= p < r2.hir.len() && is_jump(#[trigger] r2.hir[p])
                                        && !r2.jumps.contains(p) implies label_in(
                                    r2.hir,
                                    jump_label(r2.hir[p]),
                                ) by {
                                    if p == og {
                                        assert(label_in(r2.hir, label));
                                    } else {
                                        assert(r2.hir[p] == r.hir[p]);
                                        assert(!r.jumps.contains(p)) by {
                                            if r.jumps.contains(p) {
                                                let k = choose|k: int|
                                                    0 <= k < r.jumps.len() && r.jumps[k] == p;
                                                assert(k == r.jumps.len() - 1 || rest[k] == p);
                                            }
                                        }
                                        assert(label_in(r.hir, jump_label(r.hir[p])));
                                        let j = choose|j: int|
                                            0 <= j < r.hir.len() && r.hir[j] == (Hir::Label {
                                                id: jump_label(r.hir[p]),
                                            });
                                        assert(j != og);
                                        assert(r2.hir[j] == r.hir[j]);
                                    }
                                }
                            }
                            lemma_resolve_swf(r2);
                        } else if r.next_label == u32::MAX {
                        } else {
                            let label = r.next_label;
                            let hir1 = r.hir.insert(t, Hir::Label { id: label });
                            let og1 = if og >= t {
                                og + 1
                            } else {
                                og
                            };
                            let hir2 = hir1.update(og1, rewrite_jump(r.hir[og], label));
                            let r2 = RState {
                                hir: hir2,
                                line_map: shift_line_map(r.line_map, t),
                                jumps: shift_positions(rest, t),
                                next_label: (r.next_label + 1) as u32,
                            };
                            assert(og1 != t);
                            assert(hir1[t] == (Hir::Label { id: label }));
                            assert(hir2[t] == (Hir::Label { id: label }));
                            assert(forall|q: int|
                                0 <= q < t ==> hir1[q] == r.hir[q] && #[trigger] hir2.len() >= 0);
                            assert forall|i: int|
                                0 <= i < r2.line_map.len() implies 0 <= #[trigger] (
                            r2.line_map[i].1) <= r2.hir.len() by {
                                assert(r2.line_map[i] == (if r.line_map[i].1 >= t {
                                    (r.line_map[i].0, r.line_map[i].1 + 1)
                                } else {
                                    r.line_map[i]
                                }));
                            }
                            assert(rstream_wf(r2.hir, r2.jumps)) by {
                                assert forall|p: int|
                                    0 <= p < r2.hir.len() && is_jump(#[trigger] r2.hir[p])
                                        && !r2.jumps.contains(p) implies label_in(
                                    r2.hir,
                                    jump_label(r2.hir[p]),
                                ) by {
                                    if p == og1 {
                                        assert(r2.hir[p] == rewrite_jump(r.hir[og], label));
                                        assert(label_in(r2.hir, label));
                                    } else if p == t {
                                        assert(r2.hir[t] == (Hir::Label { id: label }));
                                    } else {
                                        let q = if p > t {
                                            p - 1
                                        } else {
                                            p
                                        };
                                        assert(hir1[p] == r.hir[q]);
                                        assert(r2.hir[p] == r.hir[q]);
                                        assert(q != og);
                                        assert(!rest.contains(q)) by {
                                            if rest.contains(q) {
                                                lemma_shift_contains(rest, t, q);
                                            }
                                        }
                                        assert(!r.jumps.contains(q)) by {
                                            if r.jumps.contains(q) {
                                                let k = choose|k: int|
                                                    0 <= k < r.jumps.len() && r.jumps[k] == q;
                                                assert(k == r.jumps.len() - 1 || rest[k] == q);
                                            }
                                        }
                                        assert(label_in(r.hir, jump_label(r.hir[q])));
                                        let j = choose|j: int|
                                            0 <= j < r.hir.len() && r.hir[j] == (Hir::Label {
                                                id: jump_label(r.hir[q]),
                                            });
                                        let j2 = if j >= t {
                                            j + 1
                                        } else {
                                            j
                                        };
                                        assert(hir1[j2] == r.hir[j]);
                                        assert(j != og);
                                        assert(j2 != og1);
                                        assert(r2.hir[j2] == r.hir[j]);
                                    }
                                }
                            }
                            lemma_resolve_swf(r2);
                        }
                    },
                },
            }
        }
    }
}

/// Every `GOTO` and `GOSUB` of a finished build names a label that is
/// present in the instruction stream: the deferred second pass leaves no
/// raw line number behind, and never erases a label a jump relies on.
pub proof fn lemma_jumps_resolve_to_labels(lines: Seq<LineS>)
    ensures
        build_s(lines) matches Ok(pr) ==> (forall|q: int|
            0 <= q < pr.0.len() && is_jump(#[trigger] pr.0[q]) ==> label_in(
                pr.0,
                jump_label(pr.0[q]),
            )),
{
    lemma_init_state_wf();
    lemma_lower_lines_swf(init_state(), lines);
    lemma_lower_lines_pos(init_state(), lines);
    match lower_lines(init_state(), lines) {
        Ok(m1) => {
            let r = RState {
                hir: m1.hir,
                line_map: m1.line_map,
                jumps: m1.jumps,
                next_label: m1.next_label,
            };
            lemma_resolve_swf(r);
        },
        Err(_) => {},
    }
}

/// The same jump instruction, now naming a resolved label id.
pub open spec fn rewrite_jump(i: Hir, label: u32) -> Hir {
    match i {
        Hir::Goto { label: _ } => Hir::Goto { label },
        Hir::GoSub { label: _ } => Hir::GoSub { label },
        _ => i,
    }
}

// ------------------------------------------------------------------
// The whole build.
// ------------------------------------------------------------------

/// What one whole build returns: the finished instruction stream and the
/// string literal table, or the single fatal error that aborted the build.
pub open spec fn build_s(lines: Seq<LineS>) -> Result<(Seq<Hir>, Seq<Seq<char>>), BuildError> {
    match lower_lines(init_state(), lines) {
        Ok(m) => match resolve_jumps(
            RState {
                hir: m.hir,
                line_map: m.line_map,
                jumps: m.jumps,
                next_label: m.next_label,
            },
        ) {
            Ok((h, _)) => Ok((h, m.strs)),
            Err(e) => Err(e),
        },
        Err(e) => Err(e),
    }
}

} // verus!
