//! The executable HIR builder.
//!
//! One [`HirBuilder`] owns one build: its variable, memo, string and line
//! tables, its `FOR` stack and deferred jump list, and its id counters.
//! Every method is proved to transform the builder state exactly as the
//! corresponding function of [`crate::lowering`] says.

use vstd::prelude::*;
use crate::ast;
use crate::error::BuildError;
use crate::hir;
use crate::hir::{Hir, Operand};
use crate::lowering::{
    assoc_find, assoc_set, str_index, ForFrameS, BState, init_state, intern_var, intern_str,
    hir_op, lower_expr, lower_operand, lower_print_items, lower_stmt, lower_stmts, lower_line,
    lower_lines, RState, shift_positions, shift_line_map, resolve_jumps, rewrite_jump, build_s,
    positions_ok, lemma_lower_line_pos, lemma_assoc_set_absent_general,
};

verus! {

broadcast use vstd::std_specs::vec::group_vec_axioms, vstd::seq::group_seq_axioms;

/// An open `FOR` loop, waiting for its `NEXT`.
struct ForInfo {
    begin_label: u32,
    end_label: u32,
    step: Option<ast::Expression>,
}

/// Walks a program's AST once, in ascending line-number order, emitting a
/// flat instruction list over interned operands; a deferred second pass
/// rewrites raw line-number jump targets into instruction-stream labels.
pub struct HirBuilder {
    program: ast::Program,
    hir: Vec<Hir>,
    var_map: Vec<(String, Operand)>,
    expr_map: Vec<(u32, Operand)>,
    str_literals: Vec<String>,
    line_map: Vec<(u32, usize)>,
    for_stack: Vec<ForInfo>,
    goto_list: Vec<usize>,
    next_variable: u32,
    next_label: u32,
}

// ------------------------------------------------------------------
// Views of the builder's tables.
// ------------------------------------------------------------------

pub open spec fn vars_v(v: Seq<(String, Operand)>) -> Seq<(Seq<char>, Operand)> {
    v.map_values(|p: (String, Operand)| (p.0@, p.1))
}

pub open spec fn lm_v(v: Seq<(u32, usize)>) -> Seq<(u32, int)> {
    v.map_values(|p: (u32, usize)| (p.0, p.1 as int))
}

pub open spec fn jumps_v(v: Seq<usize>) -> Seq<int> {
    v.map_values(|p: usize| p as int)
}

spec fn for_info_v(f: ForInfo) -> ForFrameS {
    ForFrameS { begin_label: f.begin_label, end_label: f.end_label, step: f.step.deep_view() }
}

spec fn fs_v(v: Seq<ForInfo>) -> Seq<ForFrameS> {
    v.map_values(|f: ForInfo| for_info_v(f))
}

impl HirBuilder {
    /// The builder's state, as the lowering model sees it.
    pub closed spec fn state(&self) -> BState {
        BState {
            hir: self.hir@,
            vars: vars_v(self.var_map@),
            memo: self.expr_map@,
            strs: self.str_literals.deep_view(),
            line_map: lm_v(self.line_map@),
            for_stack: fs_v(self.for_stack@),
            jumps: jumps_v(self.goto_list@),
            next_var: self.next_variable,
            next_label: self.next_label,
        }
    }

    /// The program this builder was made for.
    pub closed spec fn program_view(&self) -> Seq<ast::LineS> {
        self.program.deep_view()
    }

    /// A fresh builder for one program.
    pub fn new(program: ast::Program) -> (r: HirBuilder)
        ensures
            r.state() == init_state(),
            r.program_view() == program.deep_view(),
    {
        let r = HirBuilder {
            program,
            hir: Vec::new(),
            var_map: Vec::new(),
            expr_map: Vec::new(),
            str_literals: Vec::new(),
            line_map: Vec::new(),
            for_stack: Vec::new(),
            goto_list: Vec::new(),
            next_variable: 0,
            next_label: 0,
        };
        proof {
            assert(r.state().hir =~= init_state().hir);
            assert(vars_v(r.var_map@) =~= init_state().vars);
            assert(r.state().memo =~= init_state().memo);
            assert(r.state().strs =~= init_state().strs);
            assert(lm_v(r.line_map@) =~= init_state().line_map);
            assert(fs_v(r.for_stack@) =~= init_state().for_stack);
            assert(jumps_v(r.goto_list@) =~= init_state().jumps);
        }
        r
    }

    /// Allocate a fresh variable id.
    fn get_next_variable_id(&mut self) -> (r: Result<u32, BuildError>)
        ensures
            old(self).state().next_var == u32::MAX ==> r == Err::<u32, BuildError>(
                BuildError::CapacityExceeded,
            ),
            old(self).state().next_var != u32::MAX ==> r == Ok::<u32, BuildError>(
                old(self).state().next_var,
            ) && final(self).state() == (BState {
                next_var: (old(self).state().next_var + 1) as u32,
                ..old(self).state()
            }),
    {
        if self.next_variable == u32::MAX {
            Err(BuildError::CapacityExceeded)
        } else {
            let id = self.next_variable;
            self.next_variable = self.next_variable + 1;
            Ok(id)
        }
    }

    /// Allocate a fresh label id.
    fn get_next_label(&mut self) -> (r: Result<u32, BuildError>)
        ensures
            old(self).state().next_label == u32::MAX ==> r == Err::<u32, BuildError>(
                BuildError::CapacityExceeded,
            ),
            old(self).state().next_label != u32::MAX ==> r == Ok::<u32, BuildError>(
                old(self).state().next_label,
            ) && final(self).state() == (BState {
                next_label: (old(self).state().next_label + 1) as u32,
                ..old(self).state()
            }),
    {
        if self.next_label == u32::MAX {
            Err(BuildError::CapacityExceeded)
        } else {
            let label = self.next_label;
            self.next_label = self.next_label + 1;
            Ok(label)
        }
    }

    /// Intern one string literal, deduplicated on exact text equality in
    /// order of first occurrence.
    fn insert_str_literal(&mut self, s: &String) -> (r: Result<i32, BuildError>)
        ensures
            step_val_ok(intern_str(old(self).state(), s@), final(self).state(), r),
    {
        let ghost m = self.state();
        let mut i: usize = 0;
        while i < self.str_literals.len()
            invariant
                i <= self.str_literals.len(),
                m == old(self).state(),
                self.state() == m,
                m.strs.len() == self.str_literals@.len(),
                forall|k: int| 0 <= k < i ==> m.strs[k] != s@,
            decreases self.str_literals.len() - i,
        {
            if self.str_literals[i].eq(s) {
                proof {
                    lemma_str_index_at(m.strs, s@, i as int);
                }
                if i > (i32::MAX as usize) {
                    return Err(BuildError::CapacityExceeded);
                }
                return Ok(i as i32);
            }
            i = i + 1;
        }
        proof {
            lemma_str_index_at(m.strs, s@, m.strs.len() as int);
        }
        if self.str_literals.len() > (i32::MAX as usize) {
            return Err(BuildError::CapacityExceeded);
        }
        let idx = self.str_literals.len();
        self.str_literals.push(s.clone());
        proof {
            assert(self.str_literals.deep_view() =~= m.strs.push(s@));
            assert(self.state() == BState { strs: m.strs.push(s@), ..m });
        }
        Ok(idx as i32)
    }

    /// First operand bound in the memo table for a node id, if any.
    fn find_memo(&self, key: u32) -> (r: Option<Operand>)
        ensures
            r == assoc_find(self.state().memo, key),
    {
        let mut i: usize = 0;
        while i < self.expr_map.len()
            invariant
                i <= self.expr_map.len(),
                forall|k: int| 0 <= k < i ==> self.expr_map@[k].0 != key,
            decreases self.expr_map.len() - i,
        {
            if self.expr_map[i].0 == key {
                proof {
                    lemma_assoc_find_at(self.state().memo, key, i as int);
                }
                return Some(self.expr_map[i].1);
            }
            i = i + 1;
        }
        proof {
            lemma_assoc_find_at(self.state().memo, key, self.expr_map@.len() as int);
        }
        None
    }

    /// Bind a node id to its operand in the memo table.
    fn set_memo(&mut self, key: u32, op: Operand)
        ensures
            final(self).state() == (BState {
                memo: assoc_set(old(self).state().memo, key, op),
                ..old(self).state()
            }),
    {
        let ghost m = self.state();
        let mut i: usize = 0;
        while i < self.expr_map.len()
            invariant
                i <= self.expr_map.len(),
                m == old(self).state(),
                self.state() == m,
                forall|k: int| 0 <= k < i ==> self.expr_map@[k].0 != key,
            decreases self.expr_map.len() - i,
        {
            if self.expr_map[i].0 == key {
                proof {
                    lemma_assoc_set_at(m.memo, key, op, i as int);
                }
                self.expr_map.set(i, (key, op));
                proof {
                    assert(m == old(self).state());
                    assert(self.expr_map@ == m.memo.update(i as int, (key, op)));
                    assert(self.state().memo == assoc_set(m.memo, key, op));
                    assert(self.state() == (BState { memo: assoc_set(m.memo, key, op), ..m }));
                }
                return ;
            }
            i = i + 1;
        }
        proof {
            lemma_assoc_find_at(m.memo, key, m.memo.len() as int);
            lemma_assoc_set_absent_general(m.memo, key, op);
        }
        self.expr_map.push((key, op));
    }

    /// A number literal is its own operand.
    fn visit_number_literal(&mut self, value: i32) -> (r: Operand)
        ensures
            final(self).state() == old(self).state(),
            r == (Operand::NumberLiteral { value }),
    {
        Operand::NumberLiteral { value }
    }

    /// A string literal is interned and referred to by table index.
    fn visit_string_literal(&mut self, content: &String) -> (r: Result<Operand, BuildError>)
        ensures
            step_val_ok(
                match intern_str(old(self).state(), content@) {
                    Ok((m1, idx)) => Ok::<(BState, Operand), BuildError>(
                        (m1, Operand::IndirectNumberLiteral { value: idx }),
                    ),
                    Err(e) => Err(e),
                },
                final(self).state(),
                r,
            ),
    {
        match self.insert_str_literal(content) {
            Ok(idx) => Ok(Operand::IndirectNumberLiteral { value: idx }),
            Err(e) => Err(e),
        }
    }

    /// Resolve a variable name to its operand: the first reference
    /// allocates a slot, every later one reuses it.
    fn visit_variable(&mut self, variable: &String) -> (r: Result<Operand, BuildError>)
        ensures
            step_val_ok(intern_var(old(self).state(), variable@), final(self).state(), r),
    {
        let ghost m = self.state();
        let mut i: usize = 0;
        while i < self.var_map.len()
            invariant
                i <= self.var_map.len(),
                m == old(self).state(),
                self.state() == m,
                m.vars.len() == self.var_map@.len(),
                forall|k: int| 0 <= k < i ==> m.vars[k].0 != variable@,
            decreases self.var_map.len() - i,
        {
            if self.var_map[i].0.eq(variable) {
                proof {
                    assert(m.vars[i as int].0 == self.var_map@[i as int].0@);
                    lemma_assoc_find_at(m.vars, variable@, i as int);
                }
                return Ok(self.var_map[i].1);
            }
            proof {
                assert(m.vars[i as int].0 == self.var_map@[i as int].0@);
            }
            i = i + 1;
        }
        proof {
            lemma_assoc_find_at(m.vars, variable@, m.vars.len() as int);
        }
        let id = match self.get_next_variable_id() {
            Ok(id) => id,
            Err(e) => {
                return Err(e);
            },
        };
        let name_len = variable.as_str().unicode_len();
        let is_string = name_len > 0 && variable.as_str().get_char(name_len - 1) == '$';
        let op = if is_string {
            Operand::IndirectVariable { id }
        } else {
            Operand::Variable { id }
        };
        proof {
            assert(is_string == crate::lowering::is_string_name(variable@));
            lemma_assoc_set_absent_general(m.vars, variable@, op);
        }
        self.var_map.push((variable.clone(), op));
        proof {
            assert(vars_v(self.var_map@) =~= m.vars.push((variable@, op)));
        }
        Ok(op)
    }

    /// Lower an operand position of a binary node: the memo table is
    /// consulted first, and the node's operand is recorded for reuse.
    fn memoized_operand(&mut self, e: &ast::Expression) -> (r: Result<Operand, BuildError>)
        ensures
            step_val_ok(lower_operand(old(self).state(), e.deep_view()), final(self).state(), r),
        decreases *e, 2int,
    {
        match self.find_memo(e.id) {
            Some(op) => Ok(op),
            None => match self.visit_expression(e) {
                Ok(op) => {
                    self.set_memo(e.id, op);
                    Ok(op)
                },
                Err(err) => Err(err),
            },
        }
    }

    /// Lower one expression node.
    fn visit_expression(&mut self, e: &ast::Expression) -> (r: Result<Operand, BuildError>)
        ensures
            step_val_ok(lower_expr(old(self).state(), e.deep_view()), final(self).state(), r),
        decreases *e, 1int,
    {
        match &e.kind {
            ast::ExpressionKind::NumberLiteral(n) => Ok(self.visit_number_literal(*n)),
            ast::ExpressionKind::StringLiteral(s) => self.visit_string_literal(s),
            ast::ExpressionKind::Variable(s) => self.visit_variable(s),
            ast::ExpressionKind::Binary { .. } => self.visit_binary_op(e),
        }
    }

    /// Lower a binary node: both operands (memo table consulted first), a
    /// fresh destination, one `Expression` instruction, and the node's
    /// mapping recorded for reuse.
    fn visit_binary_op(&mut self, e: &ast::Expression) -> (r: Result<Operand, BuildError>)
        requires
            (e.kind is Binary),
        ensures
            step_val_ok(lower_expr(old(self).state(), e.deep_view()), final(self).state(), r),
        decreases *e, 0int,
    {
        match &e.kind {
            ast::ExpressionKind::Binary { left, op, right } => {
                let lop = match self.memoized_operand(left) {
                    Ok(o) => o,
                    Err(err) => {
                        return Err(err);
                    },
                };
                let rop = match self.memoized_operand(right) {
                    Ok(o) => o,
                    Err(err) => {
                        return Err(err);
                    },
                };
                let dest_id = match self.get_next_variable_id() {
                    Ok(id) => id,
                    Err(err) => {
                        return Err(err);
                    },
                };
                let dest = Operand::Variable { id: dest_id };
                let expr = match op {
                    ast::BinaryOperator::Add => hir::Expression {
                        left: lop,
                        op: hir::BinaryOperator::Add,
                        right: rop,
                        dest,
                    },
                    ast::BinaryOperator::Sub => hir::Expression {
                        left: lop,
                        op: hir::BinaryOperator::Sub,
                        right: rop,
                        dest,
                    },
                    ast::BinaryOperator::Mul => hir::Expression {
                        left: lop,
                        op: hir::BinaryOperator::Mul,
                        right: rop,
                        dest,
                    },
                    ast::BinaryOperator::Div => hir::Expression {
                        left: lop,
                        op: hir::BinaryOperator::Div,
                        right: rop,
                        dest,
                    },
                    ast::BinaryOperator::And => hir::Expression {
                        left: lop,
                        op: hir::BinaryOperator::And,
                        right: rop,
                        dest,
                    },
                    ast::BinaryOperator::Or => hir::Expression {
                        left: lop,
                        op: hir::BinaryOperator::Or,
                        right: rop,
                        dest,
                    },
                    ast::BinaryOperator::Eq => hir::Expression {
                        left: lop,
                        op: hir::BinaryOperator::Eq,
                        right: rop,
                        dest,
                    },
                    ast::BinaryOperator::Ne => hir::Expression {
                        left: lop,
                        op: hir::BinaryOperator::Ne,
                        right: rop,
                        dest,
                    },
                    ast::BinaryOperator::Lt => hir::Expression {
                        left: lop,
                        op: hir::BinaryOperator::Lt,
                        right: rop,
                        dest,
                    },
                    ast::BinaryOperator::Le => hir::Expression {
                        left: lop,
                        op: hir::BinaryOperator::Le,
                        right: rop,
                        dest,
                    },
                    ast::BinaryOperator::Gt => hir::Expression {
                        left: lop,
                        op: hir::BinaryOperator::Gt,
                        right: rop,
                        dest,
                    },
                    ast::BinaryOperator::Ge => hir::Expression {
                        left: lop,
                        op: hir::BinaryOperator::Ge,
                        right: rop,
                        dest,
                    },
                };
                proof {
                    assert(expr == (hir::Expression {
                        left: lop,
                        op: hir_op(*op),
                        right: rop,
                        dest,
                    }));
                }
                self.hir.push(Hir::Expression(expr));
                self.set_memo(e.id, dest);
                Ok(dest)
            },
            _ => vstd::pervasive::unreached(),
        }
    }

    /// Lower `LET`: the variable's operand, the expression, one `Copy`.
    fn visit_let(&mut self, variable: &String, expression: &ast::Expression) -> (r: Result<
        (),
        BuildError,
    >)
        ensures
            step_ok(
                lower_stmt(
                    old(self).state(),
                    ast::StmtS::Let { variable: variable@, expression: expression.deep_view() },
                ),
                final(self).state(),
                r,
            ),
    {
        let dest = match self.visit_variable(variable) {
            Ok(op) => op,
            Err(e) => {
                return Err(e);
            },
        };
        let src = match self.visit_expression(expression) {
            Ok(op) => op,
            Err(e) => {
                return Err(e);
            },
        };
        self.hir.push(Hir::Copy { src, dest });
        Ok(())
    }

    /// Lower the items of a `PRINT` or `PAUSE`: one `Print` instruction per
    /// item, in order.
    fn visit_print(&mut self, content: &Vec<ast::Expression>) -> (r: Result<(), BuildError>)
        ensures
            step_ok(
                lower_print_items(old(self).state(), content.deep_view()),
                final(self).state(),
                r,
            ),
    {
        let ghost m0 = old(self).state();
        let ghost dv = content.deep_view();
        proof {
            assert(dv.skip(0) =~= dv);
        }
        let mut i: usize = 0;
        while i < content.len()
            invariant
                i <= content.len(),
                m0 == old(self).state(),
                dv == content.deep_view(),
                dv.len() == content@.len(),
                lower_print_items(m0, dv) == lower_print_items(self.state(), dv.skip(i as int)),
            decreases content.len() - i,
        {
            let ghost m_cur = self.state();
            let op = match self.visit_expression(&content[i]) {
                Ok(op) => op,
                Err(e) => {
                    proof {
                        assert(dv.skip(i as int).first() == dv[i as int]);
                    }
                    return Err(e);
                },
            };
            proof {
                assert(dv.skip(i as int).first() == dv[i as int]);
            }
            self.hir.push(Hir::Print { operand: op });
            proof {
                assert(dv.skip(i as int).drop_first() =~= dv.skip(i as int + 1));
            }
            i = i + 1;
        }
        proof {
            assert(dv.skip(content@.len() as int) =~= Seq::<ast::ExprS>::empty());
        }
        Ok(())
    }

    /// Lower `INPUT`: the prompt (printed first, if present), then one
    /// `Input` into the variable's operand.
    fn visit_input(&mut self, prompt: &Option<ast::Expression>, variable: &String) -> (r: Result<
        (),
        BuildError,
    >)
        ensures
            step_ok(
                lower_stmt(
                    old(self).state(),
                    ast::StmtS::Input { prompt: prompt.deep_view(), variable: variable@ },
                ),
                final(self).state(),
                r,
            ),
    {
        match prompt {
            Some(p) => {
                let op = match self.visit_expression(p) {
                    Ok(op) => op,
                    Err(e) => {
                        return Err(e);
                    },
                };
                self.hir.push(Hir::Print { operand: op });
            },
            None => {},
        }
        let dest = match self.visit_variable(variable) {
            Ok(op) => op,
            Err(e) => {
                return Err(e);
            },
        };
        self.hir.push(Hir::Input { dest });
        Ok(())
    }

    /// Lower `GOTO`: record the instruction's position on the deferred jump
    /// list; its label field transiently holds the raw line number.
    fn visit_goto(&mut self, line_number: u32)
        ensures
            step_ok(
                lower_stmt(old(self).state(), ast::StmtS::Goto { line_number }),
                final(self).state(),
                Ok::<(), BuildError>(()),
            ),
    {
        let ghost m = self.state();
        self.goto_list.push(self.hir.len());
        self.hir.push(Hir::Goto { label: line_number });
        proof {
            assert(jumps_v(self.goto_list@) =~= m.jumps.push(m.hir.len() as int));
        }
    }

    /// Lower `GOSUB`, exactly as `GOTO`.
    fn visit_gosub(&mut self, line_number: u32)
        ensures
            step_ok(
                lower_stmt(old(self).state(), ast::StmtS::GoSub { line_number }),
                final(self).state(),
                Ok::<(), BuildError>(()),
            ),
    {
        let ghost m = self.state();
        self.goto_list.push(self.hir.len());
        self.hir.push(Hir::GoSub { label: line_number });
        proof {
            assert(jumps_v(self.goto_list@) =~= m.jumps.push(m.hir.len() as int));
        }
    }

    /// Lower `RETURN`: one instruction, emitted directly.
    fn visit_return(&mut self)
        ensures
            step_ok(
                lower_stmt(old(self).state(), ast::StmtS::Return),
                final(self).state(),
                Ok::<(), BuildError>(()),
            ),
    {
        self.hir.push(Hir::Return);
    }

    /// Lower `IF`: negate the condition into a fresh variable, branch past
    /// the `then` statement on it, and lower the `else` statement (if any)
    /// unconditionally after the label: the `then` branch emits no jump
    /// around it.
    fn visit_if(&mut self, s: &ast::Statement) -> (r: Result<(), BuildError>)
        requires
            (*s is If),
        ensures
            step_ok(lower_stmt(old(self).state(), s.deep_view()), final(self).state(), r),
        decreases *s, 0int,
    {
        match s {
            ast::Statement::If { condition, then, else_ } => {
                let cond = match self.visit_expression(condition) {
                    Ok(op) => op,
                    Err(e) => {
                        return Err(e);
                    },
                };
                let neg_id = match self.get_next_variable_id() {
                    Ok(id) => id,
                    Err(e) => {
                        return Err(e);
                    },
                };
                let neg = Operand::Variable { id: neg_id };
                self.hir.push(Hir::Expression(hir::Expression {
                    left: cond,
                    op: hir::BinaryOperator::Eq,
                    right: Operand::NumberLiteral { value: 0 },
                    dest: neg,
                }));
                let label = match self.get_next_label() {
                    Ok(l) => l,
                    Err(e) => {
                        return Err(e);
                    },
                };
                self.hir.push(Hir::If { condition: neg, label });
                match self.visit_statement(then) {
                    Ok(()) => {},
                    Err(e) => {
                        return Err(e);
                    },
                }
                self.hir.push(Hir::Label { id: label });
                match else_ {
                    Some(e) => self.visit_statement(e),
                    None => Ok(()),
                }
            },
            _ => vstd::pervasive::unreached(),
        }
    }

    /// Lower `FOR`: copy the start value into the index variable, mark the
    /// loop head, compare the index against the bound, and branch to the
    /// end label when the loop is done; a frame for the matching `NEXT` is
    /// pushed.
    fn visit_for(
        &mut self,
        variable: &String,
        from: &ast::Expression,
        to: &ast::Expression,
        step: &Option<ast::Expression>,
    ) -> (r: Result<(), BuildError>)
        ensures
            step_ok(
                lower_stmt(
                    old(self).state(),
                    ast::StmtS::For {
                        variable: variable@,
                        from: from.deep_view(),
                        to: to.deep_view(),
                        step: step.deep_view(),
                    },
                ),
                final(self).state(),
                r,
            ),
    {
        let index = match self.visit_variable(variable) {
            Ok(op) => op,
            Err(e) => {
                return Err(e);
            },
        };
        let from_op = match self.visit_expression(from) {
            Ok(op) => op,
            Err(e) => {
                return Err(e);
            },
        };
        self.hir.push(Hir::Copy { src: from_op, dest: index });
        if self.next_label >= u32::MAX - 1 {
            return Err(BuildError::CapacityExceeded);
        }
        let begin_label = self.next_label;
        let end_label = self.next_label + 1;
        self.next_label = self.next_label + 2;
        self.hir.push(Hir::Label { id: begin_label });
        let to_op = match self.visit_expression(to) {
            Ok(op) => op,
            Err(e) => {
                return Err(e);
            },
        };
        let cmp_id = match self.get_next_variable_id() {
            Ok(id) => id,
            Err(e) => {
                return Err(e);
            },
        };
        let cmp = Operand::Variable { id: cmp_id };
        self.hir.push(Hir::Expression(hir::Expression {
            left: index,
            op: hir::BinaryOperator::Ge,
            right: to_op,
            dest: cmp,
        }));
        self.hir.push(Hir::If { condition: cmp, label: end_label });
        let ghost m9 = self.state();
        let step_copy: Option<ast::Expression> = match step {
            Some(se) => Some(se.duplicate()),
            None => None,
        };
        let info = ForInfo { begin_label, end_label, step: step_copy };
        proof {
            assert(for_info_v(info) == (ForFrameS {
                begin_label,
                end_label,
                step: step.deep_view(),
            }));
        }
        self.for_stack.push(info);
        proof {
            assert(fs_v(self.for_stack@) =~= m9.for_stack.push(
                ForFrameS { begin_label, end_label, step: step.deep_view() },
            ));
        }
        Ok(())
    }

    /// Lower `NEXT`: pop the innermost `FOR` frame, step the index (by the
    /// frame's step expression, or by one), jump back to the loop head, and
    /// mark the end label.  A `NEXT` with no open frame is fatal.
    fn visit_next(&mut self, variable: &String) -> (r: Result<(), BuildError>)
        ensures
            step_ok(
                lower_stmt(old(self).state(), ast::StmtS::Next { variable: variable@ }),
                final(self).state(),
                r,
            ),
    {
        let index = match self.visit_variable(variable) {
            Ok(op) => op,
            Err(e) => {
                return Err(e);
            },
        };
        let ghost m1 = self.state();
        let info = match self.for_stack.pop() {
            Some(info) => info,
            None => {
                return Err(BuildError::UnmatchedNext);
            },
        };
        proof {
            assert(for_info_v(info) == m1.for_stack.last());
            assert(fs_v(self.for_stack@) =~= m1.for_stack.drop_last());
        }
        match &info.step {
            Some(se) => {
                let sop = match self.visit_expression(se) {
                    Ok(op) => op,
                    Err(e) => {
                        return Err(e);
                    },
                };
                self.hir.push(Hir::Expression(hir::Expression {
                    left: index,
                    op: hir::BinaryOperator::Add,
                    right: sop,
                    dest: index,
                }));
            },
            None => {
                self.hir.push(Hir::Expression(hir::Expression {
                    left: index,
                    op: hir::BinaryOperator::Add,
                    right: Operand::NumberLiteral { value: 1 },
                    dest: index,
                }));
            },
        }
        self.hir.push(Hir::Goto { label: info.begin_label });
        self.hir.push(Hir::Label { id: info.end_label });
        Ok(())
    }

    /// Lower a colon-joined sequence of statements, in order.
    fn visit_seq(&mut self, statements: &Vec<ast::Statement>) -> (r: Result<(), BuildError>)
        ensures
            step_ok(
                lower_stmts(old(self).state(), ast::stmts_dv(statements@)),
                final(self).state(),
                r,
            ),
        decreases *statements, 0int,
    {
        let ghost m0 = old(self).state();
        let ghost dv = ast::stmts_dv(statements@);
        proof {
            ast::lemma_stmts_dv(statements@);
        }
        proof {
            assert(dv.skip(0) =~= dv);
        }
        let mut i: usize = 0;
        while i < statements.len()
            invariant
                i <= statements.len(),
                m0 == old(self).state(),
                dv == ast::stmts_dv(statements@),
                dv.len() == statements@.len(),
                forall|k: int| 0 <= k < dv.len() ==> dv[k] == ast::stmt_dv(statements@[k]),
                lower_stmts(m0, dv) == lower_stmts(self.state(), dv.skip(i as int)),
            decreases statements.len() - i,
        {
            proof {
                assert(dv.skip(i as int).first() == dv[i as int]);
            }
            match self.visit_statement(&statements[i]) {
                Ok(()) => {},
                Err(e) => {
                    return Err(e);
                },
            }
            proof {
                assert(dv.skip(i as int).drop_first() =~= dv.skip(i as int + 1));
            }
            i = i + 1;
        }
        proof {
            assert(dv.skip(statements@.len() as int) =~= Seq::<ast::StmtS>::empty());
        }
        Ok(())
    }

    /// Lower one statement.
    fn visit_statement(&mut self, s: &ast::Statement) -> (r: Result<(), BuildError>)
        ensures
            step_ok(lower_stmt(old(self).state(), s.deep_view()), final(self).state(), r),
        decreases *s, 1int,
    {
        match s {
            ast::Statement::Let { variable, expression } => self.visit_let(variable, expression),
            ast::Statement::Print { content } => self.visit_print(content),
            ast::Statement::Pause { content } => self.visit_print(content),
            ast::Statement::Input { prompt, variable } => self.visit_input(prompt, variable),
            ast::Statement::Goto { line_number } => {
                self.visit_goto(*line_number);
                Ok(())
            },
            ast::Statement::GoSub { line_number } => {
                self.visit_gosub(*line_number);
                Ok(())
            },
            ast::Statement::Return => {
                self.visit_return();
                Ok(())
            },
            ast::Statement::If { .. } => self.visit_if(s),
            ast::Statement::For { variable, from, to, step } => self.visit_for(
                variable,
                from,
                to,
                step,
            ),
            ast::Statement::Next { variable } => self.visit_next(variable),
            ast::Statement::Sequence { statements } => self.visit_seq(statements),
            // `END` is the implicit end of the stream; the remaining
            // statement kinds have no HIR instruction and emit nothing.
            _ => Ok(()),
        }
    }

    /// Lower one program line: record where its lowering begins, then
    /// lower its statement.
    fn visit_line(&mut self, line: &ast::Line) -> (r: Result<(), BuildError>)
        ensures
            step_ok(lower_line(old(self).state(), line.deep_view()), final(self).state(), r),
    {
        let ghost m = self.state();
        self.line_map.push((line.number, self.hir.len()));
        proof {
            assert(lm_v(self.line_map@) =~= m.line_map.push((line.number, m.hir.len() as int)));
        }
        self.visit_statement(&line.statement)
    }

    /// The state of the jump-resolution pass, as the model sees it.
    spec fn resolve_state(&self) -> RState {
        RState {
            hir: self.hir@,
            line_map: lm_v(self.line_map@),
            jumps: jumps_v(self.goto_list@),
            next_label: self.next_label,
        }
    }

    /// The instruction index where a line's lowering began, if the line
    /// exists.
    fn find_line(&self, number: u32) -> (r: Option<usize>)
        ensures
            r is Some <==> assoc_find(lm_v(self.line_map@), number) is Some,
            r matches Some(u) ==> assoc_find(lm_v(self.line_map@), number) == Some(u as int),
    {
        let ghost lm = lm_v(self.line_map@);
        let mut i: usize = 0;
        while i < self.line_map.len()
            invariant
                i <= self.line_map.len(),
                lm == lm_v(self.line_map@),
                lm.len() == self.line_map@.len(),
                forall|k: int| 0 <= k < i ==> lm[k].0 != number,
            decreases self.line_map.len() - i,
        {
            if self.line_map[i].0 == number {
                proof {
                    lemma_assoc_find_at(lm, number, i as int);
                }
                return Some(self.line_map[i].1);
            }
            i = i + 1;
        }
        proof {
            lemma_assoc_find_at(lm, number, lm.len() as int);
        }
        None
    }

    /// Run the whole build: lower every line in order, then resolve every
    /// deferred jump into a label.  The result is the finished instruction
    /// stream and the string literal table, or the single fatal error that
    /// aborted the build.  A builder builds once, from the fresh state
    /// [`HirBuilder::new`] returned it in.
    pub fn build(self) -> (r: Result<(hir::Program, Vec<String>), BuildError>)
        requires
            self.state() == init_state(),
        ensures
            build_matches(build_s(self.program_view()), r),
    {
        let ghost pdv = self.program_view();
        let HirBuilder {
            program,
            hir,
            var_map,
            expr_map,
            str_literals,
            line_map,
            for_stack,
            goto_list,
            next_variable,
            next_label,
        } = self;
        let mut b = HirBuilder {
            program: ast::Program::new(),
            hir,
            var_map,
            expr_map,
            str_literals,
            line_map,
            for_stack,
            goto_list,
            next_variable,
            next_label,
        };
        proof {
            assert(b.state() == init_state());
            assert(pdv.skip(0) =~= pdv);
        }
        let lines_ref = program.lines();
        let mut i: usize = 0;
        while i < lines_ref.len()
            invariant
                i <= lines_ref.len(),
                pdv == self.program_view(),
                lines_ref.deep_view() == pdv,
                pdv.len() == lines_ref@.len(),
                lower_lines(init_state(), pdv) == lower_lines(b.state(), pdv.skip(i as int)),
                positions_ok(b.state()),
            decreases lines_ref.len() - i,
        {
            proof {
                assert(pdv.skip(i as int).first() == pdv[i as int]);
                lemma_lower_line_pos(b.state(), pdv[i as int]);
            }
            match b.visit_line(&lines_ref[i]) {
                Ok(()) => {},
                Err(e) => {
                    return Err(e);
                },
            }
            proof {
                assert(pdv.skip(i as int).drop_first() =~= pdv.skip(i as int + 1));
            }
            i = i + 1;
        }
        proof {
            assert(pdv.skip(pdv.len() as int) =~= Seq::<ast::LineS>::empty());
        }
        let ghost m1 = b.state();
        let ghost r0 = RState {
            hir: m1.hir,
            line_map: m1.line_map,
            jumps: m1.jumps,
            next_label: m1.next_label,
        };
        proof {
            assert(lower_lines(init_state(), pdv) == Ok::<BState, BuildError>(m1));
            assert(b.resolve_state() == r0);
        }
        proof {
            assert forall|k: int| 0 <= k < b.line_map@.len() implies #[trigger] (
            b.line_map@[k].1) <= b.hir@.len() by {
                assert(m1.line_map[k] == (b.line_map@[k].0, b.line_map@[k].1 as int));
                assert(m1.line_map[k].1 <= m1.hir.len());
            }
            assert forall|k: int| 0 <= k < b.goto_list@.len() implies #[trigger] b.goto_list@[k]
                <= b.hir@.len() by {
                assert(m1.jumps[k] == b.goto_list@[k] as int);
                assert(m1.jumps[k] < m1.hir.len());
            }
        }
        while b.goto_list.len() > 0
            invariant
                pdv == self.program_view(),
                lower_lines(init_state(), pdv) == Ok::<BState, BuildError>(m1),
                r0 == (RState {
                    hir: m1.hir,
                    line_map: m1.line_map,
                    jumps: m1.jumps,
                    next_label: m1.next_label,
                }),
                resolve_jumps(r0) == resolve_jumps(b.resolve_state()),
                b.str_literals.deep_view() == m1.strs,
                forall|k: int|
                    0 <= k < b.line_map@.len() ==> #[trigger] (b.line_map@[k].1) <= b.hir@.len(),
                forall|k: int|
                    0 <= k < b.goto_list@.len() ==> #[trigger] b.goto_list@[k] <= b.hir@.len(),
            decreases b.goto_list@.len(),
        {
            let ghost cur = b.resolve_state();
            let og = match b.goto_list.pop() {
                Some(og) => og,
                None => vstd::pervasive::unreached(),
            };
            proof {
                assert(cur.jumps.last() == og as int);
                assert(jumps_v(b.goto_list@) =~= cur.jumps.drop_last());
                assert(b.resolve_state() == (RState { jumps: cur.jumps.drop_last(), ..cur }));
            }
            if og >= b.hir.len() {
                continue ;
            }
            let instr = b.hir[og];
            let ln: u32;
            let is_goto: bool;
            match instr {
                Hir::Goto { label } => {
                    ln = label;
                    is_goto = true;
                },
                Hir::GoSub { label } => {
                    ln = label;
                    is_goto = false;
                },
                _ => {
                    continue ;
                },
            }
            let t = match b.find_line(ln) {
                Some(t) => t,
                None => {
                    return Err(BuildError::UnresolvedJumpTarget { line_number: ln });
                },
            };
            if t > b.hir.len() {
                continue ;
            }
            let mut reuse: Option<u32> = None;
            if t >= 1 {
                match b.hir[t - 1] {
                    Hir::Label { id } => {
                        reuse = Some(id);
                    },
                    _ => {},
                }
            }
            match reuse {
                Some(label) => {
                    let new_instr = if is_goto {
                        Hir::Goto { label }
                    } else {
                        Hir::GoSub { label }
                    };
                    proof {
                        assert(new_instr == rewrite_jump(cur.hir[og as int], label));
                    }
                    b.hir.set(og, new_instr);
                },
                None => {
                    if b.next_label == u32::MAX {
                        return Err(BuildError::CapacityExceeded);
                    }
                    let label = b.next_label;
                    b.next_label = b.next_label + 1;
                    b.hir.insert(t, Hir::Label { id: label });
                    let og1 = if og >= t {
                        og + 1
                    } else {
                        og
                    };
                    let new_instr = if is_goto {
                        Hir::Goto { label }
                    } else {
                        Hir::GoSub { label }
                    };
                    proof {
                        assert(new_instr == rewrite_jump(cur.hir[og as int], label));
                    }
                    b.hir.set(og1, new_instr);
                    let _hir_len_now = b.hir.len();
                    proof {
                        assert(_hir_len_now == cur.hir.len() + 1);
                        assert forall|k: int| 0 <= k < b.line_map@.len() implies #[trigger] (
                        b.line_map@[k].1) < usize::MAX by {
                            assert(b.line_map@[k].1 <= cur.hir.len());
                        }
                        assert forall|k: int|
                            0 <= k < b.goto_list@.len() implies #[trigger] b.goto_list@[k]
                            < usize::MAX by {
                            assert(b.goto_list@[k] <= cur.hir.len());
                        }
                    }
                    let ghost lm_before = b.line_map@;
                    let ghost gl_before = b.goto_list@;
                    shift_lm_exec(&mut b.line_map, t);
                    shift_jumps_exec(&mut b.goto_list, t);
                    proof {
                        assert forall|k: int| 0 <= k < b.line_map@.len() implies #[trigger] (
                        b.line_map@[k].1) <= b.hir@.len() by {
                            assert(lm_v(b.line_map@)[k] == shift_line_map(
                                lm_v(lm_before),
                                t as int,
                            )[k]);
                            assert(lm_v(lm_before)[k] == (lm_before[k].0, lm_before[k].1 as int));
                            assert(lm_before[k].1 <= cur.hir.len());
                            assert(lm_v(b.line_map@)[k] == (b.line_map@[k].0, b.line_map@[k].1 as int));
                        }
                        assert forall|k: int|
                            0 <= k < b.goto_list@.len() implies #[trigger] b.goto_list@[k]
                            <= b.hir@.len() by {
                            assert(jumps_v(b.goto_list@)[k] == shift_positions(
                                jumps_v(gl_before),
                                t as int,
                            )[k]);
                            assert(jumps_v(gl_before)[k] == gl_before[k] as int);
                            assert(gl_before[k] <= cur.hir.len());
                            assert(jumps_v(b.goto_list@)[k] == b.goto_list@[k] as int);
                        }
                    }
                    proof {
                        assert(b.resolve_state() == (RState {
                            hir: cur.hir.insert(t as int, Hir::Label { id: label }).update(
                                if og as int >= t as int {
                                    og + 1
                                } else {
                                    og as int
                                },
                                rewrite_jump(cur.hir[og as int], label),
                            ),
                            line_map: shift_line_map(cur.line_map, t as int),
                            jumps: shift_positions(cur.jumps.drop_last(), t as int),
                            next_label: (cur.next_label + 1) as u32,
                        }));
                    }
                },
            }
        }
        proof {
            assert(resolve_jumps(b.resolve_state()) == Ok::<(Seq<Hir>, u32), BuildError>(
                (b.hir@, b.next_label),
            ));
        }
        let HirBuilder { hir, str_literals, .. } = b;
        Ok((hir::Program::from_instructions(hir), str_literals))
    }
}

/// The executable build returned exactly what the model build says: the
/// same instruction stream and literal table, or the same fatal error.
pub open spec fn build_matches(
    sr: Result<(Seq<Hir>, Seq<Seq<char>>), BuildError>,
    r: Result<(hir::Program, Vec<String>), BuildError>,
) -> bool {
    match sr {
        Ok((h, strs)) => r matches Ok(rv) && rv.0@ == h && rv.1.deep_view() == strs,
        Err(e) => r == Err::<(hir::Program, Vec<String>), BuildError>(e),
    }
}

/// Building twice from the same program yields structurally identical
/// results: the model build is a function of the program alone, and every
/// executable build returns exactly the model's result, so two builds from
/// fresh builders over the same abstract syntax produce the same
/// instruction sequence and the same literal table — or the same fatal
/// error.
pub proof fn lemma_build_idempotent(
    lines: Seq<ast::LineS>,
    r1: Result<(hir::Program, Vec<String>), BuildError>,
    r2: Result<(hir::Program, Vec<String>), BuildError>,
)
    requires
        build_matches(build_s(lines), r1),
        build_matches(build_s(lines), r2),
    ensures
        r1 matches Ok(a) ==> (r2 matches Ok(b) && a.0@ == b.0@ && a.1.deep_view()
            == b.1.deep_view()),
        r1 is Err ==> r2 == r1,
{
}

/// Bump by one, in place, every line-start index at or after an insertion
/// point.
fn shift_lm_exec(v: &mut Vec<(u32, usize)>, t: usize)
    requires
        forall|k: int| 0 <= k < old(v)@.len() ==> #[trigger] (old(v)@[k].1) < usize::MAX,
    ensures
        lm_v(final(v)@) == shift_line_map(lm_v(old(v)@), t as int),
        final(v)@.len() == old(v)@.len(),
    {
    let ghost orig = v@;
    let mut i: usize = 0;
    while i < v.len()
        invariant
            i <= v.len(),
            v@.len() == orig.len(),
            forall|k: int| 0 <= k < orig.len() ==> #[trigger] (orig[k].1) < usize::MAX,
            forall|k: int|
                i <= k < orig.len() ==> #[trigger] v@[k] == orig[k],
            forall|k: int|
                0 <= k < i ==> #[trigger] v@[k] == (if orig[k].1 >= t {
                    (orig[k].0, (orig[k].1 + 1) as usize)
                } else {
                    orig[k]
                }),
        decreases v.len() - i,
    {
        let e = v[i];
        if e.1 >= t {
            v.set(i, (e.0, e.1 + 1));
        }
        i = i + 1;
    }
    proof {
        assert(lm_v(v@) =~= shift_line_map(lm_v(orig), t as int));
    }
}

/// Bump by one, in place, every recorded jump position at or after an
/// insertion point.
fn shift_jumps_exec(v: &mut Vec<usize>, t: usize)
    requires
        forall|k: int| 0 <= k < old(v)@.len() ==> #[trigger] old(v)@[k] < usize::MAX,
    ensures
        jumps_v(final(v)@) == shift_positions(jumps_v(old(v)@), t as int),
        final(v)@.len() == old(v)@.len(),
    {
    let ghost orig = v@;
    let mut i: usize = 0;
    while i < v.len()
        invariant
            i <= v.len(),
            v@.len() == orig.len(),
            forall|k: int| 0 <= k < orig.len() ==> #[trigger] orig[k] < usize::MAX,
            forall|k: int| i <= k < orig.len() ==> #[trigger] v@[k] == orig[k],
            forall|k: int|
                0 <= k < i ==> #[trigger] v@[k] == (if orig[k] >= t {
                    (orig[k] + 1) as usize
                } else {
                    orig[k]
                }),
        decreases v.len() - i,
    {
        let e = v[i];
        if e >= t {
            v.set(i, e + 1);
        }
        i = i + 1;
    }
    proof {
        assert(jumps_v(v@) =~= shift_positions(jumps_v(orig), t as int));
    }
}

// ------------------------------------------------------------------
// Result correspondence predicates.
// ------------------------------------------------------------------

/// The executable step returned `r` and left state `st`, exactly as the
/// model step `sr` says.  A model error is only propagated, so the state
/// after an error is not constrained.
pub open spec fn step_ok(sr: Result<BState, BuildError>, st: BState, r: Result<
    (),
    BuildError,
>) -> bool {
    match sr {
        Ok(m) => st == m && r == Ok::<(), BuildError>(()),
        Err(e) => r == Err::<(), BuildError>(e),
    }
}

/// As [`step_ok`], for steps that also return a value.
pub open spec fn step_val_ok<T>(sr: Result<(BState, T), BuildError>, st: BState, r: Result<
    T,
    BuildError,
>) -> bool {
    match sr {
        Ok((m, v)) => st == m && r == Ok::<T, BuildError>(v),
        Err(e) => r == Err::<T, BuildError>(e),
    }
}

// ------------------------------------------------------------------
// Lemmas about the association model.
// ------------------------------------------------------------------

/// Where the first `i` keys of `m` differ from `k`, and the key at `i` (if
/// any) is `k`, the first binding of `k` is at `i`.
pub proof fn lemma_assoc_find_at<K, V>(m: Seq<(K, V)>, k: K, i: int)
    requires
        0 <= i <= m.len(),
        forall|j: int| 0 <= j < i ==> m[j].0 != k,
        i < m.len() ==> m[i].0 == k,
    ensures
        assoc_find(m, k) == if i < m.len() {
            Some(m[i].1)
        } else {
            None::<V>
        },
    decreases m.len(),
{
    if m.len() > 0 {
        if i == 0 {
        } else {
            lemma_assoc_find_at(m.drop_first(), k, i - 1);
        }
    }
}

/// Re-binding a key at position `i` (first such position) updates in place.
pub proof fn lemma_assoc_set_at<K, V>(m: Seq<(K, V)>, k: K, v: V, i: int)
    requires
        0 <= i < m.len(),
        forall|j: int| 0 <= j < i ==> m[j].0 != k,
        m[i].0 == k,
    ensures
        assoc_set(m, k, v) == m.update(i, (k, v)),
    decreases m.len(),
{
    if i == 0 {
        assert(assoc_set(m, k, v) =~= m.update(0, (k, v)));
    } else {
        lemma_assoc_set_at(m.drop_first(), k, v, i - 1);
        assert(m.drop_first().update(i - 1, (k, v)) =~= m.update(i, (k, v)).drop_first());
        assert(assoc_set(m, k, v) =~= m.update(i, (k, v)));
    }
}

/// Where the first `i` entries of the table differ from `s`, and the entry
/// at `i` (if any) is `s`, the first occurrence of `s` is at `i`.
pub proof fn lemma_str_index_at(strs: Seq<Seq<char>>, s: Seq<char>, i: int)
    requires
        0 <= i <= strs.len(),
        forall|j: int| 0 <= j < i ==> strs[j] != s,
        i < strs.len() ==> strs[i] == s,
    ensures
        str_index(strs, s) == if i < strs.len() {
            Some(i)
        } else {
            None::<int>
        },
    decreases strs.len(),
{
    if strs.len() > 0 {
        if i == 0 {
        } else {
            lemma_str_index_at(strs.drop_first(), s, i - 1);
        }
    }
}

} // verus!
