//! The flat, label-addressed three-address intermediate representation
//! (HIR) that the builder lowers a program to.
//!
//! Control flow uses builder-assigned integer labels instead of the
//! source's line numbers; string literals live in a side table and are
//! referred to by index.

use vstd::prelude::*;

verus! {

/// A binary operator of an HIR `Expression` instruction.
#[derive(Debug, Clone, Copy, PartialEq, Eq, Structural)]
pub enum BinaryOperator {
    // Arithmetic
    Add,
    Sub,
    Mul,
    Div,
    // Logical
    And,
    Or,
    // Comparison
    Eq,
    Ne,
    Lt,
    Le,
    Gt,
    Ge,
}

/// An HIR-level reference to a variable slot, a numeric literal, or an
/// indirect (string-table-indexed) value.
#[derive(Debug, Clone, Copy, PartialEq, Eq, Structural)]
pub enum Operand {
    /// A numeric variable slot.
    Variable { id: u32 },
    /// A string-valued variable slot, paired with a `$`-suffixed surface
    /// variable.
    IndirectVariable { id: u32 },
    /// An immediate number.
    NumberLiteral { value: i32 },
    /// An index into the string literal table, representing a string
    /// literal as "load by index".
    IndirectNumberLiteral { value: i32 },
}

impl Operand {
    /// The slot id, for a numeric variable operand only.
    pub fn variable_id(&self) -> (r: Option<u32>)
        ensures
            r == match *self {
                Operand::Variable { id } => Some(id),
                _ => None::<u32>,
            },
    {
        match self {
            Operand::Variable { id } => Some(*id),
            _ => None,
        }
    }

    /// The immediate value, for a number literal operand only.
    pub fn number_literal_value(&self) -> (r: Option<i32>)
        ensures
            r == match *self {
                Operand::NumberLiteral { value } => Some(value),
                _ => None::<i32>,
            },
    {
        match self {
            Operand::NumberLiteral { value } => Some(*value),
            _ => None,
        }
    }
}

/// A three-address operation: `dest = left op right`.
#[derive(Debug, Clone, Copy, PartialEq, Eq, Structural)]
pub struct Expression {
    pub left: Operand,
    pub op: BinaryOperator,
    pub right: Operand,
    pub dest: Operand,
}

/// One HIR instruction.
#[derive(Debug, Clone, Copy, PartialEq, Eq, Structural)]
pub enum Hir {
    /// Arithmetic, comparison, or logical operation.
    Expression(Expression),
    /// `dest = src`.
    Copy { src: Operand, dest: Operand },
    /// Unconditional jump to a label.  While the builder's first pass is
    /// running, `label` transiently holds a raw source line number; the
    /// second pass rewrites it to a label id.
    Goto { label: u32 },
    /// Subroutine call to a label; same transient convention as `Goto`.
    GoSub { label: u32 },
    /// Jump target marker.
    Label { id: u32 },
    /// Return from a subroutine.
    Return,
    /// Branch to `label` when `condition` is non-zero.
    If { condition: Operand, label: u32 },
    /// Output one operand.
    Print { operand: Operand },
    /// Read one value into `dest`.
    Input { dest: Operand },
}

/// A lowered program: the ordered instruction stream.
#[derive(Debug)]
pub struct Program {
    hir: Vec<Hir>,
}

impl View for Program {
    type V = Seq<Hir>;

    closed spec fn view(&self) -> Seq<Hir> {
        self.hir@
    }
}

impl Program {
    /// Wrap a finished instruction stream.
    pub fn from_instructions(hir: Vec<Hir>) -> (r: Program)
        ensures
            r@ == hir@,
    {
        Program { hir }
    }

    /// The instructions, in execution order.
    pub fn instructions(&self) -> (r: &Vec<Hir>)
        ensures
            r@ == self@,
    {
        &self.hir
    }

    /// How many instructions the program has.
    pub fn len(&self) -> (r: usize)
        ensures
            r == self@.len(),
    {
        self.hir.len()
    }
}

} // verus!
