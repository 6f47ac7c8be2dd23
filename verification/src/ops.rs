//! The closed set of operations a node can carry, and the work items that
//! evaluation hands to the numeric kernel.

use vstd::prelude::*;

verus! {

/// An operation over operand nodes.
///
/// Operand references are indices into the arena that owns the nodes; a
/// constructor only ever references nodes that already exist, so every
/// operand index points at an earlier node and a cyclic graph cannot be
/// expressed. Scalar constants — a leaf's current value and the `Pow`
/// exponent — are IEEE-754 single-precision bit patterns.
pub enum Operation {
    /// A leaf: holds the current value, settable by the caller.
    Input(u32),
    /// Sum of two operands.
    Add(usize, usize),
    /// Sum of any number of operands, in declared order; the empty sum is zero.
    AddVar(Vec<usize>),
    /// Difference of two operands.
    Sub(usize, usize),
    /// Product of two operands.
    Mul(usize, usize),
    /// First operand raised to the constant exponent.
    Pow(usize, u32),
    /// Sine of the operand, radians.
    Sin(usize),
}

/// The operand indices of an operation, in declared left-to-right order.
pub open spec fn op_operands(op: Operation) -> Seq<int> {
    match op {
        Operation::Input(_) => Seq::empty(),
        Operation::Add(x, y) => seq![x as int, y as int],
        Operation::AddVar(args) => args@.map_values(|a: usize| a as int),
        Operation::Sub(x, y) => seq![x as int, y as int],
        Operation::Mul(x, y) => seq![x as int, y as int],
        Operation::Pow(x, _) => seq![x as int],
        Operation::Sin(x) => seq![x as int],
    }
}

/// One step of work for the numeric kernel: an operation with the operand
/// values (bit patterns) filled in.
pub enum PendingOp {
    Add(u32, u32),
    AddVar(Vec<u32>),
    Sub(u32, u32),
    Mul(u32, u32),
    Pow(u32, u32),
    Sin(u32),
}

/// Mathematical image of a [`PendingOp`].
pub enum PendingView {
    Add(u32, u32),
    AddVar(Seq<u32>),
    Sub(u32, u32),
    Mul(u32, u32),
    Pow(u32, u32),
    Sin(u32),
}

impl View for PendingOp {
    type V = PendingView;

    open spec fn view(&self) -> PendingView {
        match self {
            PendingOp::Add(x, y) => PendingView::Add(*x, *y),
            PendingOp::AddVar(args) => PendingView::AddVar(args@),
            PendingOp::Sub(x, y) => PendingView::Sub(*x, *y),
            PendingOp::Mul(x, y) => PendingView::Mul(*x, *y),
            PendingOp::Pow(x, e) => PendingView::Pow(*x, *e),
            PendingOp::Sin(x) => PendingView::Sin(*x),
        }
    }
}

} // verus!
