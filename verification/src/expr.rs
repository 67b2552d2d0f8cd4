//! Bodies of reactive computations.
//!
//! A computation's body is a small arithmetic expression over tracked reads.
//! Reads name their source explicitly, and a conditional takes only the
//! branch its condition selects, so which sources a body reads can change
//! from one run to the next (dynamic dependency tracking).

use vstd::prelude::*;

verus! {

/// Identifies a source that a computation can read: a state cell or a
/// derived computation.
#[derive(Clone, Copy, PartialEq, Eq, Structural, Debug)]
pub enum SourceId {
    Cell(usize),
    Comp(usize),
}

/// The body of a computation: a pure function of its tracked reads.
///
/// `If` evaluates its condition and then only the selected branch (the
/// condition is true when it is non-zero), so the set of sources a body
/// reads depends on the values it observes.
pub enum Expr {
    /// A constant value.
    Const(i64),
    /// A tracked read of a cell or of a derived computation.
    Read(SourceId),
    /// Checked addition; overflow makes the computation fail.
    Plus(Box<Expr>, Box<Expr>),
    /// Branch on the first expression: non-zero selects the second,
    /// zero selects the third.
    If(Box<Expr>, Box<Expr>, Box<Expr>),
}

/// Every source an expression could possibly read, over all branches.
pub open spec fn expr_refs(e: Expr) -> Set<SourceId>
    decreases e,
{
    match e {
        Expr::Const(_) => Set::empty(),
        Expr::Read(s) => set![s],
        Expr::Plus(a, b) => expr_refs(*a).union(expr_refs(*b)),
        Expr::If(c, t, f) => expr_refs(*c).union(expr_refs(*t)).union(expr_refs(*f)),
    }
}

/// Structural size of an expression, used as a termination measure.
pub open spec fn expr_size(e: Expr) -> nat
    decreases e,
{
    match e {
        Expr::Const(_) => 1,
        Expr::Read(_) => 1,
        Expr::Plus(a, b) => 1 + expr_size(*a) + expr_size(*b),
        Expr::If(c, t, f) => 1 + expr_size(*c) + expr_size(*t) + expr_size(*f),
    }
}

} // verus!
