use vstd::prelude::*;

verus! {

/// Why an evaluation, an address or an edit failed.
#[derive(Debug, Clone, Copy, PartialEq, Eq, Structural)]
pub enum NockError {
    /// Axis zero names no subtree.
    ZeroAxis,
    /// The path of an axis went on below an atom.
    AxisThroughAtom,
    /// An axis had more limbs than a bit slice can address.
    AxisTooLong,
    /// An axis (for opcode 0, 9 or 10) was a cell.
    AxisNotAtom,
    /// A bare atom stood where a formula was expected.
    AtomFormula,
    /// The head atom of a formula named no opcode.
    InvalidOpcode,
    /// The argument of an opcode did not have the shape of cells it needs.
    BadArgument,
    /// Opcode 4 was applied to a cell.
    IncrementCell,
    /// The test of opcode 6 gave neither 0 nor 1.
    BadTest,
    /// The evaluation took more steps than it was given.
    OutOfSteps,
}

} // verus!
