use vstd::prelude::*;

verus! {

/// Failures of the enumeration engine.  The computation is deterministic, so
/// no error is retried: each one aborts the run.
#[derive(Clone, Copy, Debug, PartialEq, Eq, Structural)]
pub enum PolyError {
    /// The requested maximum size was zero, or a variant selector was not
    /// recognized; rejected before any generation runs.
    InvalidInput,
    /// A canonical grid of a shape with `size` cells would need more columns
    /// than the fixed 64-bit packing width supports.
    CapacityExceeded { size: usize },
    /// A shape with `size` cells broke a structural invariant (for instance a
    /// shape with zero points).
    InternalInvariantViolation { size: usize },
}

impl PolyError {
    /// A short label for reporting; the library's types carry no `Display`.
    pub fn describe(&self) -> (r: &'static str)
        ensures
            self is InvalidInput ==> r@ == "invalid input"@,
            self is CapacityExceeded ==> r@ == "capacity exceeded"@,
            self is InternalInvariantViolation ==> r@ == "internal invariant violation"@,
    {
        match self {
            PolyError::InvalidInput => "invalid input",
            PolyError::CapacityExceeded { .. } => "capacity exceeded",
            PolyError::InternalInvariantViolation { .. } => "internal invariant violation",
        }
    }
}

} // verus!
