use crate::value_type::ValueType;
use vstd::prelude::*;

verus! {

/// An error of the binary type conversions.
///
/// Both variants are synchronous contract violations surfaced directly to
/// the caller; nothing here is retried or recovered.
#[derive(Debug)]
pub enum TypeError {
    /// A node or bit sequence did not have the length that the requested
    /// shape demands.
    InvalidLength { expected: usize, actual: usize },
    /// Two shapes that had to agree did not.
    UnexpectedType { expected: ValueType, actual: ValueType },
}

} // verus!
