use vstd::prelude::*;

verus! {

/// Why a run over the input stopped.
#[derive(Debug, Clone, Copy, PartialEq, Eq, Structural)]
pub enum AggError {
    /// A line holds no delimiter.
    MalformedRecord,
    /// A value field is not a decimal literal this library reads.
    MalformedNumber,
}

} // verus!
