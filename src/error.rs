use vstd::prelude::*;

verus! {

/// Why a summary could not be computed.
#[derive(Clone, Copy, Debug, PartialEq, Eq, Structural)]
pub enum StatsError {
    /// The operation is undefined on an empty sequence.
    EmptyInput,
    /// Two sequences that are read pairwise differ in length.
    LengthMismatch,
    /// The bin width is not positive, the range is empty or inverted, or
    /// the bin edges do not fit in the sample type.
    InvalidRange,
}

} // verus!
