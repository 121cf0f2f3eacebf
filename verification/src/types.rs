use vstd::prelude::*;

verus! {

/// Outcome of one attempt to pull the next matching line from a source.
/// Exactly one of three things can happen: a line satisfying the active
/// condition was found, the source ran out of input, or the source failed
/// and must not be resumed.
pub enum OptionalResult<T, E> {
    /// A line satisfying the active condition was found.
    Matched(T),
    /// The source failed; the payload describes the failure.
    Failed(E),
    /// The end of the input was reached without a further match.
    Exhausted,
}

} // verus!
