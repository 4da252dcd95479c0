use vstd::prelude::*;

verus! {

/// Errors of the codec. `VerificationFailure` marks an internal arithmetic
/// invariant violation rather than bad user input.
#[derive(Clone, Copy, Debug, PartialEq, Eq, Structural)]
pub enum BabelError {
    /// Text handed to the byte decoder contains a pair that is not the
    /// transcription of any byte value.
    InvalidAlphabet,
    /// A page does not have exactly `LENGTH_OF_PAGE` characters.
    InvalidPageLength,
    /// An address cannot be parsed into its five fields, or its recovered
    /// page number falls outside the representable range.
    InvalidAddress,
    /// An internal arithmetic invariant was violated: a recovered page
    /// number that fits the combined space but is too large for any page,
    /// or a failed self-check. Encoding never produces either.
    VerificationFailure,
}

} // verus!
