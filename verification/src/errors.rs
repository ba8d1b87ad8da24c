use vstd::prelude::*;

verus! {

/// The failures a codec call can surface.
///
/// The pipeline is a one-shot, stateless transform: any failure aborts the
/// call and returns one of these, leaving no partial state behind.
/// A configuration mismatch between encode and decode has no variant of its
/// own: the window and match parameters are fixed by contract for a session
/// (they are passed symmetrically to both directions), so decoding with the
/// wrong ones surfaces as `CorruptStream`.
#[derive(Clone, Copy, PartialEq, Eq, Structural, Debug)]
pub enum CodecError {
    /// A produced token references a symbol absent from the computed
    /// alphabet. This is an internal invariant violation: `compress` proves
    /// it never happens, so only a caller driving the bit encoder directly
    /// with a foreign codebook can see it.
    EncodeInconsistency,
    /// Decoding cannot match a bit prefix to any codeword, a codebook is not
    /// prefix-free, or a token's offset or length would read outside the
    /// bytes produced so far or past the window bounds.
    CorruptStream,
    /// The decoded symbol count is not a multiple of the fixed number of
    /// symbols per token, so token boundaries cannot be recovered.
    TokenMisalignment,
}

} // verus!
