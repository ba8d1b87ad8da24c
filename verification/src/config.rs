use vstd::prelude::*;

verus! {

/// Parameters of one compression session.
///
/// `window_size` bounds both the backward distance of a match and the
/// length of a match; `min_match` is the shortest match worth encoding
/// in place of plain literals. Both are passed symmetrically to
/// `compress` and `decompress`: the codec embeds neither in its output.
#[derive(Clone, Copy, PartialEq, Eq, Structural, Debug)]
pub struct CodecConfig {
    pub window_size: u16,
    pub min_match: u16,
}

impl CodecConfig {
    /// A configuration is meaningful when both parameters are at least 1:
    /// a zero window admits no match at all, and a zero match threshold
    /// would let the encoder emit tokens that consume no input.
    pub open spec fn wf(self) -> bool {
        self.window_size >= 1 && self.min_match >= 1
    }

    pub fn new(window_size: u16, min_match: u16) -> (c: CodecConfig)
        requires
            window_size >= 1,
            min_match >= 1,
        ensures
            c == (CodecConfig { window_size, min_match }),
            c.wf(),
    {
        CodecConfig { window_size, min_match }
    }
}

} // verus!
