//! What a compression backend is handed for calibration.

use vstd::prelude::*;

verus! {

/// A contiguous span of the source, really compressed by the backend to
/// measure whole-file history effects that chunk-local analysis cannot see.
pub struct SpanSample<'a> {
    pub bytes: &'a [u8],
    /// Tile size for the backend's cold replay of the span; should match the
    /// sampled-chunk size so the span delta compares like regimes.
    pub chunk_len: usize,
}

/// Calibration inputs handed to a backend.
pub struct Calibration<'a> {
    /// Whether the backend may really compress some bytes to calibrate.
    pub enabled: bool,
    /// A contiguous span of the source, when one could be acquired.
    pub span: Option<SpanSample<'a>>,
}

impl<'a> Calibration<'a> {
    /// No calibration: nothing may be compressed, and there is no span.
    pub fn disabled() -> (res: Self)
        ensures
            !res.enabled,
            res.span is None,
    {
        Calibration { enabled: false, span: None }
    }
}

} // verus!
