//! Why a demuxer refuses a stream.

use vstd::prelude::*;

verus! {

/// A stream error.
#[derive(Clone, Copy, Debug, PartialEq, Eq, Structural)]
pub enum DemuxError {
    /// The stream does not start with `RIFF`, a size and `XWMA`.
    NotXwma,
    /// A `data` chunk came before any `fmt ` chunk.
    DataBeforeFmt,
    /// A `fmt ` chunk is shorter than a WAVEFORMATEX.
    FmtTooSmall,
    /// The stream does not start with `FUZE`.
    NotFuz,
}

impl DemuxError {
    /// The text for the user.
    pub open spec fn text(self) -> &'static str {
        match self {
            DemuxError::NotXwma => "Not a valid xWMA (RIFF/XWMA) stream",
            DemuxError::DataBeforeFmt => "Found data chunk before a valid fmt chunk",
            DemuxError::FmtTooSmall => "fmt chunk too small to be WAVEFORMATEX",
            DemuxError::NotFuz => "Not a FUZ stream (missing FUZE magic)",
        }
    }

    /// The text for the user.
    pub fn message(&self) -> (text: &'static str)
        ensures
            text == self.text(),
    {
        match self {
            DemuxError::NotXwma => "Not a valid xWMA (RIFF/XWMA) stream",
            DemuxError::DataBeforeFmt => "Found data chunk before a valid fmt chunk",
            DemuxError::FmtTooSmall => "fmt chunk too small to be WAVEFORMATEX",
            DemuxError::NotFuz => "Not a FUZ stream (missing FUZE magic)",
        }
    }
}

} // verus!
