//! The ways a mosaic run can fail.

use vstd::prelude::*;

verus! {

/// Why a run was abandoned. A run either completes or yields exactly one of
/// these; there is no partial result.
#[derive(Clone, Copy, Debug, PartialEq, Eq, Structural)]
pub enum ErrorKind {
    /// The configuration cannot be used: the palette is missing, malformed
    /// or empty, or the sizes asked for are more than this machine can hold.
    ConfigError,
    /// The source image could not be read as a pixel grid.
    ImageError,
    /// Every palette entry ran out of stock while cells were still waiting.
    InventoryExhausted,
    /// An internal rule was broken, such as taking from an empty entry.
    PreconditionViolation,
}

impl ErrorKind {
    /// The sentence that describes this kind of error.
    pub open spec fn description(self) -> Seq<char> {
        match self {
            ErrorKind::ConfigError => "the palette or the grid is not configured in a usable way"@,
            ErrorKind::ImageError => "the source image could not be read"@,
            ErrorKind::InventoryExhausted => "the palette ran out of pieces before every cell had a color"@,
            ErrorKind::PreconditionViolation => "an internal rule of the mosaic run was broken"@,
        }
    }

    /// Describes the error for the person who runs the program.
    pub fn describe(&self) -> (text: &'static str)
        ensures
            text@ == self.description(),
    {
        match self {
            ErrorKind::ConfigError => "the palette or the grid is not configured in a usable way",
            ErrorKind::ImageError => "the source image could not be read",
            ErrorKind::InventoryExhausted => "the palette ran out of pieces before every cell had a color",
            ErrorKind::PreconditionViolation => "an internal rule of the mosaic run was broken",
        }
    }
}

} // verus!
