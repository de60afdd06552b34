use vstd::prelude::*;

use crate::error::StegError;

verus! {

/// The operating mode that governs the instruction grammar.
#[derive(Clone, Copy, Debug, PartialEq, Eq, Structural)]
pub enum Bitness {
    Sixteen,
    ThirtyTwo,
    SixtyFour,
}

impl Bitness {
    /// The mode for a width in bits; only 16, 32 and 64 name a mode.
    pub fn from_width(width: u32) -> (r: Result<Bitness, StegError>)
        ensures
            width == 16 <==> r == Ok::<Bitness, StegError>(Bitness::Sixteen),
            width == 32 <==> r == Ok::<Bitness, StegError>(Bitness::ThirtyTwo),
            width == 64 <==> r == Ok::<Bitness, StegError>(Bitness::SixtyFour),
            (width != 16 && width != 32 && width != 64) <==> r == Err::<Bitness, StegError>(
                StegError::UnsupportedBitness,
            ),
    {
        if width == 16 {
            Ok(Bitness::Sixteen)
        } else if width == 32 {
            Ok(Bitness::ThirtyTwo)
        } else if width == 64 {
            Ok(Bitness::SixtyFour)
        } else {
            Err(StegError::UnsupportedBitness)
        }
    }

    /// The width of the mode in bits.
    pub fn width(&self) -> (r: u32)
        ensures
            *self == Bitness::Sixteen ==> r == 16,
            *self == Bitness::ThirtyTwo ==> r == 32,
            *self == Bitness::SixtyFour ==> r == 64,
    {
        match self {
            Bitness::Sixteen => 16,
            Bitness::ThirtyTwo => 32,
            Bitness::SixtyFour => 64,
        }
    }
}

} // verus!
