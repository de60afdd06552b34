use vstd::prelude::*;

verus! {

/// Why an operation on a code buffer failed; every failure is final.
#[derive(Clone, Copy, Debug, PartialEq, Eq, Structural)]
pub enum StegError {
    /// The requested width is not 16, 32 or 64.
    UnsupportedBitness,
    /// No instruction of the supported grammar starts at this offset, or the
    /// one that starts there runs past the end of the buffer.
    Decode { offset: usize },
    /// The header and payload need more channels than the buffer has.
    CapacityExceeded { requested: usize, available: usize },
    /// The length read from the header needs more channels than the buffer has.
    TruncatedPayload,
}

impl StegError {
    /// A human-readable description of the error.
    pub fn message(&self) -> String {
        match self {
            StegError::UnsupportedBitness => "unsupported bitness: expected 16, 32 or 64".to_string(),
            StegError::Decode { offset: _ } => "undecodable instruction in the code region".to_string(),
            StegError::CapacityExceeded { requested: _, available: _ } => "payload exceeds the binary's steganographic capacity".to_string(),
            StegError::TruncatedPayload => "declared payload length exceeds the binary's capacity".to_string(),
        }
    }
}

} // verus!
