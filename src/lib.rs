//! Hides a payload in x86 machine code by choosing between equivalent,
//! equal-length encodings of the same instructions.
//!
//! A buffer of code is decoded from offset 0, one instruction after the
//! other (`decoder`); each register-to-register instruction with a direction
//! bit is a one-bit channel (`channel`); a payload travels through the
//! channels, in ascending offset order, as a 16-bit length header followed by
//! its bytes, most significant bit first (`bits`, `codec`). The proof
//! functions of `laws` state what embedding and extracting keep.
pub mod bits;
pub mod channel;
pub mod codec;
pub mod decoder;
pub mod error;
pub mod laws;
pub mod mode;

pub use bits::{payload_bits, unpack_payload, HEADER_BITS, MAX_PAYLOAD_LEN};
pub use channel::{enumerate, Channel};
pub use codec::{embed, extract, profile};
pub use decoder::{decode, instruction_length, Form, Instruction, MAX_INSN_LEN};
pub use error::StegError;
pub use mode::Bitness;
