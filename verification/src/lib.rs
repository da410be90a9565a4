//! Offline decoder for a RISC-V processor-trace byte stream: a bit-level
//! packet decoder, an instruction-successor oracle for the RV32IC
//! control-flow subset, a binary image index, and a path reconstructor that
//! together turn a compressed hardware trace and the binaries it was taken
//! from into the sequence of program-counter values the processor visited.

pub mod image;
pub mod inst_decoder;
pub mod reconstruct;
pub mod trace_decoder;

pub use image::get_instruction;
pub use reconstruct::parse_trace;

use vstd::prelude::*;

verus! {

/// The single error of the crate: the trace stream violates an invariant
/// that cannot be recovered from (see the packet decoder and reconstructor).
#[derive(Debug, Clone, Copy)]
pub enum Error {
    Corrupted,
}

} // verus!
