//! Disassembly block engine: splits the address space of each section of a
//! decoded, symbolized image into blocks (section markers, labels,
//! instructions, decoder errors and runs of undecoded bytes), and renders each
//! block as a stream of coloured tokens.
pub mod section;
pub mod processor;
pub mod tokens;
pub mod hex;
pub mod blocks;
pub mod laws;
pub mod timer;
pub mod image;
