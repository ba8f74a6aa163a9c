//! A recursive disassembler for 65816 cartridge images.
//!
//! The crate recovers an approximate control-flow graph from a raw image by
//! following the reset and interrupt vectors and user-supplied jump-table
//! hints, and renders the result as a bank-by-bank assembly listing.

pub mod cpu;
pub mod dis;
pub mod driver;
pub mod listing;
pub mod machine;
pub mod rom;
pub mod text;
