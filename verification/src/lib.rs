//! Exlex: a small, quoted-literal configuration format with a zero-copy reader
//! and an arena-backed mutator that can dump the document back to text.

mod bytes;
pub mod parser;
pub mod interface;
pub mod writer;
pub mod laws;
pub mod roundtrip;
pub mod parsed;

pub use interface::{Exlex, ExlexSection};
pub use parser::{ErrorCode, ExlexError, Result};
pub use writer::ExlexMutator;
