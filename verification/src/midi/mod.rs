//! Standard MIDI files: their model, a writer and a reader.
pub mod error;
pub mod file;
pub mod reader;
pub mod roundtrip;
pub mod writer;
