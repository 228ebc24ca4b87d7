//! Cadenza: music theory, MIDI and MusicXML export, and the decision logic of
//! the audio daemon and its supervisor.
pub mod daemon;
pub mod laws;
pub mod midi;
pub mod musicxml;
pub mod rounding;
pub mod shell;
pub mod sorting;
pub mod text;
pub mod theory;
pub mod wasm;
