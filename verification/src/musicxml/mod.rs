//! MusicXML scores.
pub mod renderer;
pub mod score;
pub mod segments;
