//! What the operations of the library return, in terms of what they are given.
pub mod hosting;
pub mod music;
pub mod playing;
pub mod sessions;
