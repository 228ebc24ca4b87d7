//! Music-theory primitives.
pub mod chord;
pub mod interval;
pub mod phrase;
pub mod pitch;
pub mod rhythm;
pub mod scale;
pub mod validation;
