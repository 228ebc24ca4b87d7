//! The session behind the web front end: phrases that were read, kept and exported.
pub mod exports;
pub mod json;
pub mod parse;
pub mod session;
