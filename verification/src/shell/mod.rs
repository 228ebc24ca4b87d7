//! The decisions of the native shell: where the daemon is looked for, and when it is
//! started again.
pub mod locate;
pub mod supervisor;
