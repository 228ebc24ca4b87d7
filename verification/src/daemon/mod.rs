//! The audio daemon: command timing, instruments and its control protocol.
pub mod audio;
pub mod host;
pub mod instrument;
pub mod ipc;
pub mod output;
pub mod params;
pub mod paths;
pub mod plugin;
pub mod registry;
pub mod ring;
pub mod scheduler;
pub mod server;
pub mod synth;
