//! The messages between the daemon and its clients.
use crate::daemon::instrument::PluginId;
use crate::theory::phrase::Phrase;
use vstd::prelude::*;

verus! {

/// A parameter of a plugin. Its values are the bits of singles.
#[derive(Debug)]
pub struct PluginParam {
    /// The plugin's own number for the parameter.
    pub id: u32,
    pub name: String,
    pub min: u32,
    pub max: u32,
    pub default: u32,
    /// The unit to display, or nothing.
    pub units: String,
    /// The number of steps; 0 for a continuous parameter.
    pub step_count: u32,
    pub automatable: bool,
    pub modulatable: bool,
}

/// A message in either direction. A parameter's value is the bits of a single.
#[allow(inconsistent_fields)]
#[derive(Debug)]
pub enum DaemonMessage {
    ScanPlugins { dir: String },
    LoadPlugin { path: String },
    UnloadPlugin { id: PluginId },
    /// Makes a loaded plugin the current instrument.
    SetInstrument { plugin_id: PluginId },
    /// Makes the built-in synth the current instrument.
    UseBuiltinSynth,
    PlayPhrase { phrase: Phrase, plugin_id: Option<PluginId> },
    Stop,
    SetTempo(u16),
    SetParam { plugin_id: PluginId, param_id: u32, value: u32 },
    Ping,
    ScannedPlugins { paths: Vec<String> },
    PluginLoaded { id: PluginId, name: String, params: Vec<PluginParam> },
    PluginUnloaded { id: PluginId },
    PluginActivated { id: PluginId },
    BuiltinSynthActivated,
    PlaybackStarted,
    PlaybackStopped,
    Pong,
    Error(String),
}

/// Whether a message only ever goes from the daemon to a client.
pub open spec fn is_outbound(m: DaemonMessage) -> bool {
    m is ScannedPlugins || m is PluginLoaded || m is PluginUnloaded || m is PluginActivated
        || m is BuiltinSynthActivated || m is PlaybackStarted || m is PlaybackStopped || m is Pong
        || m is Error
}

/// Whether a message reports an error in these words.
pub open spec fn is_error(m: DaemonMessage, text: Seq<char>) -> bool {
    m matches DaemonMessage::Error(s) && s@ == text
}

/// A message is either a client's request or goes from the daemon to a client.
pub proof fn requests_and_answers_are_told_apart(m: DaemonMessage)
    ensures
        is_outbound(m) <==> !(m is ScanPlugins || m is LoadPlugin || m is UnloadPlugin
            || m is SetInstrument || m is UseBuiltinSynth || m is PlayPhrase || m is Stop
            || m is SetTempo || m is SetParam || m is Ping),
{
}

} // verus!
