//! What the daemon does with a client's messages.
use crate::daemon::host::{host_error_text, HostError, LoadedPlugin};
use crate::daemon::instrument::PluginId;
use crate::daemon::ipc::{is_error, is_outbound, DaemonMessage};
use crate::text::{decimal, push_decimal};
use crate::theory::phrase::Phrase;
use vstd::prelude::*;
use vstd::string::*;

verus! {

/// Why a request is refused.
#[derive(Debug, Clone, Copy, PartialEq, Eq, Structural)]
pub enum Refusal {
    EngineUnavailable,
    NotLoaded(PluginId),
    SwapFailed,
}

/// The wording of a refusal.
pub open spec fn refusal_text(r: Refusal) -> Seq<char> {
    match r {
        Refusal::EngineUnavailable => "audio engine unavailable"@,
        Refusal::NotLoaded(id) => "plugin "@ + decimal(id as nat)
            + " not loaded or already active"@,
        Refusal::SwapFailed => "instrument swap failed"@,
    }
}

/// What is to be done about a message. The daemon answers at once, or performs
/// the action and then answers with what came of it.
pub enum Action {
    /// Answer with this.
    Pong,
    /// Answer with a refusal, and go on to the next message.
    Refuse(Refusal),
    /// No answer is due.
    Nothing,
    /// Stop what plays, where `cancel` says so, then play the phrase and say that
    /// it started.
    Play { phrase: Phrase, cancel: bool },
    /// Stop what plays, silence the engine where there is one, and say so.
    Stop { cancel: bool, silence: bool },
    /// Look for plugins.
    Scan { dir: String },
    /// Load a plugin for the engine's sample rate.
    Load { path: String },
    /// Forget a plugin.
    Unload { id: PluginId },
    /// Make a loaded plugin the current instrument.
    Activate { id: PluginId },
    /// Make the built-in synth the current instrument.
    ActivateBuiltin,
    /// Pass a parameter's value to the current instrument. No answer is due.
    SetParam { param_id: u32, value: u32 },
}

/// What the daemon knows of a client's connection.
#[derive(Debug, Clone, Copy, PartialEq, Eq, Structural)]
pub struct Connection {
    /// Whether there is an audio engine.
    pub engine: bool,
    /// Whether a phrase was started and not stopped since.
    pub playing: bool,
}

/// Whether a message asks for something that only an engine can do.
pub open spec fn needs_engine(m: DaemonMessage) -> bool {
    m is PlayPhrase || m is LoadPlugin || m is SetInstrument || m is UseBuiltinSynth
        || m is SetParam
}

/// The action on a message.
pub open spec fn action_on(c: Connection, m: DaemonMessage) -> Action {
    if needs_engine(m) && !c.engine {
        Action::Refuse(Refusal::EngineUnavailable)
    } else {
        match m {
            DaemonMessage::Ping => Action::Pong,
            DaemonMessage::PlayPhrase { phrase, plugin_id } => Action::Play {
                phrase,
                cancel: c.playing,
            },
            DaemonMessage::Stop => Action::Stop { cancel: c.playing, silence: c.engine },
            DaemonMessage::ScanPlugins { dir } => Action::Scan { dir },
            DaemonMessage::LoadPlugin { path } => Action::Load { path },
            DaemonMessage::UnloadPlugin { id } => Action::Unload { id },
            DaemonMessage::SetInstrument { plugin_id } => Action::Activate { id: plugin_id },
            DaemonMessage::UseBuiltinSynth => Action::ActivateBuiltin,
            DaemonMessage::SetParam { plugin_id, param_id, value } => Action::SetParam {
                param_id,
                value,
            },
            _ => Action::Nothing,
        }
    }
}

/// The connection after a message.
pub open spec fn connection_after(c: Connection, m: DaemonMessage) -> Connection {
    if m is PlayPhrase && c.engine {
        Connection { playing: true, ..c }
    } else if m is Stop {
        Connection { playing: false, ..c }
    } else {
        c
    }
}

impl Connection {
    pub fn new(engine: bool) -> (r: Self)
        ensures
            r == (Connection { engine, playing: false }),
    {
        Connection { engine, playing: false }
    }

    /// Decides what is to be done about a message.
    pub fn receive(&mut self, msg: DaemonMessage) -> (r: Action)
        ensures
            r == action_on(*old(self), msg),
            *final(self) == connection_after(*old(self), msg),
    {
        match msg {
            DaemonMessage::Ping => Action::Pong,
            DaemonMessage::PlayPhrase { phrase, plugin_id: _ } => {
                if !self.engine {
                    return Action::Refuse(Refusal::EngineUnavailable);
                }
                let cancel = self.playing;
                self.playing = true;
                Action::Play { phrase, cancel }
            },
            DaemonMessage::Stop => {
                let cancel = self.playing;
                self.playing = false;
                Action::Stop { cancel, silence: self.engine }
            },
            DaemonMessage::SetTempo(_) => Action::Nothing,
            DaemonMessage::ScanPlugins { dir } => Action::Scan { dir },
            DaemonMessage::LoadPlugin { path } => {
                if !self.engine {
                    return Action::Refuse(Refusal::EngineUnavailable);
                }
                Action::Load { path }
            },
            DaemonMessage::UnloadPlugin { id } => Action::Unload { id },
            DaemonMessage::SetInstrument { plugin_id } => {
                if !self.engine {
                    return Action::Refuse(Refusal::EngineUnavailable);
                }
                Action::Activate { id: plugin_id }
            },
            DaemonMessage::UseBuiltinSynth => {
                if !self.engine {
                    return Action::Refuse(Refusal::EngineUnavailable);
                }
                Action::ActivateBuiltin
            },
            DaemonMessage::SetParam { plugin_id: _, param_id, value } => {
                if !self.engine {
                    return Action::Refuse(Refusal::EngineUnavailable);
                }
                Action::SetParam { param_id, value }
            },
            _ => Action::Nothing,
        }
    }

    /// What is left to do when the client has gone: whether to stop what plays,
    /// and whether to silence the engine.
    pub fn close(&mut self) -> (r: (bool, bool))
        ensures
            r == (old(self).playing, old(self).engine),
            *final(self) == (Connection { playing: false, ..*old(self) }),
    {
        let cancel = self.playing;
        self.playing = false;
        (cancel, self.engine)
    }
}

/// An error in some words.
fn error_of(head: &str, detail: &str) -> (r: DaemonMessage)
    ensures
        is_error(r, head@ + detail@),
{
    let mut s = head.to_owned();
    s.append(detail);
    DaemonMessage::Error(s)
}

/// The answer to a message that cannot be read.
pub fn bad_message(detail: &str) -> (r: DaemonMessage)
    ensures
        is_error(r, "bad message: "@ + detail@),
{
    error_of("bad message: ", detail)
}

/// The answer to a request that is refused.
pub fn refusal(why: Refusal) -> (r: DaemonMessage)
    ensures
        is_error(r, refusal_text(why)),
{
    let s = match why {
        Refusal::EngineUnavailable => "audio engine unavailable".to_owned(),
        Refusal::NotLoaded(id) => {
            let mut s = "plugin ".to_owned();
            push_decimal(&mut s, id as u64);
            s.append(" not loaded or already active");
            s
        },
        Refusal::SwapFailed => "instrument swap failed".to_owned(),
    };
    DaemonMessage::Error(s)
}

/// What a task on another thread came to: what it returned, or why it did not.
pub enum TaskOutcome<T> {
    Done(Result<T, HostError>),
    Failed(String),
}

/// The answer after looking for plugins.
pub fn scan_reply(outcome: TaskOutcome<Vec<String>>) -> (r: DaemonMessage)
    ensures
        match outcome {
            TaskOutcome::Done(Ok(paths)) => r == (DaemonMessage::ScannedPlugins { paths }),
            TaskOutcome::Done(Err(e)) => is_error(r, host_error_text(e@)),
            TaskOutcome::Failed(why) => is_error(r, "scan task: "@ + why@),
        },
{
    match outcome {
        TaskOutcome::Done(Ok(paths)) => DaemonMessage::ScannedPlugins { paths },
        TaskOutcome::Done(Err(e)) => DaemonMessage::Error(e.message()),
        TaskOutcome::Failed(why) => error_of("scan task: ", why.as_str()),
    }
}

/// The answer after loading a plugin.
pub fn load_reply(outcome: TaskOutcome<LoadedPlugin>) -> (r: DaemonMessage)
    ensures
        match outcome {
            TaskOutcome::Done(Ok(p)) => r == (DaemonMessage::PluginLoaded {
                id: p.id,
                name: p.name,
                params: p.params,
            }),
            TaskOutcome::Done(Err(e)) => is_error(r, host_error_text(e@)),
            TaskOutcome::Failed(why) => is_error(r, "load task: "@ + why@),
        },
{
    match outcome {
        TaskOutcome::Done(Ok(p)) => {
            let LoadedPlugin { id, name, params } = p;
            DaemonMessage::PluginLoaded { id, name, params }
        },
        TaskOutcome::Done(Err(e)) => DaemonMessage::Error(e.message()),
        TaskOutcome::Failed(why) => error_of("load task: ", why.as_str()),
    }
}

/// The answer after forgetting a plugin.
pub fn unload_reply(id: PluginId, outcome: Result<(), HostError>) -> (r: DaemonMessage)
    ensures
        match outcome {
            Ok(_) => r == (DaemonMessage::PluginUnloaded { id }),
            Err(e) => is_error(r, host_error_text(e@)),
        },
{
    match outcome {
        Ok(_) => DaemonMessage::PluginUnloaded { id },
        Err(e) => DaemonMessage::Error(e.message()),
    }
}

/// The answer after a plugin was to become the instrument: `swapped` is `None`
/// where its instrument was not to be had, else whether the engine took it.
pub fn activation_reply(id: PluginId, swapped: Option<bool>) -> (r: DaemonMessage)
    ensures
        match swapped {
            None => is_error(r, refusal_text(Refusal::NotLoaded(id))),
            Some(true) => r == (DaemonMessage::PluginActivated { id }),
            Some(false) => is_error(r, refusal_text(Refusal::SwapFailed)),
        },
{
    match swapped {
        None => refusal(Refusal::NotLoaded(id)),
        Some(taken) => if taken {
            DaemonMessage::PluginActivated { id }
        } else {
            refusal(Refusal::SwapFailed)
        },
    }
}

/// The answer after the built-in synth was to become the instrument.
pub fn builtin_reply(swapped: bool) -> (r: DaemonMessage)
    ensures
        swapped ==> r == DaemonMessage::BuiltinSynthActivated,
        !swapped ==> is_error(r, refusal_text(Refusal::SwapFailed)),
{
    if swapped {
        DaemonMessage::BuiltinSynthActivated
    } else {
        refusal(Refusal::SwapFailed)
    }
}

/// The answer that follows an action at once, or when it has been set going, and whether
/// the connection ends where that answer cannot be delivered. Other actions are answered
/// with what comes of them, or not at all.
pub open spec fn is_prompt_reply(a: Action, r: Option<(DaemonMessage, bool)>) -> bool {
    match a {
        Action::Pong => r == Some((DaemonMessage::Pong, true)),
        Action::Play { .. } => r == Some((DaemonMessage::PlaybackStarted, true)),
        Action::Stop { .. } => r == Some((DaemonMessage::PlaybackStopped, true)),
        Action::Refuse(why) => r matches Some((m, ends)) && is_error(m, refusal_text(why)) && ends
            == ends_undelivered(why),
        _ => r is None,
    }
}

/// Whether a connection ends where a refusal cannot be delivered. Only the one that
/// follows an attempt to swap instruments is owed; the client may miss the others.
pub open spec fn ends_undelivered(why: Refusal) -> bool {
    why is SwapFailed
}

/// The answer that follows an action at once, and whether the connection ends where it
/// cannot be delivered.
pub fn prompt_reply(action: &Action) -> (r: Option<(DaemonMessage, bool)>)
    ensures
        is_prompt_reply(*action, r),
{
    match action {
        Action::Pong => Some((DaemonMessage::Pong, true)),
        Action::Play { .. } => Some((DaemonMessage::PlaybackStarted, true)),
        Action::Stop { .. } => Some((DaemonMessage::PlaybackStopped, true)),
        Action::Refuse(why) => Some((refusal(*why), refusal_ends(*why))),
        _ => None,
    }
}

/// Whether a connection ends where a refusal cannot be delivered.
pub fn refusal_ends(why: Refusal) -> (r: bool)
    ensures
        r == ends_undelivered(why),
{
    match why {
        Refusal::SwapFailed => true,
        _ => false,
    }
}

/// Without an engine, everything that needs one is refused and nothing starts to
/// play.
pub proof fn no_engine_no_sound(c: Connection, m: DaemonMessage)
    requires
        !c.engine,
    ensures
        needs_engine(m) ==> action_on(c, m) == Action::Refuse(Refusal::EngineUnavailable),
        !(action_on(c, m) is Play),
        !c.playing ==> !connection_after(c, m).playing,
{
}

/// Messages that only the daemon sends are passed over.
pub proof fn outbound_is_ignored(c: Connection, m: DaemonMessage)
    requires
        is_outbound(m),
    ensures
        action_on(c, m) == Action::Nothing,
        connection_after(c, m) == c,
{
}

/// A phrase that plays is cancelled before another starts, and stopping leaves
/// nothing playing.
pub proof fn at_most_one_phrase_plays(c: Connection, m: DaemonMessage)
    ensures
        action_on(c, m) matches Action::Play { cancel, .. } ==> cancel == c.playing
            && connection_after(c, m).playing,
        m is Stop ==> !connection_after(c, m).playing && (action_on(
            c,
            m,
        ) matches Action::Stop { cancel, silence } && cancel == c.playing && silence == c.engine),
{
}

/// With an engine every request is met with what it asks for, about what it names: to
/// play its phrase, to load its path, to activate its plugin, to set its parameter to its
/// value. Looking for plugins in its directory and forgetting its plugin need no engine.
pub proof fn requests_are_met(c: Connection, m: DaemonMessage)
    ensures
        m matches DaemonMessage::ScanPlugins { dir } ==> (action_on(c, m) matches Action::Scan {
            dir: d,
        } && d == dir),
        m matches DaemonMessage::UnloadPlugin { id } ==> (action_on(c, m) matches Action::Unload {
            id: i,
        } && i == id),
        m is Ping ==> action_on(c, m) is Pong,
        m is SetTempo ==> action_on(c, m) is Nothing,
        c.engine ==> {
            &&& m matches DaemonMessage::PlayPhrase { phrase, plugin_id } ==> (action_on(
                c,
                m,
            ) matches Action::Play { phrase: p, .. } && p == phrase)
            &&& m matches DaemonMessage::LoadPlugin { path } ==> (action_on(
                c,
                m,
            ) matches Action::Load { path: p } && p == path)
            &&& m matches DaemonMessage::SetInstrument { plugin_id } ==> (action_on(
                c,
                m,
            ) matches Action::Activate { id } && id == plugin_id)
            &&& m is UseBuiltinSynth ==> action_on(c, m) is ActivateBuiltin
            &&& m matches DaemonMessage::SetParam { plugin_id, param_id, value } ==> (action_on(
                c,
                m,
            ) matches Action::SetParam { param_id: p, value: v } && p == param_id && v == value)
        },
        !c.engine ==> (m is PlayPhrase || m is LoadPlugin || m is SetInstrument
            || m is UseBuiltinSynth || m is SetParam ==> action_on(c, m) == Action::Refuse(
            Refusal::EngineUnavailable,
        )),
        !(m is PlayPhrase) && !(m is Stop) ==> connection_after(c, m) == c,
        connection_after(c, m).engine == c.engine,
{
}

/// Refusals are told apart by their words, and one about a plugin names it.
pub proof fn refusals_name_their_reason(id: PluginId)
    ensures
        refusal_text(Refusal::EngineUnavailable) == "audio engine unavailable"@,
        refusal_text(Refusal::SwapFailed) == "instrument swap failed"@,
        refusal_text(Refusal::NotLoaded(id)) == "plugin "@ + decimal(id as nat)
            + " not loaded or already active"@,
        ends_undelivered(Refusal::SwapFailed),
        !ends_undelivered(Refusal::EngineUnavailable),
        !ends_undelivered(Refusal::NotLoaded(id)),
{
}

} // verus!
