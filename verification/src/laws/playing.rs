//! Laws of the synth, of the daemon's control protocol and of its supervisor.
use crate::daemon::audio::{
    frames_in, AudioCmd, AudioEngine, PendingQueue, Renderer, TimedCmd,
};
use crate::daemon::host::{HostError, LoadedPlugin};
use crate::daemon::instrument::{Instrument, PluginId};
use crate::daemon::ipc::DaemonMessage;
use crate::daemon::registry::Registry;
use crate::daemon::server::{
    activation_reply, bad_message, builtin_reply, load_reply, prompt_reply, refusal, refusal_ends,
    scan_reply, unload_reply, Action, Connection, Refusal, TaskOutcome,
};
use crate::daemon::synth::{
    applied_at, commands_land_on_their_frames, frame_after, render_plan, timed_from, PolySynth,
    RenderStep, Voice,
};
use crate::shell::locate::{daemon_binary_name, daemon_search_order, first_place};
use crate::shell::supervisor::{
    ChildStatus, DaemonState, DaemonSupervisor, SupervisorConfig, SupervisorView,
};
use crate::text::decimal;
use vstd::prelude::*;

verus! {

/// A new synth has sixteen voices, none of which sounds.
pub proof fn new_synth_is_silent(rate: u32, s: PolySynth, n: usize, i: usize, v: Voice)
    requires
        call_ensures(PolySynth::new, (rate,), s),
        call_ensures(PolySynth::voice_count, (&s,), n),
        i < n,
        call_ensures(PolySynth::voice, (&s, i), v),
    ensures
        n == 16,
        s.rate() == rate,
        !v.active && !v.gate && v.level == 0,
{
}

/// Whether a voice is the one that a new note takes: the first that is free, or the first
/// of the quietest where none is.
pub open spec fn is_the_one_to_take(vs: Seq<Voice>, i: int) -> bool {
    &&& 0 <= i < vs.len()
    &&& !vs[i].active ==> forall|j: int| 0 <= j < i ==> (#[trigger] vs[j]).active
    &&& vs[i].active ==> forall|j: int|
        0 <= j < vs.len() ==> (#[trigger] vs[j]).active && vs[i].level <= vs[j].level && (j < i
            ==> vs[i].level < vs[j].level)
}

/// Beginning a note lets one voice play it, and leaves the others alone.
pub proof fn note_is_begun(pitch: u8, velocity: u8, r: usize)
    ensures
        forall|s: &mut PolySynth| #[trigger]
            call_ensures(PolySynth::note_on, (s, pitch, velocity), r) && (*s).voices().len() > 0
                ==> {
                let (a, b) = ((*s).voices(), (*final(s)).voices());
                let v = b[r as int];
                &&& is_the_one_to_take(a, r as int)
                &&& v.active && v.gate && v.pitch == pitch && v.velocity == velocity && v.level
                    == a[r as int].level
                &&& b.len() == a.len()
                &&& forall|j: int| 0 <= j < a.len() && j != r ==> #[trigger] b[j] == a[j]
                &&& (*final(s)).rate() == (*s).rate()
            },
{
    assert forall|s: &mut PolySynth| #[trigger]
        call_ensures(PolySynth::note_on, (s, pitch, velocity), r) && (*s).voices().len()
            > 0 implies is_the_one_to_take((*s).voices(), r as int) by {
        let a = (*s).voices();
        let i = r as int;
        crate::daemon::synth::note_takes_a_free_or_the_quietest_voice(a, i, pitch, velocity, 0);
        assert forall|j: int| 0 <= j < a.len() implies (!(#[trigger] a[j]).active ==> !a[i].active
            && i <= j) && (a[i].active ==> a[j].active && a[i].level <= a[j].level && (j < i
            ==> a[i].level < a[j].level)) by {
            crate::daemon::synth::note_takes_a_free_or_the_quietest_voice(
                a,
                i,
                pitch,
                velocity,
                j,
            );
        }
    }
}

/// Whether a voice differs from what it was in its gate alone.
pub open spec fn same_but_gate(a: Voice, b: Voice) -> bool {
    a.active == b.active && a.pitch == b.pitch && a.velocity == b.velocity && a.level == b.level
}

/// Ending a note closes the gates of the voices that play it, and no others.
pub proof fn note_is_ended(pitch: u8)
    ensures
        forall|s: &mut PolySynth| #[trigger]
            call_ensures(PolySynth::note_off, (s, pitch), ()) ==> {
                let (a, b) = ((*s).voices(), (*final(s)).voices());
                &&& b.len() == a.len()
                &&& forall|j: int|
                    0 <= j < a.len() ==> same_but_gate(a[j], #[trigger] b[j]) && b[j].gate == (
                    a[j].gate && !(a[j].active && a[j].pitch == pitch))
            },
{
}

/// Ending all notes closes the gates of all voices.
pub proof fn all_notes_are_ended()
    ensures
        forall|s: &mut PolySynth| #[trigger]
            call_ensures(PolySynth::all_notes_off, (s,), ()) ==> {
                let (a, b) = ((*s).voices(), (*final(s)).voices());
                &&& b.len() == a.len()
                &&& forall|j: int|
                    0 <= j < a.len() ==> same_but_gate(a[j], #[trigger] b[j]) && !b[j].gate
            },
{
}

/// A buffer is rendered whole, and every command takes effect on its frame.
pub proof fn plan_renders_the_buffer(
    frames: usize,
    events: &[(u32, AudioCmd)],
    r: Vec<RenderStep>,
)
    requires
        frames > 0,
        call_ensures(render_plan, (frames, events), r),
        forall|k: int| 0 <= k < events@.len() ==> (#[trigger] events@[k]).0 < frames,
        forall|k: int, m: int|
            0 <= k < m < events@.len() ==> (#[trigger] events@[k]).0 <= (#[trigger] events@[m]).0,
    ensures
        frame_after(r@, 0) == frames,
        applied_at(r@, 0) == timed_from(events@, 0),
{
    commands_land_on_their_frames(events@, frames as int, 0, 0);
}

/// Whether a queue is another one with a command behind those of its frame and before
/// those of later frames.
pub open spec fn is_put_in_place(a: Seq<TimedCmd>, b: Seq<TimedCmd>, tc: TimedCmd) -> bool {
    exists|k: int| #[trigger]
        stands_at(a, tc.frame, k) && b == a.insert(k, tc)
}

/// Whether a place divides a queue into the commands up to a frame and the later ones.
pub open spec fn stands_at(q: Seq<TimedCmd>, frame: u64, k: int) -> bool {
    &&& 0 <= k <= q.len()
    &&& forall|j: int| 0 <= j < k ==> (#[trigger] q[j]).frame <= frame
    &&& forall|j: int| k <= j < q.len() ==> (#[trigger] q[j]).frame > frame
}

/// A command that is put into the queue stands behind those of its frame and before those
/// of later frames.
pub proof fn command_is_put_in_its_place(tc: TimedCmd)
    ensures
        forall|q: &mut PendingQueue| #[trigger]
            call_ensures(PendingQueue::insert, (q, tc), ()) && in_frame_order((*q)@)
                ==> is_put_in_place((*q)@, (*final(q))@, tc),
{
    assert forall|q: &mut PendingQueue| #[trigger]
        call_ensures(PendingQueue::insert, (q, tc), ()) && in_frame_order(
            (*q)@,
        ) implies is_put_in_place((*q)@, (*final(q))@, tc) by {
        let a = (*q)@;
        let k = place_of(a, tc.frame, a.len() as int);
        assert(stands_at(a, tc.frame, k));
        crate::sorting::inserted_at(a, tc, k);
    }
}

proof fn place_of(q: Seq<TimedCmd>, frame: u64, n: int) -> (k: int)
    requires
        in_frame_order(q),
        0 <= n <= q.len(),
        forall|j: int| n <= j < q.len() ==> (#[trigger] q[j]).frame > frame,
    ensures
        0 <= k <= q.len(),
        forall|j: int| 0 <= j < k ==> (#[trigger] q[j]).frame <= frame,
        forall|j: int| k <= j < q.len() ==> (#[trigger] q[j]).frame > frame,
    decreases n,
{
    if n > 0 && q[n - 1].frame > frame {
        place_of(q, frame, n - 1)
    } else {
        n
    }
}

/// Whether commands stand in the order of their frames.
pub open spec fn in_frame_order(q: Seq<TimedCmd>) -> bool {
    forall|i: int, j: int|
        0 <= i < j < q.len() ==> (#[trigger] q[i]).frame <= (#[trigger] q[j]).frame
}

/// A buffer takes the commands of its frames from the queue, each at its place, late ones at
/// once, and leaves the others.
pub proof fn buffer_takes_its_commands(now: u64, frames: u32)
    requires
        frames > 0,
        now + frames <= u64::MAX,
    ensures
        forall|q: &mut PendingQueue, out: &mut Vec<(u32, AudioCmd)>| #[trigger]
            call_ensures(PendingQueue::take_due, (q, now, frames, out), ()) && in_frame_order((*q)@)
                ==> takes_due((*q)@, (*final(q))@, (*final(out))@, now, frames),
{
    assert forall|q: &mut PendingQueue, out: &mut Vec<(u32, AudioCmd)>| #[trigger]
        call_ensures(PendingQueue::take_due, (q, now, frames, out), ()) && in_frame_order(
            (*q)@,
        ) implies takes_due((*q)@, (*final(q))@, (*final(out))@, now, frames) by {
        let (a, b) = ((*q)@, (*final(q))@);
        let due = (*final(out))@;
        if a.len() > 0 {
            crate::daemon::audio::due_commands_are_taken(a, now, frames, 0);
        }
        assert forall|i: int| 0 <= i < a.len() implies {
            let n = due.len() as int;
            &&& n <= a.len()
            &&& (#[trigger] a[i]).frame < now + frames <==> i < n
            &&& i < n ==> due[i].1 == a[i].cmd && (a[i].frame >= now ==> now + due[i].0
                == a[i].frame) && (a[i].frame < now ==> due[i].0 == 0)
        } by {
            crate::daemon::audio::due_commands_are_taken(a, now, frames, i);
        }
    }
}

/// Whether a buffer took what is due from a queue.
pub open spec fn takes_due(
    a: Seq<TimedCmd>,
    b: Seq<TimedCmd>,
    due: Seq<(u32, AudioCmd)>,
    now: u64,
    frames: u32,
) -> bool {
    let n = due.len() as int;
    &&& n <= a.len()
    &&& b == a.skip(n)
    &&& forall|i: int| 0 <= i < a.len() ==> ((#[trigger] a[i]).frame < now + frames <==> i < n)
    &&& forall|i: int|
        0 <= i < n ==> (#[trigger] due[i]).1 == a[i].cmd && (a[i].frame >= now ==> now + due[i].0
            == a[i].frame) && (a[i].frame < now ==> due[i].0 == 0)
}

/// The frames of a buffer have a sample for every channel.
pub proof fn buffer_holds_its_frames(samples: usize, channels: usize, r: usize)
    requires
        channels > 0,
        call_ensures(frames_in, (samples, channels), r),
    ensures
        r * channels <= samples < (r + 1) * channels,
{
    crate::daemon::audio::frame_has_a_sample_for_every_channel(samples as nat, channels as nat);
}

/// A client's requests become the actions that they ask for, those that need an engine only
/// where there is one. Playing stops what plays, and afterwards something plays; stopping
/// stops it. Nothing else changes what plays.
pub proof fn requests_become_actions(m: DaemonMessage, r: Action)
    ensures
        forall|c: &mut Connection| #[trigger]
            call_ensures(Connection::receive, (c, m), r) ==> is_met(*c, *final(c), m, r),
{
}

/// Whether a message leads to the action that it asks for.
pub open spec fn is_met(c: Connection, d: Connection, m: DaemonMessage, r: Action) -> bool {
    &&& d.engine == c.engine
    &&& m is Ping ==> r is Pong
    &&& m matches DaemonMessage::ScanPlugins { dir } ==> r == (Action::Scan { dir })
    &&& m matches DaemonMessage::UnloadPlugin { id } ==> r == (Action::Unload { id })
    &&& m is Stop ==> r == (Action::Stop { cancel: c.playing, silence: c.engine }) && !d.playing
    &&& m is SetTempo ==> r is Nothing
    &&& !c.engine && (m is PlayPhrase || m is LoadPlugin || m is SetInstrument
        || m is UseBuiltinSynth || m is SetParam) ==> r == Action::Refuse(
        Refusal::EngineUnavailable,
    ) && d.playing == c.playing
    &&& c.engine ==> {
        &&& m matches DaemonMessage::PlayPhrase { phrase, plugin_id } ==> r == (Action::Play {
            phrase,
            cancel: c.playing,
        }) && d.playing
        &&& m matches DaemonMessage::LoadPlugin { path } ==> r == (Action::Load { path })
        &&& m matches DaemonMessage::SetInstrument { plugin_id } ==> r == (Action::Activate {
            id: plugin_id,
        })
        &&& m is UseBuiltinSynth ==> r is ActivateBuiltin
        &&& m matches DaemonMessage::SetParam { plugin_id, param_id, value } ==> r == (
        Action::SetParam { param_id, value })
    }
    &&& !(m is PlayPhrase) && !(m is Stop) ==> d.playing == c.playing
}

/// A client that leaves stops what it plays; the engine is silenced where there is one.
pub proof fn closing_stops_what_plays(r: (bool, bool))
    ensures
        forall|c: &mut Connection| #[trigger]
            call_ensures(Connection::close, (c,), r) ==> r.0 == (*c).playing && r.1 == (*c).engine
                && !(*final(c)).playing && (*final(c)).engine == (*c).engine,
{
}

/// Whether a message is an error with some words.
pub open spec fn says(m: DaemonMessage, words: Seq<char>) -> bool {
    m matches DaemonMessage::Error(s) && s@ == words
}

/// What is due at once is answered at once: a ping with a pong, playing and stopping with
/// what came of them, a refusal with its reason. Nothing else is.
pub proof fn actions_are_answered(a: Action, r: Option<(DaemonMessage, bool)>)
    requires
        call_ensures(prompt_reply, (&a,), r),
    ensures
        a is Pong ==> r == Some((DaemonMessage::Pong, true)),
        a is Play ==> r == Some((DaemonMessage::PlaybackStarted, true)),
        a is Stop ==> r == Some((DaemonMessage::PlaybackStopped, true)),
        a == Action::Refuse(Refusal::EngineUnavailable) ==> (r matches Some(x) && says(
            x.0,
            "audio engine unavailable"@,
        ) && !x.1),
        a == Action::Refuse(Refusal::SwapFailed) ==> (r matches Some(x) && says(
            x.0,
            "instrument swap failed"@,
        ) && x.1),
        r is Some ==> a is Pong || a is Play || a is Stop || a is Refuse,
{
}

/// A refusal says why, and only a failed swap ends the connection where it cannot be told.
pub proof fn refusal_says_why(id: PluginId, why: Refusal, m: DaemonMessage, ends: bool)
    requires
        call_ensures(refusal, (why,), m),
        call_ensures(refusal_ends, (why,), ends),
    ensures
        why is EngineUnavailable ==> says(m, "audio engine unavailable"@) && !ends,
        why is SwapFailed ==> says(m, "instrument swap failed"@) && ends,
        why matches Refusal::NotLoaded(id) ==> says(
            m,
            "plugin "@ + decimal(id as nat) + " not loaded or already active"@,
        ) && !ends,
{
}

/// A scan is answered with what it found, a loading with the plugin, an unloading with its
/// number; what failed is answered with an error.
pub proof fn outcomes_are_answered(
    detail: &str,
    bad: DaemonMessage,
    scanned: TaskOutcome<Vec<String>>,
    scan: DaemonMessage,
    loaded: TaskOutcome<LoadedPlugin>,
    load: DaemonMessage,
    id: PluginId,
    unloaded: Result<(), HostError>,
    unload: DaemonMessage,
)
    requires
        call_ensures(bad_message, (detail,), bad),
        call_ensures(scan_reply, (scanned,), scan),
        call_ensures(load_reply, (loaded,), load),
        call_ensures(unload_reply, (id, unloaded), unload),
    ensures
        says(bad, "bad message: "@ + detail@),
        scanned matches TaskOutcome::Done(Ok(found)) ==> (scan matches DaemonMessage::ScannedPlugins {
            paths,
        } && paths == found),
        scanned matches TaskOutcome::Failed(why) ==> says(scan, "scan task: "@ + why@),
        scanned matches TaskOutcome::Done(Err(_)) ==> scan is Error,
        loaded matches TaskOutcome::Done(Ok(p)) ==> (load matches DaemonMessage::PluginLoaded {
            id: i,
            name,
            params,
        } && i == p.id && name == p.name && params == p.params),
        loaded matches TaskOutcome::Failed(why) ==> says(load, "load task: "@ + why@),
        loaded matches TaskOutcome::Done(Err(_)) ==> load is Error,
        unloaded is Ok ==> (unload matches DaemonMessage::PluginUnloaded { id: i } && i == id),
        unloaded is Err ==> unload is Error,
{
}

/// A swap is answered with the instrument that is now active, or with why there was none.
pub proof fn swaps_are_answered(
    id: PluginId,
    swapped: Option<bool>,
    r: DaemonMessage,
    done: bool,
    b: DaemonMessage,
)
    requires
        call_ensures(activation_reply, (id, swapped), r),
        call_ensures(builtin_reply, (done,), b),
    ensures
        swapped == Some(true) ==> (r matches DaemonMessage::PluginActivated { id: i } && i == id),
        swapped == Some(false) ==> says(r, "instrument swap failed"@),
        swapped is None ==> says(
            r,
            "plugin "@ + decimal(id as nat) + " not loaded or already active"@,
        ),
        done ==> b is BuiltinSynthActivated,
        !done ==> says(b, "instrument swap failed"@),
{
}

/// What is registered is released again under the number that it got, and another one keeps
/// its own.
pub proof fn registered_is_released<P>(x: P, r: Result<u64, HostError>, other: u64)
    ensures
        forall|g: &mut Registry<P>| #[trigger]
            call_ensures(Registry::register, (g, Ok::<P, HostError>(x)), r) ==> {
                let (a, b) = ((*g).instances@, (*final(g)).instances@);
                &&& r matches Ok(id) && id == (*g).next_id && b.contains_key(id) && b[id] == x && (
                other != id ==> b.contains_key(other) == a.contains_key(other) && b[other]
                    == a[other])
            },
        forall|g: &mut Registry<P>, q: Option<P>| #[trigger]
            call_ensures(Registry::release, (g, other), q) ==> {
                let (a, b) = ((*g).instances@, (*final(g)).instances@);
                &&& q is Some <==> a.contains_key(other)
                &&& q matches Some(p) ==> p == a[other]
                &&& !b.contains_key(other)
            },
{
}

/// Delays start at one second, double up to half a minute and start anew after a minute;
/// five attempts are allowed within five minutes. Times are in nanoseconds.
pub proof fn common_thresholds(c: SupervisorConfig)
    requires
        call_ensures(SupervisorConfig::default, (), c),
    ensures
        c.initial_backoff == 1_000_000_000,
        c.max_backoff == 30 * 1_000_000_000,
        c.reset_after == 60 * 1_000_000_000,
        c.rate_limit_max == 5,
        c.rate_limit_window == 5 * 60 * 1_000_000_000,
{
}

/// A daemon that starts runs from then on; one that does not is waited for, or given up.
pub proof fn start_is_followed(now: u128, spawned: Option<u32>, r: bool)
    ensures
        forall|d: &mut DaemonSupervisor| #[trigger]
            call_ensures(DaemonSupervisor::start, (d, now, spawned), r) ==> {
                let (a, b) = ((*d)@, (*final(d))@);
                &&& r <==> spawned is Some
                &&& spawned matches Some(pid) ==> b.state == (DaemonState::Running { pid })
                    && b.started_at == Some(now) && b.history.len() == 0
                &&& spawned is None ==> b.history == seq![now] && (a.config.rate_limit_max >= 1
                    ==> b.state is Restarting && b.state->Restarting_backoff
                    == a.config.initial_backoff && b.state->Restarting_attempt == 1)
                &&& b.config == a.config
            },
{
    assert forall|d: &mut DaemonSupervisor| #[trigger]
        call_ensures(DaemonSupervisor::start, (d, now, spawned), r) && spawned is None implies (
    *final(d))@.history == seq![now] by {
        assert(crate::shell::supervisor::attempts(
            Seq::<u128>::empty(),
            now,
            (*d)@.config.rate_limit_window,
        ) == seq![now]);
    }
}

/// Whether a supervisor answers a crash at a moment: it counts the attempt, and waits for the
/// delay that was next, or gives up where too many count. The next delay doubles, up to the
/// longest.
pub open spec fn answers_crash(
    a: SupervisorView,
    b: SupervisorView,
    now: u128,
    code: Option<i32>,
) -> bool {
    &&& b.config == a.config
    &&& b.history.len() > 0 && b.history.last() == now
    &&& b.state matches DaemonState::Failing { last_exit_code } ==> last_exit_code == code
    &&& b.state matches DaemonState::Restarting { attempt, backoff, last_exit_code, retry_at } ==> {
        &&& last_exit_code == code
        &&& backoff == a.next_backoff
        &&& retry_at == now + backoff
        &&& attempt <= a.config.rate_limit_max
        &&& b.next_backoff == 2 * a.next_backoff || b.next_backoff == a.config.max_backoff
        &&& b.next_backoff <= 2 * a.next_backoff && b.next_backoff <= a.config.max_backoff
    }
    &&& b.state is Failing || b.state is Restarting
}

/// A crash of a running daemon is answered; a running daemon that is well is left alone, but
/// after a while the delays start anew. A daemon that waits is due when its delay is over.
pub proof fn tick_is_followed(now: u128, child: ChildStatus, r: bool)
    requires
        now <= crate::shell::supervisor::LAST_MOMENT,
    ensures
        forall|d: &mut DaemonSupervisor| #[trigger]
            call_ensures(DaemonSupervisor::tick, (d, now, child), r) && 2 * (*d)@.next_backoff
                <= crate::shell::supervisor::LAST_MOMENT ==> {
                let (a, b) = ((*d)@, (*final(d))@);
                &&& a.state is Running && child is Exited ==> answers_crash(
                    a,
                    b,
                    now,
                    child->Exited_0,
                ) && b.started_at is None
                &&& a.state is Running && child is Alive ==> b.state == a.state && b.history
                    == a.history && b.started_at == a.started_at && (a.started_at matches Some(t)
                    ==> b.next_backoff == (if (if now >= t {
                    now - t
                } else {
                    0
                }) >= a.config.reset_after {
                    a.config.initial_backoff
                } else {
                    a.next_backoff
                }))
                &&& !(a.state is Running) ==> b == a
                &&& r <==> (a.state matches DaemonState::Restarting { retry_at, .. } && now
                    >= retry_at)
            },
{
    assert forall|d: &mut DaemonSupervisor| #[trigger]
        call_ensures(DaemonSupervisor::tick, (d, now, child), r) && 2 * (*d)@.next_backoff
            <= crate::shell::supervisor::LAST_MOMENT && (*d)@.state is Running
            && child is Exited implies answers_crash(
        (*d)@,
        (*final(d))@,
        now,
        child->Exited_0,
    ) by {
        let a = SupervisorView { started_at: None, ..(*d)@ };
        if crate::shell::supervisor::scheduled(a, now, child->Exited_0).state is Restarting {
            crate::shell::supervisor::crash_is_answered_with_the_delay(a, now, child->Exited_0);
        }
    }
}

/// A daemon that is started again runs; one that is not is answered as a crash, with the exit
/// code of the one before.
pub proof fn respawn_is_followed(now: u128, spawned: Option<u32>)
    requires
        now <= crate::shell::supervisor::LAST_MOMENT,
    ensures
        forall|d: &mut DaemonSupervisor| #[trigger]
            call_ensures(DaemonSupervisor::respawn, (d, now, spawned), ()) && 2 * (*d)@.next_backoff
                <= crate::shell::supervisor::LAST_MOMENT ==> {
                let (a, b) = ((*d)@, (*final(d))@);
                &&& spawned matches Some(pid) ==> b.state == (DaemonState::Running { pid })
                    && b.started_at == Some(now) && b.history == a.history && b.next_backoff
                    == a.next_backoff
                &&& spawned is None && a.state is Restarting ==> answers_crash(
                    a,
                    b,
                    now,
                    a.state->Restarting_last_exit_code,
                )
            },
{
    assert forall|d: &mut DaemonSupervisor| #[trigger]
        call_ensures(DaemonSupervisor::respawn, (d, now, spawned), ()) && 2 * (*d)@.next_backoff
            <= crate::shell::supervisor::LAST_MOMENT && spawned is None
            && (*d)@.state is Restarting implies answers_crash(
        (*d)@,
        (*final(d))@,
        now,
        (*d)@.state->Restarting_last_exit_code,
    ) by {
        let a = (*d)@;
        let code = a.state->Restarting_last_exit_code;
        if crate::shell::supervisor::scheduled(a, now, code).state is Restarting {
            crate::shell::supervisor::crash_is_answered_with_the_delay(a, now, code);
        }
    }
}

/// A daemon that is shut down does not run and is not waited for.
pub proof fn shutdown_is_followed()
    ensures
        forall|d: &mut DaemonSupervisor| #[trigger]
            call_ensures(DaemonSupervisor::shutdown, (d,), ()) ==> (*final(d))@.state is NotStarted
                && (*final(d))@.started_at is None && (*final(d))@.history == (*d)@.history && (
            *final(d))@.config == (*d)@.config,
{
}

/// The daemon's program is called by its name, with the ending that programs have on Windows.
pub proof fn program_is_called_by_its_name(windows: bool, r: &'static str)
    requires
        call_ensures(daemon_binary_name, (windows,), r),
    ensures
        r@ == (if windows {
            "cadenza-daemon"@ + ".exe"@
        } else {
            "cadenza-daemon"@
        }),
{
    reveal_strlit("cadenza-daemon");
    reveal_strlit("cadenza-daemon.exe");
    reveal_strlit(".exe");
}

/// The daemon is looked for beside the program, then in the directories above it that hold
/// builds, upwards; the first place that holds it is taken.
pub proof fn daemon_is_looked_for(
    names: Vec<Option<String>>,
    order: Vec<usize>,
    i: int,
    held: Vec<bool>,
    r: Option<usize>,
)
    requires
        names@.len() > 0,
        names@.len() <= usize::MAX,
        0 <= i < names@.len(),
        call_ensures(daemon_search_order, (&names,), order),
        call_ensures(first_place, (&held,), r),
    ensures
        order@[0] == 0,
        (names@[i] matches Some(n) && (n@ == "debug"@ || n@ == "release"@)) <==> order@.skip(
            1,
        ).contains(i as usize),
        forall|j: int, k: int|
            1 <= j < k < order@.len() ==> (#[trigger] order@[j]) < (#[trigger] order@[k]),
        r matches Some(p) ==> p < held@.len() && held@[p as int] && forall|j: int|
            0 <= j < p ==> !(#[trigger] held@[j]),
        r is None ==> forall|j: int| 0 <= j < held@.len() ==> !(#[trigger] held@[j]),
{
    crate::shell::locate::search_goes_upwards_through_builds(names@, i);
    if exists|j: int| 0 <= j < held@.len() && #[trigger] held@[j] {
        let j = choose|j: int| 0 <= j < held@.len() && #[trigger] held@[j];
        let n = first_true(held@, j);
        crate::shell::locate::first_place_that_holds_it(held@, n);
    } else {
        crate::shell::locate::first_place_that_holds_it(held@, held@.len() as int);
    }
}

proof fn first_true(held: Seq<bool>, j: int) -> (n: int)
    requires
        0 <= j < held.len(),
        held[j],
    ensures
        0 <= n <= j,
        held[n],
        forall|i: int| 0 <= i < n ==> !(#[trigger] held[i]),
    decreases j,
{
    if exists|i: int| 0 <= i < j && #[trigger] held[i] {
        let i = choose|i: int| 0 <= i < j && #[trigger] held[i];
        first_true(held, i)
    } else {
        j
    }
}

/// A command that is sent goes behind those that were sent, where the queue takes it, and is
/// lost where it does not; it is taken as long as fewer were sent than the queue holds.
pub proof fn sent_command_goes_last<I>(now: u64, cmd: AudioCmd, tc: TimedCmd, r: bool)
    requires
        tc.frame == now && tc.cmd == cmd,
    ensures
        forall|e: &mut AudioEngine<I>| #[trigger]
            call_ensures(AudioEngine::send, (e, now, cmd), r) ==> is_sent(*e, *final(e), tc, r),
        forall|e: &mut AudioEngine<I>| #[trigger]
            call_ensures(AudioEngine::send_timed, (e, tc), r) ==> is_sent(*e, *final(e), tc, r),
{
}

/// Whether an engine sent a command, and whether that was taken.
pub open spec fn is_sent<I>(a: AudioEngine<I>, b: AudioEngine<I>, tc: TimedCmd, taken: bool) -> bool {
    &&& taken ==> b.sent() == a.sent().push(tc)
    &&& !taken ==> b.sent() == a.sent()
    &&& a.sent().len() < a.command_room() ==> taken
    &&& b.tries() == a.tries().push((tc, taken))
    &&& b.command_room() == a.command_room() && b.sample_rate == a.sample_rate
    &&& b.swap_in_tx == a.swap_in_tx && b.swap_out_rx == a.swap_out_rx
}

/// An instrument that is installed sounds under its number, and the one that sounded before
/// comes back with its own.
pub proof fn installed_instrument_sounds<I: Instrument>(id: PluginId, inst: I, r: (PluginId, I))
    ensures
        forall|x: &mut Renderer<I>| #[trigger]
            call_ensures(Renderer::install, (x, id, inst), r) ==> (*final(x)).instrument == inst && (
            *final(x)).current_id == id && r.0 == (*x).current_id && r.1 == (*x).instrument && (
            *final(x)).pending() == (*x).pending(),
{
}

/// Preparing a buffer takes what has arrived into the queue and hands the instrument the
/// commands of the buffer's frames, each at its place; the others stay in the queue.
pub proof fn buffer_is_prepared<I: Instrument>(now: u64, samples: usize, channels: usize)
    requires
        0 < channels <= samples,
        samples <= u32::MAX,
        now + samples <= u64::MAX,
    ensures
        forall|x: &mut Renderer<I>| #[trigger]
            call_ensures(Renderer::prepare, (x, now, samples), ()) && (*x).channels == channels
                && in_frame_order((*x).pending()) ==> is_prepared(
                *x,
                *final(x),
                now,
                crate::daemon::audio::frames_of(samples as nat, channels as nat) as u32,
            ),
{
    let f = crate::daemon::audio::frames_of(samples as nat, channels as nat);
    crate::daemon::audio::frame_has_a_sample_for_every_channel(samples as nat, channels as nat);
    let c = channels as nat;
    assert(1 <= f <= samples) by (nonlinear_arith)
        requires
            f * c <= samples,
            samples < (f + 1) * c,
            0 < c <= samples,
    ;
    assert forall|x: &mut Renderer<I>| #[trigger]
        call_ensures(Renderer::prepare, (x, now, samples), ()) && (*x).channels == channels
            && in_frame_order((*x).pending()) implies is_prepared(*x, *final(x), now, f as u32) by {
        let (a, b) = (*x, *final(x));
        let fresh = b.received().skip(a.received().len() as int);
        let held = crate::daemon::audio::all_inserted(a.pending(), fresh);
        crate::daemon::audio::held_commands_keep_their_order(a.pending(), fresh, 0);
        let due = b.scratch@;
        if held.len() > 0 {
            crate::daemon::audio::due_commands_are_taken(held, now, f as u32, 0);
        }
        assert forall|i: int| 0 <= i < held.len() implies {
            let n = due.len() as int;
            &&& n <= held.len()
            &&& (#[trigger] held[i]).frame < now + f as u32 <==> i < n
            &&& i < n ==> due[i].1 == held[i].cmd && (held[i].frame >= now ==> now + due[i].0
                == held[i].frame) && (held[i].frame < now ==> due[i].0 == 0)
        } by {
            crate::daemon::audio::due_commands_are_taken(held, now, f as u32, i);
        }
        assert(takes_due(held, b.pending(), due, now, f as u32));
    }
}

/// Whether a renderer took what has arrived into its queue, and what is due out of it.
pub open spec fn is_prepared<I: Instrument>(
    a: Renderer<I>,
    b: Renderer<I>,
    now: u64,
    frames: u32,
) -> bool {
    let fresh = b.received().skip(a.received().len() as int);
    exists|held: Seq<TimedCmd>|
        in_frame_order(held) && held.to_multiset() == a.pending().to_multiset().add(
            fresh.to_multiset(),
        ) && #[trigger] takes_due(held, b.pending(), b.scratch@, now, frames)
}

} // verus!
