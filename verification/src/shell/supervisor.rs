//! When a crashed daemon is started again: after a delay that doubles with every
//! crash, and not too often. Times and delays are nanoseconds; times count from any
//! fixed moment.
use crate::text::{decimal, push_decimal, push_signed, signed_decimal};
use vstd::prelude::*;
use vstd::string::*;

verus! {

/// The longest delay, and the last moment, that can be told.
pub const LAST_MOMENT: u128 = 18_446_744_073_709_551_615_999_999_999;

/// The thresholds of the restarts.
#[derive(Debug, Clone, Copy, PartialEq, Eq, Structural)]
pub struct SupervisorConfig {
    /// The delay after the first crash.
    pub initial_backoff: u128,
    /// The longest delay that doubling leads to.
    pub max_backoff: u128,
    /// How long the daemon must run for the delay to start anew.
    pub reset_after: u128,
    /// How many attempts are allowed within the window.
    pub rate_limit_max: u32,
    /// The window in which attempts are counted.
    pub rate_limit_window: u128,
}

impl Default for SupervisorConfig {
    fn default() -> (r: Self)
        ensures
            r.initial_backoff == 1_000_000_000,
            r.max_backoff == 30_000_000_000,
            r.reset_after == 60_000_000_000,
            r.rate_limit_max == 5,
            r.rate_limit_window == 300_000_000_000,
            config_fits(r),
            delays_can_double(r),
    {
        SupervisorConfig {
            initial_backoff: 1_000_000_000,
            max_backoff: 30_000_000_000,
            reset_after: 60_000_000_000,
            rate_limit_max: 5,
            rate_limit_window: 300_000_000_000,
        }
    }
}

/// Whether the delays can be told.
pub open spec fn config_fits(c: SupervisorConfig) -> bool {
    c.initial_backoff <= LAST_MOMENT && c.max_backoff <= LAST_MOMENT
}

/// Whether every delay that the thresholds lead to can be doubled.
pub open spec fn delays_can_double(c: SupervisorConfig) -> bool {
    2 * c.initial_backoff <= LAST_MOMENT && 2 * c.max_backoff <= LAST_MOMENT
}

/// What can be seen of the daemon.
#[derive(Debug, Clone, Copy, PartialEq, Eq, Structural)]
#[allow(inconsistent_fields)]
pub enum DaemonState {
    /// It was not started, or was shut down.
    NotStarted,
    Running { pid: u32 },
    /// It crashed, and is started again at `retry_at`.
    Restarting { attempt: u32, backoff: u128, last_exit_code: Option<i32>, retry_at: u128 },
    /// It crashed too often, and is left alone.
    Failing { last_exit_code: Option<i32> },
}

/// The words for a state.
pub open spec fn state_words(s: DaemonState) -> Seq<char> {
    match s {
        DaemonState::NotStarted => "not started"@,
        DaemonState::Running { pid } => "running (pid "@ + decimal(pid as nat) + ")"@,
        DaemonState::Restarting { attempt, backoff, .. } => "restarting (attempt "@ + decimal(
            attempt as nat,
        ) + ", backoff "@ + decimal(shown_seconds(backoff as nat)) + "s)"@,
        DaemonState::Failing { last_exit_code } => match last_exit_code {
            Some(code) => "failing repeatedly (last exit "@ + signed_decimal(code as int) + ")"@,
            None => "failing repeatedly"@,
        },
    }
}

/// A delay in whole seconds, at least one.
pub open spec fn shown_seconds(nanos: nat) -> nat {
    let s = nanos / 1_000_000_000;
    if s < 1 {
        1
    } else {
        s
    }
}

/// Whether the delay in a state can be told.
pub open spec fn state_fits(s: DaemonState) -> bool {
    s matches DaemonState::Restarting { backoff, .. } ==> backoff <= LAST_MOMENT
}

impl DaemonState {
    /// The words for a state.
    pub fn label(&self) -> (r: String)
        requires
            state_fits(*self),
        ensures
            r@ == state_words(*self),
    {
        match self {
            DaemonState::NotStarted => "not started".to_owned(),
            DaemonState::Running { pid } => {
                let mut s = "running (pid ".to_owned();
                push_decimal(&mut s, *pid as u64);
                s.append(")");
                s
            },
            DaemonState::Restarting { attempt, backoff, .. } => {
                let mut s = "restarting (attempt ".to_owned();
                push_decimal(&mut s, *attempt as u64);
                s.append(", backoff ");
                let whole: u128 = *backoff / 1_000_000_000;
                let seconds: u64 = if whole < 1 {
                    1
                } else {
                    whole as u64
                };
                push_decimal(&mut s, seconds);
                s.append("s)");
                s
            },
            DaemonState::Failing { last_exit_code } => match last_exit_code {
                Some(code) => {
                    let mut s = "failing repeatedly (last exit ".to_owned();
                    push_signed(&mut s, *code as i64);
                    s.append(")");
                    s
                },
                None => "failing repeatedly".to_owned(),
            },
        }
    }
}

/// What is found when the daemon's process is looked at.
#[derive(Debug, Clone, Copy, PartialEq, Eq, Structural)]
pub enum ChildStatus {
    Alive,
    /// It is gone, with this exit code where it is known.
    Exited(Option<i32>),
}

/// What a supervisor holds.
#[verifier::ext_equal]
pub struct SupervisorView {
    pub state: DaemonState,
    pub started_at: Option<u128>,
    pub history: Seq<u128>,
    pub next_backoff: u128,
    pub config: SupervisorConfig,
}

/// The attempts that are not older than `cutoff`, from the first such one on.
pub open spec fn pruned(history: Seq<u128>, cutoff: int) -> Seq<u128>
    decreases history.len(),
{
    if history.len() > 0 && history[0] < cutoff {
        pruned(history.drop_first(), cutoff)
    } else {
        history
    }
}

/// The attempts that count at a moment, and one at that moment.
pub open spec fn attempts(history: Seq<u128>, now: u128, window: u128) -> Seq<u128> {
    pruned(history, now - window).push(now)
}

/// A delay doubled, up to the longest.
pub open spec fn doubled(backoff: u128, longest: u128) -> u128 {
    if 2 * backoff < longest {
        (2 * backoff) as u128
    } else {
        longest
    }
}

/// Whether the supervisor can answer a crash, or a start that failed, at a moment: it
/// gives up, or the delay can be doubled.
pub open spec fn can_schedule(v: SupervisorView, now: u128) -> bool {
    ||| attempts(v.history, now, v.config.rate_limit_window).len() as u32 > v.config.rate_limit_max
    ||| 2 * v.next_backoff <= LAST_MOMENT
}

/// The supervisor after a crash, or a start that failed, at a moment: it waits for
/// the delay, or gives up where too many attempts count.
pub open spec fn scheduled(v: SupervisorView, now: u128, code: Option<i32>) -> SupervisorView {
    let history = attempts(v.history, now, v.config.rate_limit_window);
    let attempt = history.len() as u32;
    if attempt > v.config.rate_limit_max {
        SupervisorView { state: DaemonState::Failing { last_exit_code: code }, history, ..v }
    } else {
        SupervisorView {
            state: DaemonState::Restarting {
                attempt,
                backoff: v.next_backoff,
                last_exit_code: code,
                retry_at: (now + v.next_backoff) as u128,
            },
            history,
            next_backoff: doubled(v.next_backoff, v.config.max_backoff),
            ..v
        }
    }
}

/// The supervisor after an attempt to start the daemon: `spawned` is its process, or
/// `None` where it did not start.
pub open spec fn attempted(
    v: SupervisorView,
    now: u128,
    spawned: Option<u32>,
    code: Option<i32>,
) -> SupervisorView {
    match spawned {
        Some(pid) => SupervisorView {
            state: DaemonState::Running { pid },
            started_at: Some(now),
            ..v
        },
        None => scheduled(v, now, code),
    }
}

/// The supervisor before the first attempt.
pub open spec fn armed(v: SupervisorView) -> SupervisorView {
    SupervisorView { history: Seq::empty(), next_backoff: v.config.initial_backoff, ..v }
}

/// How long the daemon has run.
pub open spec fn uptime(started_at: u128, now: u128) -> int {
    if now < started_at {
        0
    } else {
        now - started_at
    }
}

/// The supervisor after a look at the daemon.
pub open spec fn ticked(v: SupervisorView, now: u128, child: ChildStatus) -> SupervisorView {
    match v.state {
        DaemonState::Running { .. } => match child {
            ChildStatus::Exited(code) => scheduled(
                SupervisorView { started_at: None, ..v },
                now,
                code,
            ),
            ChildStatus::Alive => match v.started_at {
                Some(t) => if uptime(t, now) >= v.config.reset_after {
                    SupervisorView { next_backoff: v.config.initial_backoff, ..v }
                } else {
                    v
                },
                None => v,
            },
        },
        _ => v,
    }
}

/// Whether the daemon is to be started again at a moment.
pub open spec fn respawn_due(v: SupervisorView, now: u128) -> bool {
    v.state matches DaemonState::Restarting { retry_at, .. } && now >= retry_at
}

/// The exit code of the crash that is waited out.
pub open spec fn prior_exit(s: DaemonState) -> Option<i32> {
    match s {
        DaemonState::Restarting { last_exit_code, .. } => last_exit_code,
        _ => None,
    }
}

/// Whether the delays that a supervisor holds can be told, and the next one is no
/// longer than the thresholds allow.
pub open spec fn supervisor_wf(v: SupervisorView) -> bool {
    &&& config_fits(v.config)
    &&& v.next_backoff <= v.config.initial_backoff || v.next_backoff <= v.config.max_backoff
    &&& state_fits(v.state)
}

/// Decides when the daemon is started.
#[derive(Debug)]
pub struct DaemonSupervisor {
    state: DaemonState,
    started_at: Option<u128>,
    history: Vec<u128>,
    next_backoff: u128,
    config: SupervisorConfig,
}

impl View for DaemonSupervisor {
    type V = SupervisorView;

    closed spec fn view(&self) -> SupervisorView {
        SupervisorView {
            state: self.state,
            started_at: self.started_at,
            history: self.history@,
            next_backoff: self.next_backoff,
            config: self.config,
        }
    }
}

impl DaemonSupervisor {
    pub open spec fn wf(&self) -> bool {
        supervisor_wf(self@)
    }

    pub fn new(config: SupervisorConfig) -> (r: Self)
        requires
            config_fits(config),
        ensures
            r.wf(),
            r@ == (SupervisorView {
                state: DaemonState::NotStarted,
                started_at: None,
                history: Seq::empty(),
                next_backoff: config.initial_backoff,
                config,
            }),
    {
        DaemonSupervisor {
            state: DaemonState::NotStarted,
            started_at: None,
            history: Vec::new(),
            next_backoff: config.initial_backoff,
            config,
        }
    }

    /// Takes in the first start of the daemon at `now`, which forgets earlier
    /// crashes: `spawned` is its process, or `None` where it did not start. Gives
    /// whether it did.
    pub fn start(&mut self, now: u128, spawned: Option<u32>) -> (r: bool)
        requires
            old(self).wf(),
            now <= LAST_MOMENT,
            spawned is None ==> can_schedule(armed(old(self)@), now),
        ensures
            final(self).wf(),
            final(self)@ == attempted(armed(old(self)@), now, spawned, None),
            r == (spawned is Some),
    {
        self.history = Vec::new();
        self.next_backoff = self.config.initial_backoff;
        assert(self@ == armed(old(self)@));
        match spawned {
            Some(pid) => {
                self.started_at = Some(now);
                self.state = DaemonState::Running { pid };
                true
            },
            None => {
                self.schedule_restart(now, None);
                false
            },
        }
    }

    /// Takes in a look at the daemon at `now`. Gives whether it is to be started
    /// again; what came of that goes to `respawn`.
    pub fn tick(&mut self, now: u128, child: ChildStatus) -> (r: bool)
        requires
            old(self).wf(),
            now <= LAST_MOMENT,
            old(self)@.state is Running && child is Exited ==> can_schedule(old(self)@, now),
        ensures
            final(self).wf(),
            final(self)@ == ticked(old(self)@, now, child),
            r == respawn_due(old(self)@, now),
    {
        match self.state {
            DaemonState::NotStarted => false,
            DaemonState::Failing { .. } => false,
            DaemonState::Running { .. } => {
                match child {
                    ChildStatus::Exited(code) => {
                        self.started_at = None;
                        self.schedule_restart(now, code);
                    },
                    ChildStatus::Alive => {
                        if let Some(t) = self.started_at {
                            let up: u128 = if now < t {
                                0
                            } else {
                                now - t
                            };
                            if up >= self.config.reset_after {
                                self.next_backoff = self.config.initial_backoff;
                            }
                        }
                    },
                }
                false
            },
            DaemonState::Restarting { retry_at, .. } => now >= retry_at,
        }
    }

    /// Takes in an attempt to start the daemon again at `now`.
    pub fn respawn(&mut self, now: u128, spawned: Option<u32>)
        requires
            old(self).wf(),
            now <= LAST_MOMENT,
            spawned is None ==> can_schedule(old(self)@, now),
        ensures
            final(self).wf(),
            final(self)@ == attempted(old(self)@, now, spawned, prior_exit(old(self)@.state)),
    {
        let prior = match self.state {
            DaemonState::Restarting { last_exit_code, .. } => last_exit_code,
            _ => None,
        };
        match spawned {
            Some(pid) => {
                self.started_at = Some(now);
                self.state = DaemonState::Running { pid };
            },
            None => {
                self.schedule_restart(now, prior);
            },
        }
    }

    /// Takes in that the daemon was stopped for good.
    pub fn shutdown(&mut self)
        requires
            old(self).wf(),
        ensures
            final(self).wf(),
            final(self)@ == (SupervisorView {
                state: DaemonState::NotStarted,
                started_at: None,
                ..old(self)@
            }),
    {
        self.started_at = None;
        self.state = DaemonState::NotStarted;
    }

    pub fn state(&self) -> (r: DaemonState)
        ensures
            r == self@.state,
    {
        self.state
    }

    /// The words for the daemon's state, as the tray shows them.
    pub fn status_label(&self) -> (r: String)
        requires
            self.wf(),
        ensures
            r@ == "daemon: "@ + state_words(self@.state),
    {
        let mut s = "daemon: ".to_owned();
        s.append(self.state.label().as_str());
        s
    }

    /// Plans the next attempt, or gives up.
    fn schedule_restart(&mut self, now: u128, last_exit_code: Option<i32>)
        requires
            old(self).wf(),
            now <= LAST_MOMENT,
            can_schedule(old(self)@, now),
        ensures
            final(self).wf(),
            final(self)@ == scheduled(old(self)@, now, last_exit_code),
    {
        if now >= self.config.rate_limit_window {
            let cutoff: u128 = now - self.config.rate_limit_window;
            while self.history.len() > 0 && self.history[0] < cutoff
                invariant
                    pruned(self.history@, cutoff as int) == pruned(old(self).history@, cutoff as int),
                    self.state == old(self).state,
                    self.started_at == old(self).started_at,
                    self.next_backoff == old(self).next_backoff,
                    self.config == old(self).config,
                decreases self.history@.len(),
            {
                let ghost before = self.history@;
                self.history.remove(0);
                assert(self.history@ == before.drop_first());
            }
        }
        assert(self.history@ == pruned(old(self).history@, now - self.config.rate_limit_window));
        self.history.push(now);
        let attempt: u32 = self.history.len() as u32;
        if attempt > self.config.rate_limit_max {
            self.state = DaemonState::Failing { last_exit_code };
            return ;
        }
        let backoff: u128 = self.next_backoff;
        let twice: u128 = 2 * backoff;
        self.next_backoff =
        if twice < self.config.max_backoff {
            twice
        } else {
            self.config.max_backoff
        };
        self.state =
        DaemonState::Restarting { attempt, backoff, last_exit_code, retry_at: now + backoff };
    }
}

/// Whether attempts are recorded in their order, none after `now`.
pub open spec fn in_order(history: Seq<u128>, now: int) -> bool {
    &&& forall|i: int, j: int| 0 <= i <= j < history.len() ==> history[i] <= history[j]
    &&& forall|i: int| 0 <= i < history.len() ==> #[trigger] history[i] <= now
}

proof fn lemma_pruned(history: Seq<u128>, cutoff: int, now: int)
    requires
        in_order(history, now),
    ensures
        in_order(pruned(history, cutoff), now),
        pruned(history, cutoff).len() <= history.len(),
        forall|i: int|
            0 <= i < pruned(history, cutoff).len() ==> cutoff <= #[trigger] pruned(
                history,
                cutoff,
            )[i],
    decreases history.len(),
{
    if history.len() > 0 && history[0] < cutoff {
        let rest = history.drop_first();
        assert(in_order(rest, now)) by {
            assert forall|i: int, j: int| 0 <= i <= j < rest.len() implies rest[i] <= rest[j] by {
                assert(rest[i] == history[i + 1] && rest[j] == history[j + 1]);
            }
            assert forall|i: int| 0 <= i < rest.len() implies #[trigger] rest[i] <= now by {
                assert(rest[i] == history[i + 1]);
            }
        }
        lemma_pruned(rest, cutoff, now);
    }
}

/// Whenever the daemon waits for its next start, all attempts that count lie within
/// the window, and they are no more than allowed. A limit of all ones is left out:
/// the count of attempts could come round to zero below it.
pub proof fn restarts_are_limited(v: SupervisorView, now: u128, code: Option<i32>)
    requires
        v.config.rate_limit_max < u32::MAX,
        v.history.len() <= v.config.rate_limit_max,
        in_order(v.history, now as int),
    ensures
        ({
            let w = scheduled(v, now, code);
            &&& in_order(w.history, now as int)
            &&& forall|i: int|
                0 <= i < w.history.len() ==> now - v.config.rate_limit_window
                    <= #[trigger] w.history[i]
            &&& w.state is Restarting <==> w.history.len() <= v.config.rate_limit_max
            &&& w.state is Failing <==> w.history.len() > v.config.rate_limit_max
            &&& w.state matches DaemonState::Restarting { attempt, .. } ==> attempt
                == w.history.len()
        }),
{
    lemma_pruned(v.history, now - v.config.rate_limit_window, now as int);
}

/// Where the thresholds can be doubled, every crash can be answered.
pub proof fn doubling_thresholds_suffice(v: SupervisorView, now: u128)
    requires
        supervisor_wf(v),
        delays_can_double(v.config),
    ensures
        can_schedule(v, now),
        can_schedule(armed(v), now),
{
}

/// No delay is longer than the first or the longest, whichever is more.
pub proof fn backoff_is_bounded(v: SupervisorView, now: u128, code: Option<i32>)
    requires
        v.next_backoff <= v.config.initial_backoff || v.next_backoff <= v.config.max_backoff,
    ensures
        ({
            let w = scheduled(v, now, code);
            &&& w.next_backoff <= w.config.initial_backoff || w.next_backoff <= w.config.max_backoff
            &&& w.state matches DaemonState::Restarting { backoff, .. } ==> backoff
                <= w.config.initial_backoff || backoff <= w.config.max_backoff
        }),
{
}

/// The delay of a crash is twice that of the crash before it, up to the longest.
pub proof fn backoff_doubles(
    v: SupervisorView,
    first: u128,
    pid: u32,
    up: u128,
    second: u128,
    code: Option<i32>,
)
    requires
        scheduled(v, first, None).state is Restarting,
        ticked(
            attempted(scheduled(v, first, None), up, Some(pid), None),
            second,
            ChildStatus::Exited(code),
        ).state is Restarting,
    ensures
        ({
            let down = scheduled(v, first, None);
            let again = ticked(
                attempted(down, up, Some(pid), None),
                second,
                ChildStatus::Exited(code),
            );
            again.state->Restarting_backoff == doubled(
                down.state->Restarting_backoff,
                v.config.max_backoff,
            )
        }),
{
}

/// Once the daemon has run long enough, the next crash is answered with the first
/// delay again.
pub proof fn long_uptime_resets_backoff(v: SupervisorView, now: u128, then: u128, code: Option<i32>)
    requires
        v.state is Running,
        v.started_at matches Some(t) && uptime(t, now) >= v.config.reset_after,
        ticked(ticked(v, now, ChildStatus::Alive), then, ChildStatus::Exited(code)).state
            is Restarting,
    ensures
        ticked(
            ticked(v, now, ChildStatus::Alive),
            then,
            ChildStatus::Exited(code),
        ).state->Restarting_backoff == v.config.initial_backoff,
{
}

/// A daemon that was shut down, or crashed too often, is not started by looking at
/// it.
pub proof fn stopped_daemon_stays_stopped(v: SupervisorView, now: u128, child: ChildStatus)
    requires
        v.state is NotStarted || v.state is Failing,
    ensures
        ticked(v, now, child) == v,
        !respawn_due(v, now),
{
}

/// A crash is waited out: the daemon is not started before its time.
pub proof fn crash_is_waited_out(v: SupervisorView, now: u128, code: Option<i32>, then: u128)
    requires
        supervisor_wf(v),
        now <= LAST_MOMENT,
        v.next_backoff > 0,
        now <= then < now + v.next_backoff,
    ensures
        !respawn_due(scheduled(v, now, code), then),
{
}

/// A crash that is answered is answered with the delay that is due: the daemon is started
/// again when that has passed, and not before; the next one is twice as long, but no
/// longer than the longest. The attempt is counted with those of the window.
pub proof fn crash_is_answered_with_the_delay(v: SupervisorView, now: u128, code: Option<i32>)
    requires
        now <= LAST_MOMENT,
        2 * v.next_backoff <= LAST_MOMENT,
        scheduled(v, now, code).state is Restarting,
    ensures
        ({
            let w = scheduled(v, now, code);
            &&& w.state matches DaemonState::Restarting {
                attempt,
                backoff,
                last_exit_code,
                retry_at,
            } && backoff == v.next_backoff && retry_at == now + backoff && last_exit_code == code
                && attempt <= v.config.rate_limit_max
            &&& w.next_backoff <= 2 * v.next_backoff && w.next_backoff <= v.config.max_backoff
            &&& w.next_backoff == 2 * v.next_backoff || w.next_backoff == v.config.max_backoff
            &&& w.config == v.config && w.started_at == v.started_at
            &&& w.history.len() > 0 && w.history.last() == now
            &&& forall|then: u128| respawn_due(w, then) <==> then >= now + v.next_backoff
        }),
{
}

/// Of the attempts those count that are not older than the window; they keep their order.
pub proof fn attempts_of_the_window_count(history: Seq<u128>, now: u128, window: u128, i: int)
    requires
        in_order(history, now as int),
        0 <= i < history.len(),
    ensures
        ({
            let a = attempts(history, now, window);
            let gone = history.len() + 1 - a.len();
            &&& 0 <= gone <= history.len()
            &&& a == history.skip(gone).push(now)
            &&& i < gone <==> history[i] + window < now
        }),
{
    lemma_pruned_skips(history, now - window, now as int, i);
}

proof fn lemma_pruned_skips(history: Seq<u128>, cutoff: int, now: int, i: int)
    requires
        in_order(history, now),
        0 <= i < history.len(),
    ensures
        ({
            let gone = history.len() - pruned(history, cutoff).len();
            &&& 0 <= gone <= history.len()
            &&& pruned(history, cutoff) == history.skip(gone)
            &&& i < gone <==> history[i] < cutoff
        }),
    decreases history.len(),
{
    if history[0] < cutoff {
        let rest = history.drop_first();
        assert(in_order(rest, now)) by {
            assert forall|i: int, j: int| 0 <= i <= j < rest.len() implies rest[i] <= rest[j] by {
                assert(rest[i] == history[i + 1] && rest[j] == history[j + 1]);
            }
            assert forall|i: int| 0 <= i < rest.len() implies #[trigger] rest[i] <= now by {
                assert(rest[i] == history[i + 1]);
            }
        }
        if rest.len() > 0 {
            let k = if i > 0 {
                i - 1
            } else {
                0
            };
            lemma_pruned_skips(rest, cutoff, now, k);
            assert(rest[k] == history[k + 1]);
            let gone = rest.len() - pruned(rest, cutoff).len();
            assert(rest.skip(gone) == history.skip(gone + 1));
        } else {
            assert(pruned(rest, cutoff) == rest);
            assert(history.skip(1) == rest);
        }
    } else {
        assert(history.skip(0) == history);
        assert(history[0] <= history[i]);
    }
}

/// Looking at the daemon: one that runs on for long enough gets the first delay again,
/// one that has gone is answered, and one that waits is left alone until its time.
pub proof fn looking_at_the_daemon(v: SupervisorView, now: u128, code: Option<i32>, pid: u32)
    ensures
        v.state is Running ==> {
            &&& ticked(v, now, ChildStatus::Exited(code)).state == scheduled(v, now, code).state
            &&& ticked(v, now, ChildStatus::Exited(code)).started_at is None
            &&& v.started_at matches Some(t) ==> ticked(
                v,
                now,
                ChildStatus::Alive,
            ).next_backoff == (if now >= t && now - t >= v.config.reset_after || now < t
                && v.config.reset_after == 0 {
                v.config.initial_backoff
            } else {
                v.next_backoff
            })
            &&& ticked(v, now, ChildStatus::Alive).state == v.state
        },
        v.state is Restarting ==> ticked(v, now, ChildStatus::Alive) == v,
        attempted(v, now, Some(pid), code).state == (DaemonState::Running { pid }),
        attempted(v, now, Some(pid), code).started_at == Some(now),
        attempted(v, now, None, code) == scheduled(v, now, code),
        armed(v).history.len() == 0 && armed(v).next_backoff == v.config.initial_backoff,
{
}

/// A state is told in its words: the process that runs, the attempt and the delay that is
/// waited for in whole seconds but at least one, and the code of the last exit.
pub proof fn states_are_told(pid: u32, attempt: u32, backoff: u128, at: u128, code: i32)
    ensures
        state_words(DaemonState::NotStarted) == "not started"@,
        state_words(DaemonState::Running { pid }) == "running (pid "@ + decimal(pid as nat) + ")"@,
        state_words(DaemonState::Failing { last_exit_code: None }) == "failing repeatedly"@,
        state_words(DaemonState::Failing { last_exit_code: Some(code) })
            == "failing repeatedly (last exit "@ + signed_decimal(code as int) + ")"@,
        exists|s: nat|
            s >= 1 && (s * 1_000_000_000 <= backoff || s == 1) && backoff < (s + 1) * 1_000_000_000
                && state_words(
                DaemonState::Restarting { attempt, backoff, last_exit_code: None, retry_at: at },
            ) == "restarting (attempt "@ + decimal(attempt as nat) + ", backoff "@
                + #[trigger] decimal(s) + "s)"@,
{
    let s = shown_seconds(backoff as nat);
    let n = backoff as int / 1_000_000_000;
    assert(n * 1_000_000_000 <= backoff < (n + 1) * 1_000_000_000);
    assert(decimal(s) == decimal(s));
}

/// The exit code of a crash is kept while it is waited out.
pub proof fn exit_code_is_kept(v: SupervisorView, now: u128, code: Option<i32>)
    ensures
        scheduled(v, now, code).state is Restarting ==> prior_exit(scheduled(v, now, code).state)
            == code,
        scheduled(v, now, code).state matches DaemonState::Failing { last_exit_code }
            ==> last_exit_code == code,
{
}

} // verus!
