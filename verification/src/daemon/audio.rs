//! Timed commands on their way to the audio thread's instrument.
use crate::daemon::instrument::{Instrument, PluginId};
use crate::daemon::ring::{
    accepted, accepted_grows, all_given, answered, capacity_of, command_queue, given, given_grows,
    handed, handed_grows, pop_command, push_command, swap_queue, tried, CmdConsumer, CmdProducer,
    SenderCall, SwapReceiver, SwapSender,
};
use crate::sorting::{inserted, ordered, Keyed};
use vstd::prelude::*;

verus! {

/// A command to the instrument. A parameter's value is the bits of a single.
#[derive(Debug, Clone, Copy, PartialEq, Eq, Structural)]
pub enum AudioCmd {
    NoteOn { pitch: u8, velocity: u8 },
    NoteOff { pitch: u8 },
    AllNotesOff,
    ParamSet { param_id: u32, value: u32 },
}

/// A command and the frame on which it takes effect, counted from the start.
#[derive(Debug, Clone, Copy, PartialEq, Eq, Structural)]
pub struct TimedCmd {
    pub frame: u64,
    pub cmd: AudioCmd,
}

/// Commands are ordered by their frames.
impl Keyed for TimedCmd {
    open spec fn key(&self) -> int {
        self.frame as int
    }

    fn sort_key(&self) -> (k: u64) {
        self.frame
    }
}

/// How many commands the queue to the audio thread holds.
pub const RINGBUF_CAPACITY: usize = 16384;

/// How many commands the audio thread holds back until they are due.
pub const PENDING_CAP: usize = 512;

/// How many instruments are on their way in either direction.
pub const SWAP_CAPACITY: usize = 4;

/// How many commands stand before the first that takes effect at `end` or later.
pub open spec fn due_count(q: Seq<TimedCmd>, end: int) -> nat
    decreases q.len(),
{
    if q.len() == 0 || q[0].frame >= end {
        0
    } else {
        1 + due_count(q.drop_first(), end)
    }
}

/// Where in a buffer of `frames` frames from `now` on a command takes effect:
/// late ones at once, and none behind the last frame.
pub open spec fn offset_of(frame: u64, now: u64, frames: u32) -> u32 {
    let late = if frame >= now {
        frame - now
    } else {
        0
    };
    let last = if frames >= 1 {
        frames - 1
    } else {
        0
    };
    (if late < last {
        late
    } else {
        last
    }) as u32
}

/// The commands that take effect in a buffer, with their offsets.
pub open spec fn due_events(q: Seq<TimedCmd>, now: u64, frames: u32) -> Seq<(u32, AudioCmd)> {
    Seq::new(
        due_count(q, now + frames),
        |i: int| (offset_of(q[i].frame, now, frames), q[i].cmd),
    )
}

/// A queue after more commands were put in their places.
pub open spec fn all_inserted(q: Seq<TimedCmd>, cmds: Seq<TimedCmd>) -> Seq<TimedCmd>
    decreases cmds.len(),
{
    if cmds.len() == 0 {
        q
    } else {
        inserted(all_inserted(q, cmds.drop_last()), cmds.last())
    }
}

/// The whole frames in a buffer of interleaved samples.
pub open spec fn frames_of(samples: nat, channels: nat) -> nat {
    samples / (if channels == 0 {
        1
    } else {
        channels
    })
}

proof fn lemma_due_count(q: Seq<TimedCmd>, end: int)
    ensures
        due_count(q, end) <= q.len(),
        forall|i: int| 0 <= i < due_count(q, end) ==> (#[trigger] q[i]).frame < end,
        due_count(q, end) < q.len() ==> q[due_count(q, end) as int].frame >= end,
    decreases q.len(),
{
    if q.len() > 0 && q[0].frame < end {
        let t = q.drop_first();
        lemma_due_count(t, end);
        assert forall|i: int| 0 <= i < due_count(q, end) implies (#[trigger] q[i]).frame < end by {
            if i > 0 {
                assert(q[i] == t[i - 1]);
            }
        }
    }
}

proof fn lemma_due_count_is(q: Seq<TimedCmd>, end: int, n: nat)
    requires
        n <= q.len(),
        forall|i: int| 0 <= i < n ==> (#[trigger] q[i]).frame < end,
        n < q.len() ==> q[n as int].frame >= end,
    ensures
        due_count(q, end) == n,
    decreases q.len(),
{
    if n > 0 {
        let t = q.drop_first();
        assert forall|i: int| 0 <= i < n - 1 implies (#[trigger] t[i]).frame < end by {
            assert(t[i] == q[i + 1]);
        }
        lemma_due_count_is(t, end, (n - 1) as nat);
    }
}

/// The commands that the audio thread holds back, in order of their frames.
pub struct PendingQueue {
    queue: Vec<TimedCmd>,
}

impl View for PendingQueue {
    type V = Seq<TimedCmd>;

    closed spec fn view(&self) -> Seq<TimedCmd> {
        self.queue@
    }
}

impl PendingQueue {
    /// Whether the commands are in order and no more than can be held.
    pub open spec fn wf(&self) -> bool {
        ordered(self@) && self@.len() <= PENDING_CAP
    }

    pub fn new() -> (r: Self)
        ensures
            r.wf(),
            r@ == Seq::<TimedCmd>::empty(),
    {
        PendingQueue { queue: Vec::with_capacity(PENDING_CAP) }
    }

    pub fn is_full(&self) -> (r: bool)
        requires
            self.wf(),
        ensures
            r == (self@.len() == PENDING_CAP),
    {
        self.queue.len() >= PENDING_CAP
    }

    /// Puts a command behind every other that is not later.
    pub fn insert(&mut self, tc: TimedCmd)
        requires
            old(self).wf(),
            old(self)@.len() < PENDING_CAP,
        ensures
            final(self).wf(),
            final(self)@ == inserted(old(self)@, tc),
            final(self)@.len() == old(self)@.len() + 1,
    {
        let mut i: usize = self.queue.len();
        while i > 0 && self.queue[i - 1].frame > tc.frame
            invariant
                i <= self.queue@.len(),
                forall|j: int| i <= j < self.queue@.len() ==> (#[trigger] self.queue@[j]).frame
                    > tc.frame,
            decreases i,
        {
            i = i - 1;
        }
        proof {
            assert forall|j: int| i <= j < self.queue@.len() implies (
            #[trigger] self.queue@[j]).key() > tc.key() by {
                assert(self.queue@[j].frame > tc.frame);
            }
            crate::sorting::inserted_at(self.queue@, tc, i as int);
            crate::sorting::inserted_keeps_order(self.queue@, tc);
        }
        self.queue.insert(i, tc);
    }

    /// Takes out the commands that take effect in the buffer of `frames` frames
    /// from `now` on, and puts them into `out`, each with its offset in the buffer.
    pub fn take_due(&mut self, now: u64, frames: u32, out: &mut Vec<(u32, AudioCmd)>)
        requires
            old(self).wf(),
            now + frames <= u64::MAX,
        ensures
            final(self).wf(),
            final(out)@ == due_events(old(self)@, now, frames),
            final(self)@ == old(self)@.skip(due_count(old(self)@, now + frames) as int),
    {
        let end: u64 = now + frames as u64;
        let ghost before = self.queue@;
        out.clear();
        let mut n: usize = 0;
        while n < self.queue.len() && self.queue[n].frame < end
            invariant
                self.queue@ == before,
                n <= self.queue@.len(),
                end == now + frames,
                forall|i: int| 0 <= i < n ==> (#[trigger] self.queue@[i]).frame < end,
                out@.len() == n,
                forall|i: int|
                    0 <= i < n ==> (#[trigger] out@[i]) == (
                        offset_of(self.queue@[i].frame, now, frames),
                        self.queue@[i].cmd,
                    ),
            decreases self.queue@.len() - n,
        {
            let tc = self.queue[n];
            let late: u64 = tc.frame.saturating_sub(now);
            let last: u32 = frames.saturating_sub(1);
            let offset: u32 = if late < last as u64 {
                late as u32
            } else {
                last
            };
            out.push((offset, tc.cmd));
            n = n + 1;
        }
        proof {
            lemma_due_count_is(before, end as int, n as nat);
        }
        assert(out@ == due_events(before, now, frames));
        let len: usize = self.queue.len();
        let left: usize = len - n;
        for i in 0..left
            invariant
                left == len - n,
                n <= len,
                self.queue@.len() == len,
                before.len() == len,
                forall|k: int| 0 <= k < i ==> self.queue@[k] == before[n + k],
                forall|k: int| i + n <= k < len ==> self.queue@[k] == before[k],
        {
            let tc = self.queue[i + n];
            self.queue.set(i, tc);
        }
        self.queue.truncate(left);
        assert(self.queue@ == before.skip(n as int));
        assert forall|i: int, j: int| 0 <= i < j < self@.len() implies (#[trigger] self@[i]).key()
            <= (#[trigger] self@[j]).key() by {
            assert(self@[i] == before[n + i]);
            assert(self@[j] == before[n + j]);
        }
    }
}

/// What a buffer is given is in order of the offsets, and every offset lies in
/// the buffer where it has a frame.
pub proof fn due_events_are_ordered(q: Seq<TimedCmd>, now: u64, frames: u32)
    requires
        ordered(q),
        frames > 0,
    ensures
        forall|i: int|
            0 <= i < due_events(q, now, frames).len() ==> (#[trigger] due_events(
                q,
                now,
                frames,
            )[i]).0 < frames,
        forall|i: int, j: int|
            0 <= i < j < due_events(q, now, frames).len() ==> (#[trigger] due_events(
                q,
                now,
                frames,
            )[i]).0 <= (#[trigger] due_events(q, now, frames)[j]).0,
{
    lemma_due_count(q, now + frames);
    assert forall|i: int, j: int| 0 <= i < j < due_events(q, now, frames).len() implies (
    #[trigger] due_events(q, now, frames)[i]).0 <= (#[trigger] due_events(q, now, frames)[j]).0 by {
        assert(q[i].key() <= q[j].key());
    }
}

/// A command that is not late takes effect on its own frame.
pub proof fn due_event_is_on_time(q: Seq<TimedCmd>, now: u64, frames: u32, i: int)
    requires
        0 <= i < due_count(q, now + frames),
        q[i].frame >= now,
    ensures
        now + due_events(q, now, frames)[i].0 == q[i].frame,
        due_events(q, now, frames)[i].1 == q[i].cmd,
{
    lemma_due_count(q, now + frames);
}

/// Of a queue in order, exactly the commands before the buffer's end are taken;
/// the others stay.
pub proof fn later_commands_stay(q: Seq<TimedCmd>, end: int, i: int)
    requires
        ordered(q),
        0 <= i < q.len(),
    ensures
        i < due_count(q, end) <==> q[i].frame < end,
{
    lemma_due_count(q, end);
    if i >= due_count(q, end) && due_count(q, end) < q.len() {
        let k = due_count(q, end) as int;
        if k < i {
            assert(q[k].key() <= q[i].key());
        }
    }
}

/// Computes the whole frames in a buffer of interleaved samples.
pub fn frames_in(samples: usize, channels: usize) -> (r: usize)
    ensures
        r as nat == frames_of(samples as nat, channels as nat),
{
    if channels == 0 {
        samples
    } else {
        samples / channels
    }
}

/// The commands whose flag is `which`.
pub open spec fn picked(cmds: Seq<TimedCmd>, flags: Seq<bool>, which: bool) -> Seq<TimedCmd>
    decreases cmds.len(),
{
    if cmds.len() == 0 {
        Seq::empty()
    } else {
        let rest = picked(cmds.drop_last(), flags.drop_last(), which);
        if flags.last() == which {
            rest.push(cmds.last())
        } else {
            rest
        }
    }
}

/// The commands with their flags.
pub open spec fn with_flags(cmds: Seq<TimedCmd>, flags: Seq<bool>) -> Seq<(TimedCmd, bool)> {
    Seq::new(cmds.len(), |i: int| (cmds[i], flags[i]))
}

/// The control side's handle on the audio thread.
#[verifier::reject_recursive_types(I)]
pub struct AudioEngine<I> {
    pub cmd_tx: CmdProducer,
    pub swap_in_tx: SwapSender<I>,
    pub swap_out_rx: SwapReceiver<I>,
    pub sample_rate: u32,
}

/// The audio thread's ends of the queues.
#[verifier::reject_recursive_types(I)]
pub struct RendererLinks<I> {
    pub cmd_rx: CmdConsumer,
    pub swap_in_rx: SwapReceiver<I>,
    pub swap_out_tx: SwapSender<I>,
}

impl<I> RendererLinks<I> {
    /// The commands received so far.
    pub open spec fn received(&self) -> Seq<TimedCmd> {
        given(self.answers())
    }

    /// What the command queue has answered so far.
    pub open spec fn answers(&self) -> Seq<Option<TimedCmd>> {
        answered(self.cmd_rx)
    }
}

impl<I> AudioEngine<I> {
    /// The commands handed to the audio thread so far.
    pub open spec fn sent(&self) -> Seq<TimedCmd> {
        accepted(self.tries())
    }

    /// The commands that were offered to the queue so far, and whether it took them.
    pub open spec fn tries(&self) -> Seq<(TimedCmd, bool)> {
        tried(self.cmd_tx)
    }

    /// How many commands the queue to the audio thread holds.
    pub open spec fn command_room(&self) -> nat {
        capacity_of(self.cmd_tx)
    }

    /// The instruments handed to the audio thread so far.
    pub open spec fn handed_over(&self) -> Seq<(PluginId, I)> {
        self.swap_in_tx.offered()
    }

    /// How many instruments the queue to the audio thread holds.
    pub open spec fn swap_room(&self) -> nat {
        self.swap_in_tx.capacity()
    }

    /// The instruments that came back from the audio thread so far.
    pub open spec fn taken_back(&self) -> Seq<(PluginId, I)> {
        self.swap_out_rx.taken()
    }

    /// A handle and the audio thread's ends of its queues.
    pub fn connect(sample_rate: u32) -> (r: (Self, RendererLinks<I>))
        ensures
            r.0.sample_rate == sample_rate,
            r.0.sent() == Seq::<TimedCmd>::empty(),
            r.0.tries() == Seq::<(TimedCmd, bool)>::empty(),
            r.0.command_room() == RINGBUF_CAPACITY,
            r.0.handed_over() == Seq::<(PluginId, I)>::empty(),
            r.0.swap_in_tx.calls() == Seq::<SenderCall<I>>::empty(),
            r.0.swap_room() == SWAP_CAPACITY,
            r.0.taken_back() == Seq::<(PluginId, I)>::empty(),
            r.0.swap_out_rx.answers() == Seq::<Option<(PluginId, I)>>::empty(),
            r.1.received() == Seq::<TimedCmd>::empty(),
            r.1.answers() == Seq::<Option<TimedCmd>>::empty(),
            r.1.swap_in_rx.taken() == Seq::<(PluginId, I)>::empty(),
            r.1.swap_in_rx.answers() == Seq::<Option<(PluginId, I)>>::empty(),
            r.1.swap_out_tx.offered() == Seq::<(PluginId, I)>::empty(),
            r.1.swap_out_tx.calls() == Seq::<SenderCall<I>>::empty(),
            r.1.swap_out_tx.capacity() == SWAP_CAPACITY,
    {
        let (cmd_tx, cmd_rx) = command_queue(RINGBUF_CAPACITY);
        let (swap_in_tx, swap_in_rx) = swap_queue::<I>(SWAP_CAPACITY);
        let (swap_out_tx, swap_out_rx) = swap_queue::<I>(SWAP_CAPACITY);
        (
            AudioEngine { cmd_tx, swap_in_tx, swap_out_rx, sample_rate },
            RendererLinks { cmd_rx, swap_in_rx, swap_out_tx },
        )
    }

    /// Hands over a command, and says whether it was taken: a full queue drops it. The
    /// queue cannot be full before it has taken as many commands as it holds.
    pub fn send_timed(&mut self, cmd: TimedCmd) -> (r: bool)
        ensures
            final(self).sample_rate == old(self).sample_rate,
            final(self).swap_in_tx == old(self).swap_in_tx,
            final(self).swap_out_rx == old(self).swap_out_rx,
            final(self).command_room() == old(self).command_room(),
            final(self).tries() == old(self).tries().push((cmd, r)),
            old(self).sent().len() < old(self).command_room() ==> r,
            final(self).sent() == (if r {
                old(self).sent().push(cmd)
            } else {
                old(self).sent()
            }),
    {
        let ghost tries = self.tries();
        let taken = push_command(&mut self.cmd_tx, cmd).is_ok();
        proof {
            accepted_grows(tries, cmd, taken);
        }
        taken
    }

    /// Hands over a command for the frame that is played now.
    pub fn send(&mut self, now_frame: u64, cmd: AudioCmd) -> (r: bool)
        ensures
            final(self).sample_rate == old(self).sample_rate,
            final(self).swap_in_tx == old(self).swap_in_tx,
            final(self).swap_out_rx == old(self).swap_out_rx,
            final(self).command_room() == old(self).command_room(),
            final(self).tries() == old(self).tries().push((TimedCmd { frame: now_frame, cmd }, r)),
            old(self).sent().len() < old(self).command_room() ==> r,
            final(self).sent() == (if r {
                old(self).sent().push(TimedCmd { frame: now_frame, cmd })
            } else {
                old(self).sent()
            }),
    {
        self.send_timed(TimedCmd { frame: now_frame, cmd })
    }

    /// Hands over a row of commands, each of them in its turn. Gives those that were
    /// dropped, which are none as long as the queue holds all that it was ever sent.
    pub fn send_all(&mut self, cmds: &Vec<TimedCmd>) -> (r: Vec<TimedCmd>)
        ensures
            final(self).sample_rate == old(self).sample_rate,
            final(self).swap_in_tx == old(self).swap_in_tx,
            final(self).swap_out_rx == old(self).swap_out_rx,
            final(self).command_room() == old(self).command_room(),
            old(self).sent().len() + cmds@.len() <= old(self).command_room() ==> r@.len() == 0
                && final(self).sent() == old(self).sent() + cmds@,
            exists|kept: Seq<bool>|
                kept.len() == cmds@.len() && final(self).sent() == old(self).sent()
                    + #[trigger] picked(cmds@, kept, true) && r@ == picked(cmds@, kept, false)
                    && final(self).tries() == old(self).tries() + with_flags(cmds@, kept),
    {
        let mut dropped: Vec<TimedCmd> = Vec::new();
        let ghost mut kept: Seq<bool> = Seq::empty();
        for i in 0..cmds.len()
            invariant
                self.sample_rate == old(self).sample_rate,
                self.swap_in_tx == old(self).swap_in_tx,
                self.swap_out_rx == old(self).swap_out_rx,
                self.command_room() == old(self).command_room(),
                kept.len() == i,
                old(self).sent().len() + cmds@.len() <= old(self).command_room() ==> dropped@.len()
                    == 0 && self.sent() == old(self).sent() + cmds@.take(i as int),
                self.tries() == old(self).tries() + with_flags(cmds@.take(i as int), kept),
                self.sent() == old(self).sent() + picked(cmds@.take(i as int), kept, true),
                dropped@ == picked(cmds@.take(i as int), kept, false),
        {
            let ghost before = kept;
            let taken = self.send_timed(cmds[i]);
            if !taken {
                dropped.push(cmds[i]);
            }
            proof {
                kept = before.push(taken);
                assert(kept.drop_last() == before);
                assert(cmds@.take(i + 1).drop_last() == cmds@.take(i as int));
                assert(self.sent() == old(self).sent() + picked(cmds@.take(i + 1), kept, true));
                assert(self.tries() == old(self).tries() + with_flags(cmds@.take(i + 1), kept));
                assert(cmds@.take(i as int).push(cmds@[i as int]) == cmds@.take(i + 1));
            }
        }
        assert(cmds@.take(cmds@.len() as int) == cmds@);
        dropped
    }

    /// Hands an instrument to the audio thread, and says whether it was taken: a full
    /// queue drops it. The queue cannot be full before it has taken as many instruments as
    /// it holds.
    pub fn swap_instrument(&mut self, plugin_id: PluginId, new_inst: I) -> (r: bool)
        ensures
            final(self).sample_rate == old(self).sample_rate,
            final(self).cmd_tx == old(self).cmd_tx,
            final(self).swap_out_rx == old(self).swap_out_rx,
            final(self).swap_in_tx.calls() == old(self).swap_in_tx.calls().push(
                SenderCall::Offer { item: (plugin_id, new_inst), taken: r },
            ),
            final(self).handed_over() == (if r {
                old(self).handed_over().push((plugin_id, new_inst))
            } else {
                old(self).handed_over()
            }),
            final(self).swap_room() == old(self).swap_room(),
            old(self).handed_over().len() < old(self).swap_room() ==> r,
    {
        let ghost calls = self.swap_in_tx.calls();
        let taken = self.swap_in_tx.offer((plugin_id, new_inst)).is_ok();
        proof {
            handed_grows(calls, SenderCall::Offer { item: (plugin_id, new_inst), taken });
        }
        taken
    }

    /// Takes back the instruments that the audio thread has put out, in order, until
    /// the queue has no more of them.
    pub fn take_dropped_instruments(&mut self) -> (r: Vec<(PluginId, I)>)
        ensures
            final(self).sample_rate == old(self).sample_rate,
            final(self).cmd_tx == old(self).cmd_tx,
            final(self).swap_in_tx == old(self).swap_in_tx,
            final(self).taken_back() == old(self).taken_back() + r@,
            final(self).swap_out_rx.answers() == old(self).swap_out_rx.answers() + (if r@.len()
                < usize::MAX {
                all_given(r@).push(None)
            } else {
                all_given(r@)
            }),
    {
        let mut out: Vec<(PluginId, I)> = Vec::new();
        let mut left: usize = usize::MAX;
        let ghost asked = self.swap_out_rx.answers();
        assert(old(self).taken_back() + out@ == old(self).taken_back());
        assert(asked + all_given(out@) == asked);
        while left > 0
            invariant
                self.sample_rate == old(self).sample_rate,
                self.cmd_tx == old(self).cmd_tx,
                self.swap_in_tx == old(self).swap_in_tx,
                self.taken_back() == old(self).taken_back() + out@,
                asked == old(self).swap_out_rx.answers(),
                self.swap_out_rx.answers() == asked + all_given(out@),
                out@.len() + left == usize::MAX,
            decreases left,
        {
            let ghost answers = self.swap_out_rx.answers();
            let next = self.swap_out_rx.take();
            proof {
                given_grows(answers, next);
            }
            match next {
                Some(item) => {
                    let ghost before = out@;
                    out.push(item);
                    assert((old(self).taken_back() + before).push(item) == old(self).taken_back()
                        + out@);
                    assert((asked + all_given(before)).push(Some(item)) == asked + all_given(out@));
                },
                None => {
                    assert((asked + all_given(out@)).push(None) == asked + all_given(out@).push(
                        None,
                    ));
                    return out;
                },
            }
            left = left - 1;
        }
        out
    }
}

/// What the audio callback holds: the instrument that sounds, the queues' ends
/// and the commands that are not due yet.
#[verifier::reject_recursive_types(I)]
pub struct Renderer<I> {
    pub instrument: I,
    pub current_id: PluginId,
    pub links: RendererLinks<I>,
    pub channels: usize,
    pub pending: PendingQueue,
    /// The commands of the buffer that is rendered, with their offsets.
    pub scratch: Vec<(u32, AudioCmd)>,
}

/// Whether a renderer's instrument stayed, and nothing went through its swap queues.
pub open spec fn kept_instrument<I>(before: Renderer<I>, after: Renderer<I>) -> bool {
    &&& after.instrument == before.instrument
    &&& after.current_id == before.current_id
    &&& after.links.swap_in_rx.taken() == before.links.swap_in_rx.taken()
    &&& after.links.swap_out_tx.offered() == before.links.swap_out_tx.offered()
}

/// Whether a renderer took an instrument in and handed back the one that sounded, which
/// is silenced on its way.
pub open spec fn took_over<I: Instrument>(
    before: Renderer<I>,
    after: Renderer<I>,
    item: (PluginId, I),
    offer: SenderCall<I>,
) -> bool {
    &&& (after.current_id, after.instrument) == item
    &&& after.links.swap_in_rx.taken() == before.links.swap_in_rx.taken().push(item)
    &&& offer matches SenderCall::Offer { item: evicted, taken } && taken && evicted.0
        == before.current_id && I::silenced(&before.instrument, &evicted.1)
        && after.links.swap_out_tx.offered() == before.links.swap_out_tx.offered().push(evicted)
}

/// What a renderer does about a swap. It asks the queue back for its free places. Where
/// there are some, it asks the other queue for an instrument, once; and where it gets
/// one, it puts that in and hands the one that sounded to the queue back. There are free
/// places as long as fewer instruments went back than that queue holds.
pub open spec fn swap_tried<I: Instrument>(before: Renderer<I>, after: Renderer<I>) -> bool {
    let (old_calls, calls) = (before.links.swap_out_tx.calls(), after.links.swap_out_tx.calls());
    let (old_answers, answers) = (
        before.links.swap_in_rx.answers(),
        after.links.swap_in_rx.answers(),
    );
    let n = old_calls.len() as int;
    &&& after.links.swap_out_tx.capacity() == before.links.swap_out_tx.capacity()
    &&& calls.len() > n
    &&& calls.take(n) == old_calls
    &&& calls[n] matches SenderCall::Room(places) && places + handed(old_calls).len()
        >= before.links.swap_out_tx.capacity() && if places == 0 {
        calls.len() == n + 1 && answers == old_answers && kept_instrument(before, after)
    } else {
        &&& answers.len() == old_answers.len() + 1
        &&& answers.drop_last() == old_answers
        &&& match answers.last() {
            None => calls.len() == n + 1 && kept_instrument(before, after),
            Some(item) => calls.len() == n + 2 && took_over(before, after, item, calls[n + 1]),
        }
    }
}

/// What the command queue answers while a renderer drains it that then holds `held`
/// commands: every command that comes in, and at last that there is no more, unless the
/// renderer could not hold more.
pub open spec fn drain_answers(fresh: Seq<TimedCmd>, held: nat) -> Seq<Option<TimedCmd>> {
    if held < PENDING_CAP {
        all_given(fresh).push(None)
    } else {
        all_given(fresh)
    }
}

impl<I: Instrument> Renderer<I> {
    /// The commands held back.
    pub open spec fn pending(&self) -> Seq<TimedCmd> {
        self.pending@
    }

    /// The commands received so far.
    pub open spec fn received(&self) -> Seq<TimedCmd> {
        self.links.received()
    }

    pub open spec fn wf(&self) -> bool {
        self.pending.wf()
    }

    pub fn new(instrument: I, current_id: PluginId, links: RendererLinks<I>, channels: usize) -> (r:
        Self)
        ensures
            r.wf(),
            r.instrument == instrument,
            r.current_id == current_id,
            r.channels == channels,
            r.pending() == Seq::<TimedCmd>::empty(),
            r.links == links,
    {
        Renderer {
            instrument,
            current_id,
            links,
            channels,
            pending: PendingQueue::new(),
            scratch: Vec::with_capacity(PENDING_CAP),
        }
    }

    /// Puts in an instrument and gives the one that sounded before.
    pub fn install(&mut self, id: PluginId, inst: I) -> (r: (PluginId, I))
        requires
            old(self).wf(),
        ensures
            final(self).wf(),
            final(self).current_id == id,
            final(self).instrument == inst,
            r.0 == old(self).current_id,
            r.1 == old(self).instrument,
            final(self).channels == old(self).channels,
            final(self).pending() == old(self).pending(),
            final(self).scratch == old(self).scratch,
            final(self).links == old(self).links,
    {
        let mut other = inst;
        std::mem::swap(&mut self.instrument, &mut other);
        let old_id = self.current_id;
        self.current_id = id;
        (old_id, other)
    }

    /// Puts in the next instrument that the control side has handed over, where
    /// there is one and the one that sounded can be handed back. That one is
    /// silenced on its way out and never lost.
    pub fn try_swap_instrument(&mut self)
        requires
            old(self).wf(),
        ensures
            final(self).wf(),
            final(self).channels == old(self).channels,
            final(self).pending() == old(self).pending(),
            final(self).scratch == old(self).scratch,
            final(self).links.cmd_rx == old(self).links.cmd_rx,
            swap_tried(*old(self), *final(self)),
    {
        let ghost calls = self.links.swap_out_tx.calls();
        let places = self.links.swap_out_tx.vacant();
        proof {
            handed_grows(calls, SenderCall::Room(places));
        }
        if places == 0 {
            assert(self.links.swap_out_tx.calls().take(calls.len() as int) == calls);
            return;
        }
        let ghost asked = self.links.swap_out_tx.calls();
        let ghost answers = self.links.swap_in_rx.answers();
        let next = self.links.swap_in_rx.take();
        proof {
            given_grows(answers, next);
        }
        match next {
            Some((id, inst)) => {
                let (old_id, mut evicted) = self.install(id, inst);
                evicted.all_notes_off();
                let _ = self.links.swap_out_tx.offer((old_id, evicted));
                proof {
                    handed_grows(asked, SenderCall::Offer { item: (old_id, evicted), taken: true });
                }
            },
            None => {},
        }
        assert(self.links.swap_out_tx.calls().take(calls.len() as int) == calls);
        assert(self.links.swap_in_rx.answers().drop_last() == answers);
    }

    /// Takes commands out of the queue until it has no more of them or no more can be
    /// held.
    pub fn drain_into_pending(&mut self)
        requires
            old(self).wf(),
        ensures
            final(self).wf(),
            final(self).instrument == old(self).instrument,
            final(self).current_id == old(self).current_id,
            final(self).links.swap_in_rx == old(self).links.swap_in_rx,
            final(self).links.swap_out_tx == old(self).links.swap_out_tx,
            final(self).channels == old(self).channels,
            final(self).scratch == old(self).scratch,
            final(self).links.answers() == old(self).links.answers() + drain_answers(
                final(self).received().skip(old(self).received().len() as int),
                final(self).pending().len(),
            ),
            old(self).received().len() <= final(self).received().len(),
            final(self).received().take(old(self).received().len() as int) == old(self).received(),
            final(self).pending() == all_inserted(
                old(self).pending(),
                final(self).received().skip(old(self).received().len() as int),
            ),
    {
        let ghost before = self.received();
        let ghost mut fresh: Seq<TimedCmd> = Seq::empty();
        let ghost asked = self.links.answers();
        assert(before + fresh == before);
        assert(asked + all_given(fresh) == asked);
        while !self.pending.is_full()
            invariant_except_break
                self.links.answers() == asked + all_given(fresh),
            invariant
                self.wf(),
                self.instrument == old(self).instrument,
                self.current_id == old(self).current_id,
                self.links.swap_in_rx == old(self).links.swap_in_rx,
                self.links.swap_out_tx == old(self).links.swap_out_tx,
                self.channels == old(self).channels,
                self.scratch == old(self).scratch,
                before == old(self).received(),
                self.received() == before + fresh,
                self.pending() == all_inserted(old(self).pending(), fresh),
                asked == old(self).links.answers(),
            ensures
                self.wf(),
                self.instrument == old(self).instrument,
                self.current_id == old(self).current_id,
                self.links.swap_in_rx == old(self).links.swap_in_rx,
                self.links.swap_out_tx == old(self).links.swap_out_tx,
                self.channels == old(self).channels,
                self.scratch == old(self).scratch,
                self.received() == before + fresh,
                self.pending() == all_inserted(old(self).pending(), fresh),
                self.links.answers() == asked + drain_answers(fresh, self.pending().len()),
            decreases PENDING_CAP - self.pending@.len(),
        {
            let ghost answers = self.links.answers();
            let next = pop_command(&mut self.links.cmd_rx);
            proof {
                given_grows(answers, next);
            }
            match next {
                Some(tc) => {
                    proof {
                        assert(fresh.push(tc).drop_last() == fresh);
                        assert((before + fresh).push(tc) == before + fresh.push(tc));
                        assert((asked + all_given(fresh)).push(Some(tc)) == asked + all_given(
                            fresh.push(tc),
                        ));
                        fresh = fresh.push(tc);
                    }
                    self.pending.insert(tc);
                },
                None => {
                    assert((asked + all_given(fresh)).push(None) == asked + all_given(fresh).push(
                        None,
                    ));
                    break ;
                },
            }
        }
        assert(self.received().take(before.len() as int) == before);
        assert(self.received().skip(before.len() as int) == fresh);
    }

    /// What comes before a buffer is rendered: a pending swap, the commands that
    /// have arrived, and then those that take effect in the buffer, which are put
    /// into `scratch`.
    pub fn prepare(&mut self, now: u64, samples: usize)
        requires
            old(self).wf(),
            frames_of(samples as nat, old(self).channels as nat) <= u32::MAX,
            now + frames_of(samples as nat, old(self).channels as nat) <= u64::MAX,
        ensures
            final(self).wf(),
            final(self).channels == old(self).channels,
            swap_tried(*old(self), *final(self)),
            old(self).received().len() <= final(self).received().len(),
            final(self).received().take(old(self).received().len() as int) == old(self).received(),
            ({
                let frames = frames_of(samples as nat, old(self).channels as nat) as u32;
                let fresh = final(self).received().skip(old(self).received().len() as int);
                let held = all_inserted(old(self).pending(), fresh);
                &&& final(self).links.answers() == old(self).links.answers()
                    + drain_answers(fresh, held.len())
                &&& final(self).scratch@ == due_events(held, now, frames)
                &&& final(self).pending() == held.skip(due_count(held, now + frames) as int)
            }),
    {
        self.try_swap_instrument();
        self.drain_into_pending();
        let frames: u32 = frames_in(samples, self.channels) as u32;
        self.pending.take_due(now, frames, &mut self.scratch);
    }
}

/// A buffer has as many frames as it holds whole rows of one sample for every channel.
pub proof fn frame_has_a_sample_for_every_channel(samples: nat, channels: nat)
    ensures
        channels > 0 ==> frames_of(samples, channels) * channels <= samples < (frames_of(
            samples,
            channels,
        ) + 1) * channels,
        frames_of(samples, 0) == samples,
{
    if channels > 0 {
        vstd::arithmetic::div_mod::lemma_fundamental_div_mod(samples as int, channels as int);
        let q = frames_of(samples, channels);
        assert(channels * q == q * channels && (q + 1) * channels == q * channels + channels)
            by (nonlinear_arith);
    }
}

/// A command takes effect on its own frame where that lies in the buffer, at once where
/// it is late, and never behind the buffer's last frame.
pub proof fn command_lands_where_it_should(frame: u64, now: u64, frames: u32)
    requires
        frames > 0,
    ensures
        frame <= now ==> offset_of(frame, now, frames) == 0,
        now <= frame < now + frames ==> now + offset_of(frame, now, frames) == frame,
        frame >= now + frames ==> offset_of(frame, now, frames) == frames - 1,
{
}

/// Commands that come in are held in order of their frames together with those that were
/// held before: none is lost, none is added, and of two for one frame the one that came
/// first takes effect first.
pub proof fn held_commands_keep_their_order(q: Seq<TimedCmd>, cmds: Seq<TimedCmd>, frame: u64)
    requires
        forall|i: int, j: int|
            0 <= i < j < q.len() ==> (#[trigger] q[i]).frame <= (#[trigger] q[j]).frame,
    ensures
        ({
            let r = all_inserted(q, cmds);
            &&& r.to_multiset() == q.to_multiset().add(cmds.to_multiset())
            &&& forall|i: int, j: int|
                0 <= i < j < r.len() ==> (#[trigger] r[i]).frame <= (#[trigger] r[j]).frame
            &&& on_frame(r, frame) == on_frame(q, frame) + on_frame(cmds, frame)
        }),
    decreases cmds.len(),
{
    broadcast use vstd::seq_lib::group_to_multiset_ensures;

    let r = all_inserted(q, cmds);
    lemma_on_frame(r, frame);
    lemma_on_frame(q, frame);
    lemma_on_frame(cmds, frame);
    if cmds.len() == 0 {
        assert(cmds == Seq::<TimedCmd>::empty());
        assert(cmds.to_multiset() == vstd::multiset::Multiset::<TimedCmd>::empty());
        assert(q.to_multiset().add(cmds.to_multiset()) =~= q.to_multiset());
        assert(on_frame(q, frame) + on_frame(cmds, frame) == on_frame(q, frame));
    } else {
        let (init, c) = (cmds.drop_last(), cmds.last());
        held_commands_keep_their_order(q, init, frame);
        let s = all_inserted(q, init);
        lemma_on_frame(s, frame);
        lemma_on_frame(init, frame);
        assert(ordered(s)) by {
            assert forall|i: int, j: int| 0 <= i < j < s.len() implies (#[trigger] s[i]).key() <= (
            #[trigger] s[j]).key() by {
                assert(s[i].frame <= s[j].frame);
            }
        }
        crate::sorting::inserted_keeps_order(s, c);
        crate::sorting::inserted_goes_behind_its_equals(s, c, frame as int);
        assert(cmds == init.push(c));
        assert(q.to_multiset().add(init.to_multiset()).insert(c) =~= q.to_multiset().add(
            init.to_multiset().insert(c),
        ));
        assert forall|i: int, j: int| 0 <= i < j < r.len() implies (#[trigger] r[i]).frame <= (
        #[trigger] r[j]).frame by {
            assert(r[i].key() <= r[j].key());
        }
        assert((on_frame(q, frame) + on_frame(init, frame)).push(c) == on_frame(q, frame)
            + on_frame(init, frame).push(c));
    }
}

/// The commands for a frame, in their order.
pub open spec fn on_frame(q: Seq<TimedCmd>, frame: u64) -> Seq<TimedCmd>
    decreases q.len(),
{
    if q.len() == 0 {
        q
    } else if q.last().frame == frame {
        on_frame(q.drop_last(), frame).push(q.last())
    } else {
        on_frame(q.drop_last(), frame)
    }
}

proof fn lemma_on_frame(q: Seq<TimedCmd>, frame: u64)
    ensures
        on_frame(q, frame) == crate::sorting::with_key(q, frame as int),
    decreases q.len(),
{
    if q.len() > 0 {
        lemma_on_frame(q.drop_last(), frame);
    }
}

/// Of some commands those are dropped that are not kept, each in its place.
pub proof fn dropped_commands_were_not_kept(
    cmds: Seq<TimedCmd>,
    flags: Seq<bool>,
    c: TimedCmd,
    kept: bool,
)
    ensures
        picked(cmds.push(c), flags.push(kept), kept) == picked(cmds, flags, kept).push(c),
        picked(cmds.push(c), flags.push(kept), !kept) == picked(cmds, flags, !kept),
        picked(Seq::empty(), flags, kept) == Seq::<TimedCmd>::empty(),
{
    assert(cmds.push(c).drop_last() == cmds);
    assert(flags.push(kept).drop_last() == flags);
}

/// Every command that is due is taken, with what it does; taking it keeps the others as
/// they were.
pub proof fn due_commands_are_taken(q: Seq<TimedCmd>, now: u64, frames: u32, i: int)
    requires
        forall|i: int, j: int|
            0 <= i < j < q.len() ==> (#[trigger] q[i]).frame <= (#[trigger] q[j]).frame,
        0 <= i < q.len(),
        frames > 0,
    ensures
        ({
            let n = due_count(q, now + frames) as int;
            let due = due_events(q, now, frames);
            &&& due.len() == n <= q.len()
            &&& q[i].frame < now + frames ==> i < n && due[i].1 == q[i].cmd && (q[i].frame >= now
                ==> now + due[i].0 == q[i].frame) && (q[i].frame < now ==> due[i].0 == 0)
            &&& q[i].frame >= now + frames ==> i >= n && q.skip(n)[i - n] == q[i]
        }),
{
    lemma_due_count(q, now + frames);
    assert(ordered(q)) by {
        assert forall|i: int, j: int| 0 <= i < j < q.len() implies (#[trigger] q[i]).key() <= (
        #[trigger] q[j]).key() by {
            assert(q[i].frame <= q[j].frame);
        }
    }
    later_commands_stay(q, now + frames, i);
}

/// A swap that takes place lets the instrument sound that the control side handed over,
/// under its number, and hands back the one that sounded before under the number that it
/// had, with all notes let go. One that does not changes neither.
pub proof fn swap_brings_the_new_and_returns_the_old<I: Instrument>(
    before: Renderer<I>,
    after: Renderer<I>,
)
    requires
        swap_tried(before, after),
    ensures
        ({
            let (came, went) = (after.links.swap_in_rx.taken(), after.links.swap_out_tx.offered());
            let (came0, went0) = (
                before.links.swap_in_rx.taken(),
                before.links.swap_out_tx.offered(),
            );
            ||| came == came0 && went == went0 && after.current_id == before.current_id
                && after.instrument == before.instrument
            ||| came.len() == came0.len() + 1 && came.drop_last() == came0 && came.last() == (
                after.current_id,
                after.instrument,
            ) && went.len() == went0.len() + 1 && went.drop_last() == went0 && went.last().0
                == before.current_id && I::silenced(&before.instrument, &went.last().1)
        }),
{
    let (came0, went0) = (before.links.swap_in_rx.taken(), before.links.swap_out_tx.offered());
    let n = before.links.swap_out_tx.calls().len() as int;
    let calls = after.links.swap_out_tx.calls();
    if let SenderCall::Room(places) = calls[n] {
        if places > 0 {
            if let Some(item) = after.links.swap_in_rx.answers().last() {
                assert(came0.push(item).drop_last() == came0);
                if let SenderCall::Offer { item: evicted, taken } = calls[n + 1] {
                    assert(went0.push(evicted).drop_last() == went0);
                }
            }
        }
    }
}

/// What comes out of the command queue while it is drained is what is received, and the
/// draining ends when there is no more or no more can be held.
pub proof fn drained_commands_are_received(fresh: Seq<TimedCmd>, held: nat)
    ensures
        given(drain_answers(fresh, held)) == fresh,
        held < 512 <==> drain_answers(fresh, held).len() == fresh.len() + 1,
{
    lemma_all_given(fresh);
    given_grows(all_given(fresh), None::<TimedCmd>);
}

proof fn lemma_all_given(fresh: Seq<TimedCmd>)
    ensures
        given(all_given(fresh)) == fresh,
    decreases fresh.len(),
{
    let all = all_given(fresh);
    if fresh.len() > 0 {
        let init = fresh.drop_last();
        lemma_all_given(init);
        assert(all.drop_last() == all_given(init));
        assert(init.push(fresh.last()) == fresh);
    } else {
        assert(all == Seq::<Option<TimedCmd>>::empty());
        assert(given(all) == fresh);
    }
}

/// Of every command that was offered it is kept whether it was taken.
pub proof fn offers_are_kept(cmds: Seq<TimedCmd>, flags: Seq<bool>, c: TimedCmd, kept: bool)
    requires
        cmds.len() == flags.len(),
    ensures
        with_flags(cmds.push(c), flags.push(kept)) == with_flags(cmds, flags).push((c, kept)),
        with_flags(Seq::empty(), Seq::empty()) == Seq::<(TimedCmd, bool)>::empty(),
{
}

/// The queue of new instruments is asked only where an old one could go back, and then
/// once.
pub proof fn swap_is_asked_for_where_there_is_room<I: Instrument>(
    before: Renderer<I>,
    after: Renderer<I>,
)
    requires
        swap_tried(before, after),
    ensures
        ({
            let n = before.links.swap_out_tx.calls().len() as int;
            let (a, b) = (before.links.swap_in_rx.answers(), after.links.swap_in_rx.answers());
            &&& after.links.swap_out_tx.calls().take(n) == before.links.swap_out_tx.calls()
            &&& after.links.swap_out_tx.calls()[n] is Room
            &&& after.links.swap_out_tx.calls()[n]->Room_0 == 0 ==> b == a
            &&& after.links.swap_out_tx.calls()[n]->Room_0 > 0 ==> b.len() == a.len() + 1
                && b.drop_last() == a
        }),
{
}

} // verus!
