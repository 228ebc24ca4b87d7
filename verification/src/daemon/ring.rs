//! Single-producer, single-consumer queues between the control side and the
//! audio thread.
use crate::daemon::audio::TimedCmd;
use crate::daemon::instrument::PluginId;
use ringbuf::traits::{Consumer, Observer, Producer, Split};
use vstd::prelude::*;

verus! {

/// The sending end of a command queue: a `ringbuf::HeapProd`.
#[verifier::external_body]
pub struct CmdProducer {
    inner: ringbuf::HeapProd<TimedCmd>,
}

/// The receiving end of a command queue: a `ringbuf::HeapCons`.
#[verifier::external_body]
pub struct CmdConsumer {
    inner: ringbuf::HeapCons<TimedCmd>,
}

/// The sending end of an instrument queue: a `ringbuf::HeapProd`.
#[verifier::external_body]
#[verifier::reject_recursive_types(I)]
pub struct SwapProducer<I> {
    inner: ringbuf::HeapProd<(PluginId, I)>,
}

/// The receiving end of an instrument queue: a `ringbuf::HeapCons`.
#[verifier::external_body]
#[verifier::reject_recursive_types(I)]
pub struct SwapConsumer<I> {
    inner: ringbuf::HeapCons<(PluginId, I)>,
}

/// The commands that the queue was offered at this end, in order, and whether it took
/// them.
pub uninterp spec fn tried(p: CmdProducer) -> Seq<(TimedCmd, bool)>;

/// How many commands the queue holds.
pub uninterp spec fn capacity_of(p: CmdProducer) -> nat;

/// What the queue has answered each time it was asked for a command at this end, in
/// order.
pub uninterp spec fn answered(c: CmdConsumer) -> Seq<Option<TimedCmd>>;

/// The commands that were taken.
pub open spec fn accepted(tries: Seq<(TimedCmd, bool)>) -> Seq<TimedCmd>
    decreases tries.len(),
{
    if tries.len() == 0 {
        Seq::empty()
    } else {
        let rest = accepted(tries.drop_last());
        if tries.last().1 {
            rest.push(tries.last().0)
        } else {
            rest
        }
    }
}

/// What was given out in some answers.
pub open spec fn given<T>(answers: Seq<Option<T>>) -> Seq<T>
    decreases answers.len(),
{
    if answers.len() == 0 {
        Seq::empty()
    } else {
        let rest = given(answers.drop_last());
        match answers.last() {
            Some(x) => rest.push(x),
            None => rest,
        }
    }
}

/// The answers of a queue that gives these items out.
pub open spec fn all_given<T>(items: Seq<T>) -> Seq<Option<T>> {
    items.map_values(|x: T| Some(x))
}

/// One more offer adds its command where that was taken.
pub proof fn accepted_grows(tries: Seq<(TimedCmd, bool)>, cmd: TimedCmd, taken: bool)
    ensures
        accepted(tries.push((cmd, taken))) == (if taken {
            accepted(tries).push(cmd)
        } else {
            accepted(tries)
        }),
{
    assert(tries.push((cmd, taken)).drop_last() == tries);
}

/// One more answer adds what it gives out.
pub proof fn given_grows<T>(answers: Seq<Option<T>>, answer: Option<T>)
    ensures
        given(answers.push(answer)) == (match answer {
            Some(x) => given(answers).push(x),
            None => given(answers),
        }),
{
    assert(answers.push(answer).drop_last() == answers);
}

/// Calls `ringbuf::HeapRb::new` and `split`: the two ends of an empty queue that holds
/// so many commands. The crate refuses a capacity of zero.
#[verifier::external_body]
pub(crate) fn command_queue(capacity: usize) -> (r: (CmdProducer, CmdConsumer))
    requires
        0 < capacity <= 65536,
    ensures
        tried(r.0) == Seq::<(TimedCmd, bool)>::empty(),
        capacity_of(r.0) == capacity,
        answered(r.1) == Seq::<Option<TimedCmd>>::empty(),
{
    let (p, c) = ringbuf::HeapRb::new(capacity).split();
    (CmdProducer { inner: p }, CmdConsumer { inner: c })
}

/// Calls `ringbuf`'s `Producer::try_push`: the queue takes the command, or is full
/// and hands it back. It holds no more than it has taken, so it is not full as long as
/// it has taken fewer commands than it can hold. After that, whether it is full depends
/// on the other end, which another thread holds, and is not stated.
#[verifier::external_body]
pub(crate) fn push_command(p: &mut CmdProducer, cmd: TimedCmd) -> (r: Result<(), TimedCmd>)
    ensures
        tried(*final(p)) == tried(*old(p)).push((cmd, r is Ok)),
        r matches Err(c) ==> c == cmd,
        accepted(tried(*old(p))).len() < capacity_of(*old(p)) ==> r is Ok,
        capacity_of(*final(p)) == capacity_of(*old(p)),
{
    p.inner.try_push(cmd)
}

/// Calls `ringbuf`'s `Consumer::try_pop`: the eldest command, or nothing where the
/// queue is empty. What the other end has sent by then is not stated.
#[verifier::external_body]
pub(crate) fn pop_command(c: &mut CmdConsumer) -> (r: Option<TimedCmd>)
    ensures
        answered(*final(c)) == answered(*old(c)).push(r),
{
    c.inner.try_pop()
}

/// A call of the sending end of an instrument queue, and what came of it.
pub enum SenderCall<I> {
    /// The queue was asked for its free places.
    Room(usize),
    /// An instrument was offered to the queue.
    Offer { item: (PluginId, I), taken: bool },
}

/// The instruments that were taken in some calls.
pub open spec fn handed<I>(calls: Seq<SenderCall<I>>) -> Seq<(PluginId, I)>
    decreases calls.len(),
{
    if calls.len() == 0 {
        Seq::empty()
    } else {
        let rest = handed(calls.drop_last());
        match calls.last() {
            SenderCall::Offer { item, taken } => if taken {
                rest.push(item)
            } else {
                rest
            },
            SenderCall::Room(_) => rest,
        }
    }
}

/// One more call adds the instrument that was taken in it.
pub proof fn handed_grows<I>(calls: Seq<SenderCall<I>>, call: SenderCall<I>)
    ensures
        handed(calls.push(call)) == (match call {
            SenderCall::Offer { item, taken } => if taken {
                handed(calls).push(item)
            } else {
                handed(calls)
            },
            SenderCall::Room(_) => handed(calls),
        }),
{
    assert(calls.push(call).drop_last() == calls);
}

/// The sending end of an instrument queue. Its history is what it was called for; only
/// the calls of the queue itself add to it.
#[verifier::reject_recursive_types(I)]
pub struct SwapSender<I> {
    ring: SwapProducer<I>,
    history: Ghost<Seq<SenderCall<I>>>,
    places: Ghost<nat>,
}

/// The receiving end of an instrument queue. Its history is what the queue has answered;
/// only the calls of the queue itself add to it.
#[verifier::reject_recursive_types(I)]
pub struct SwapReceiver<I> {
    ring: SwapConsumer<I>,
    history: Ghost<Seq<Option<(PluginId, I)>>>,
}

/// Calls `ringbuf::HeapRb::new` and `split`: the two ends of an empty queue that holds
/// so many instruments. The crate refuses a capacity of zero.
#[verifier::external_body]
pub(crate) fn swap_queue<I>(capacity: usize) -> (r: (SwapSender<I>, SwapReceiver<I>))
    requires
        0 < capacity <= 65536,
    ensures
        r.0.calls() == Seq::<SenderCall<I>>::empty(),
        r.0.capacity() == capacity,
        r.1.answers() == Seq::<Option<(PluginId, I)>>::empty(),
{
    let (p, c) = ringbuf::HeapRb::new(capacity).split();
    let ring = SwapProducer { inner: p };
    let places = Ghost(capacity as nat);
    let sender = SwapSender { ring, history: Ghost(Seq::empty()), places };
    (sender, SwapReceiver { ring: SwapConsumer { inner: c }, history: Ghost(Seq::empty()) })
}

impl<I> SwapSender<I> {
    /// What this end was called for, in order.
    pub closed spec fn calls(&self) -> Seq<SenderCall<I>> {
        self.history@
    }

    /// The instruments that the queue has taken, in order.
    pub open spec fn offered(&self) -> Seq<(PluginId, I)> {
        handed(self.calls())
    }

    /// How many instruments the queue holds.
    pub closed spec fn capacity(&self) -> nat {
        self.places@
    }

    /// Calls `ringbuf`'s `Producer::try_push`: the queue takes the instrument, or is full
    /// and hands it back. It is not full as long as it has taken fewer instruments than it
    /// can hold, nor where it was just asked for its free places and had some, since the
    /// other end only frees more. Otherwise, whether it is full depends on the other end
    /// and is not stated.
    #[verifier::external_body]
    pub(crate) fn offer(&mut self, item: (PluginId, I)) -> (r: Result<(), (PluginId, I)>)
        ensures
            final(self).calls() == old(self).calls().push(
                SenderCall::Offer { item, taken: r is Ok },
            ),
            final(self).capacity() == old(self).capacity(),
            r matches Err(back) ==> back == item,
            old(self).offered().len() < old(self).capacity() ==> r is Ok,
            old(self).calls().len() > 0 && (old(self).calls().last() matches SenderCall::Room(n)
                && n > 0) ==> r is Ok,
    {
        self.ring.inner.try_push(item)
    }

    /// Calls `ringbuf`'s `Observer::vacant_len`: the free places. At least those are free
    /// that no instrument ever took. How many of the others are depends on the other end
    /// and is not stated.
    #[verifier::external_body]
    pub(crate) fn vacant(&mut self) -> (r: usize)
        ensures
            final(self).calls() == old(self).calls().push(SenderCall::Room(r)),
            final(self).capacity() == old(self).capacity(),
            r <= old(self).capacity() <= r + old(self).offered().len(),
    {
        self.ring.inner.vacant_len()
    }
}

impl<I> SwapReceiver<I> {
    /// What the queue has answered each time it was asked for an instrument, in order.
    pub closed spec fn answers(&self) -> Seq<Option<(PluginId, I)>> {
        self.history@
    }

    /// The instruments that the queue has given out, in order.
    pub open spec fn taken(&self) -> Seq<(PluginId, I)> {
        given(self.answers())
    }

    /// Calls `ringbuf`'s `Consumer::try_pop`: the eldest instrument, or nothing where the
    /// queue is empty. What the other end has sent by then is not stated.
    #[verifier::external_body]
    pub(crate) fn take(&mut self) -> (r: Option<(PluginId, I)>)
        ensures
            final(self).answers() == old(self).answers().push(r),
    {
        self.ring.inner.try_pop()
    }
}

} // verus!
