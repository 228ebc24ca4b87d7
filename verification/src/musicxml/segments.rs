//! Notes cut at barlines, with their ties and slurs.
use crate::sorting::{sorted, sorted_keeps_items, stable_sort, Keyed};
use crate::theory::phrase::{ends_fit, Phrase, PhraseView};
use crate::theory::rhythm::{bar_ticks, NoteEvent};
use vstd::prelude::*;

verus! {

/// A piece of a note that lies within one bar.
#[derive(Debug, Clone, Copy, PartialEq, Eq, Structural)]
pub struct Segment {
    pub pitch: u8,
    pub start: u32,
    pub duration: u32,
    pub voice: u8,
    pub tie_start: bool,
    pub tie_stop: bool,
    pub slur_start: bool,
    pub slur_stop: bool,
    /// The note that the piece belongs to.
    pub parent_idx: usize,
}

/// Segments are ordered by their starts, and by voice where they start together.
impl Keyed for Segment {
    open spec fn key(&self) -> int {
        self.start * 256 + self.voice
    }

    fn sort_key(&self) -> (k: u64) {
        self.start as u64 * 256 + self.voice as u64
    }
}

/// A note's place in its voice.
#[derive(Clone, Copy, PartialEq, Eq, Structural)]
pub struct Placed {
    pub start: u32,
    pub index: usize,
    pub group: Option<u8>,
}

/// The notes of a voice are ordered by their starts.
impl Keyed for Placed {
    open spec fn key(&self) -> int {
        self.start as int
    }

    fn sort_key(&self) -> (k: u64) {
        self.start as u64
    }
}

/// The places of the notes of a voice, in the events' order.
pub open spec fn places(events: Seq<NoteEvent>, voice: u8) -> Seq<Placed>
    decreases events.len(),
{
    if events.len() == 0 {
        Seq::empty()
    } else {
        let rest = places(events.drop_last(), voice);
        let ev = events.last();
        if ev.voice == voice {
            rest.push(
                Placed {
                    start: ev.start,
                    index: (events.len() - 1) as usize,
                    group: ev.slur_group,
                },
            )
        } else {
            rest
        }
    }
}

/// The notes of a voice in order of their starts.
pub open spec fn voice_line(events: Seq<NoteEvent>, voice: u8) -> Seq<Placed> {
    sorted(places(events, voice))
}

/// Whether the `k`th note of a line opens a run of two or more notes of one slur
/// group.
pub open spec fn opens_run(line: Seq<Placed>, k: int) -> bool {
    &&& line[k].group is Some
    &&& k == 0 || line[k - 1].group != line[k].group
    &&& k + 1 < line.len() && line[k + 1].group == line[k].group
}

/// Whether the `k`th note of a line closes a run of two or more notes of one slur
/// group.
pub open spec fn closes_run(line: Seq<Placed>, k: int) -> bool {
    &&& line[k].group is Some
    &&& k > 0 && line[k - 1].group == line[k].group
    &&& k + 1 == line.len() || line[k + 1].group != line[k].group
}

/// Whether a slur starts at the event.
pub open spec fn slur_starts_at(events: Seq<NoteEvent>, i: int) -> bool {
    let line = voice_line(events, events[i].voice);
    exists|k: int| 0 <= k < line.len() && (#[trigger] line[k]).index == i && opens_run(line, k)
}

/// Whether a slur stops at the event.
pub open spec fn slur_stops_at(events: Seq<NoteEvent>, i: int) -> bool {
    let line = voice_line(events, events[i].voice);
    exists|k: int| 0 <= k < line.len() && (#[trigger] line[k]).index == i && closes_run(line, k)
}

/// The end of the bar in which tick `s` lies.
pub open spec fn bar_end(s: int, tpb: int) -> int {
    (s / tpb + 1) * tpb
}

/// A bar ends after every tick in it, and at most a bar later.
pub proof fn bar_end_follows(s: int, tpb: int)
    requires
        0 <= s,
        0 < tpb,
    ensures
        s < bar_end(s, tpb) <= s + tpb,
        bar_end(s, tpb) % tpb == 0,
{
    let q = s / tpb;
    let r = s % tpb;
    vstd::arithmetic::div_mod::lemma_fundamental_div_mod(s, tpb);
    assert(tpb * q == q * tpb) by (nonlinear_arith);
    assert((q + 1) * tpb == q * tpb + tpb) by (nonlinear_arith);
    vstd::arithmetic::div_mod::lemma_mod_multiples_basic(q + 1, tpb);
}

/// The lesser of two numbers.
pub open spec fn lesser(a: int, b: int) -> int {
    if a < b {
        a
    } else {
        b
    }
}

/// One piece of an event, from `s` to `e`.
pub open spec fn piece(
    ev: NoteEvent,
    idx: nat,
    s: int,
    e: int,
    starts: bool,
    stops: bool,
) -> Segment {
    let end = ev.start + ev.duration;
    Segment {
        pitch: ev.pitch,
        start: s as u32,
        duration: (e - s) as u32,
        voice: if ev.voice == 0 {
            1
        } else {
            ev.voice
        },
        tie_start: e != end,
        tie_stop: s != ev.start,
        slur_start: s == ev.start && starts,
        slur_stop: e == end && stops,
        parent_idx: idx as usize,
    }
}

/// The pieces of an event from `s` on, cut at every barline.
pub open spec fn pieces(
    ev: NoteEvent,
    idx: nat,
    tpb: int,
    s: int,
    starts: bool,
    stops: bool,
) -> Seq<Segment>
    decreases ev.start + ev.duration - s,
{
    let end = ev.start + ev.duration;
    if s >= end || tpb <= 0 || s < 0 {
        Seq::empty()
    } else {
        proof {
            bar_end_follows(s, tpb);
        }
        let e = lesser(end, bar_end(s, tpb));
        seq![piece(ev, idx, s, e, starts, stops)] + pieces(ev, idx, tpb, e, starts, stops)
    }
}

/// The pieces of the first `n` events.
pub open spec fn all_pieces(events: Seq<NoteEvent>, tpb: int, n: nat) -> Seq<Segment>
    decreases n,
{
    if n == 0 {
        Seq::empty()
    } else {
        let i = n - 1;
        all_pieces(events, tpb, i as nat) + pieces(
            events[i],
            i as nat,
            tpb,
            events[i].start as int,
            slur_starts_at(events, i),
            slur_stops_at(events, i),
        )
    }
}

/// The pieces of a phrase in order of their starts and voices.
pub open spec fn phrase_segments(p: PhraseView) -> Seq<Segment> {
    sorted(all_pieces(p.events, bar_ticks(p.time_sig), p.events.len()))
}

/// Whether the phrase can be cut: its notes' ends and the ends of the bars that
/// they lie in can be counted, and bars are not empty where there is a note.
pub open spec fn can_be_cut(p: PhraseView) -> bool {
    ends_fit(p.events) && forall|i: int|
        0 <= i < p.events.len() && (#[trigger] p.events[i]).duration > 0 ==> bar_ticks(p.time_sig)
            > 0 && bar_end(
            p.events[i].start + p.events[i].duration - 1,
            bar_ticks(p.time_sig),
        ) <= u32::MAX
}

proof fn lemma_places(events: Seq<NoteEvent>, voice: u8)
    ensures
        places(events, voice).len() <= events.len(),
        forall|k: int|
            0 <= k < places(events, voice).len() ==> (#[trigger] places(events, voice)[k]).index
                < events.len() && (events.len() <= usize::MAX ==> events[places(
                events,
                voice,
            )[k].index as int].voice == voice),
    decreases events.len(),
{
    if events.len() > 0 {
        let init = events.drop_last();
        lemma_places(init, voice);
        assert forall|k: int| 0 <= k < places(events, voice).len() implies (#[trigger] places(
            events,
            voice,
        )[k]).index < events.len() && (events.len() <= usize::MAX ==> events[places(
            events,
            voice,
        )[k].index as int].voice == voice) by {
            if k < places(init, voice).len() {
                assert(places(events, voice)[k] == places(init, voice)[k]);
            }
        }
    }
}

proof fn lemma_line(events: Seq<NoteEvent>, voice: u8)
    requires
        events.len() <= usize::MAX,
    ensures
        forall|k: int|
            0 <= k < voice_line(events, voice).len() ==> (#[trigger] voice_line(
                events,
                voice,
            )[k]).index < events.len() && events[voice_line(events, voice)[k].index as int].voice
                == voice,
{
    lemma_places(events, voice);
    sorted_keeps_items(places(events, voice));
    assert forall|k: int| 0 <= k < voice_line(events, voice).len() implies (#[trigger] voice_line(
        events,
        voice,
    )[k]).index < events.len() && events[voice_line(events, voice)[k].index as int].voice
        == voice by {
        let x = voice_line(events, voice)[k];
        assert(places(events, voice).contains(x));
        let j = choose|j: int|
            0 <= j < places(events, voice).len() && places(events, voice)[j] == x;
        assert(places(events, voice)[j].index < events.len());
    }
}

/// The notes of a voice in order of their starts.
fn line_of(events: &Vec<NoteEvent>, voice: u8) -> (r: Vec<Placed>)
    ensures
        r@ == voice_line(events@, voice),
{
    let mut out: Vec<Placed> = Vec::new();
    assert(events@.take(0) == Seq::<NoteEvent>::empty());
    for i in 0..events.len()
        invariant
            out@ == places(events@.take(i as int), voice),
    {
        let ev = events[i];
        assert(events@.take(i + 1).drop_last() == events@.take(i as int));
        if ev.voice == voice {
            out.push(Placed { start: ev.start, index: i, group: ev.slur_group });
        }
    }
    assert(events@.take(events@.len() as int) == events@);
    stable_sort(out)
}

/// Whether two slur groups are one.
fn same_group(a: Option<u8>, b: Option<u8>) -> (r: bool)
    ensures
        r == (a == b),
{
    match (a, b) {
        (Some(x), Some(y)) => x == y,
        (None, None) => true,
        _ => false,
    }
}

fn opens(line: &Vec<Placed>, k: usize) -> (r: bool)
    requires
        k < line@.len(),
    ensures
        r == opens_run(line@, k as int),
{
    line[k].group.is_some() && (k == 0 || !same_group(line[k - 1].group, line[k].group))
        && line.len() - k > 1 && same_group(line[k + 1].group, line[k].group)
}

fn closes(line: &Vec<Placed>, k: usize) -> (r: bool)
    requires
        k < line@.len(),
    ensures
        r == closes_run(line@, k as int),
{
    line[k].group.is_some() && k > 0 && same_group(line[k - 1].group, line[k].group) && (line.len()
        - k == 1 || !same_group(line[k + 1].group, line[k].group))
}

/// Marks the events of one voice at which a slur starts or stops.
fn mark_voice(
    events: &Vec<NoteEvent>,
    voice: u8,
    starts: &mut Vec<bool>,
    stops: &mut Vec<bool>,
)
    requires
        old(starts)@.len() == events@.len(),
        old(stops)@.len() == events@.len(),
        forall|i: int|
            0 <= i < events@.len() && events@[i].voice == voice ==> !(#[trigger] old(starts)@[i]),
        forall|i: int|
            0 <= i < events@.len() && events@[i].voice == voice ==> !(#[trigger] old(stops)@[i]),
    ensures
        final(starts)@.len() == events@.len(),
        final(stops)@.len() == events@.len(),
        forall|i: int|
            0 <= i < events@.len() ==> (#[trigger] final(starts)@[i]) == (if events@[i].voice
                == voice {
                slur_starts_at(events@, i)
            } else {
                old(starts)@[i]
            }),
        forall|i: int|
            0 <= i < events@.len() ==> (#[trigger] final(stops)@[i]) == (if events@[i].voice
                == voice {
                slur_stops_at(events@, i)
            } else {
                old(stops)@[i]
            }),
{
    let line = line_of(events, voice);
    proof {
        assert(events@.len() == events.len());
        lemma_line(events@, voice);
    }
    for k in 0..line.len()
        invariant
            line@ == voice_line(events@, voice),
            starts@.len() == events@.len(),
            stops@.len() == events@.len(),
            forall|k: int|
                0 <= k < line@.len() ==> (#[trigger] line@[k]).index < events@.len()
                    && events@[line@[k].index as int].voice == voice,
            forall|i: int|
                0 <= i < events@.len() && events@[i].voice != voice ==> (#[trigger] starts@[i])
                    == old(starts)@[i],
            forall|i: int|
                0 <= i < events@.len() && events@[i].voice != voice ==> (#[trigger] stops@[i])
                    == old(stops)@[i],
            forall|i: int|
                0 <= i < events@.len() && events@[i].voice == voice ==> (#[trigger] starts@[i])
                    == (exists|j: int|
                    0 <= j < k && (#[trigger] line@[j]).index == i && opens_run(line@, j)),
            forall|i: int|
                0 <= i < events@.len() && events@[i].voice == voice ==> (#[trigger] stops@[i])
                    == (exists|j: int|
                    0 <= j < k && (#[trigger] line@[j]).index == i && closes_run(line@, j)),
    {
        let at = line[k].index;
        let ghost s0 = starts@;
        let ghost t0 = stops@;
        assert(line@[k as int].index == at);
        if opens(&line, k) {
            starts.set(at, true);
        }
        if closes(&line, k) {
            stops.set(at, true);
        }
        assert forall|i: int| 0 <= i < events@.len() && events@[i].voice == voice implies (
        #[trigger] starts@[i]) == (exists|j: int|
            0 <= j < k + 1 && (#[trigger] line@[j]).index == i && opens_run(line@, j)) by {
            if s0[i] {
                let j = choose|j: int|
                    0 <= j < k && (#[trigger] line@[j]).index == i && opens_run(line@, j);
                assert(line@[j].index == i);
            }
        }
        assert forall|i: int| 0 <= i < events@.len() && events@[i].voice == voice implies (
        #[trigger] stops@[i]) == (exists|j: int|
            0 <= j < k + 1 && (#[trigger] line@[j]).index == i && closes_run(line@, j)) by {
            if t0[i] {
                let j = choose|j: int|
                    0 <= j < k && (#[trigger] line@[j]).index == i && closes_run(line@, j);
                assert(line@[j].index == i);
            }
        }
    }
}

/// Appends the pieces of an event.
fn push_segments(
    out: &mut Vec<Segment>,
    parent_idx: usize,
    ev: &NoteEvent,
    tpb: u32,
    starts: bool,
    stops: bool,
)
    requires
        ev.start + ev.duration <= u32::MAX,
        ev.duration > 0 ==> tpb > 0 && bar_end(ev.start + ev.duration - 1, tpb as int) <= u32::MAX,
    ensures
        final(out)@ == old(out)@ + pieces(
            *ev,
            parent_idx as nat,
            tpb as int,
            ev.start as int,
            starts,
            stops,
        ),
{
    let voice: u8 = if ev.voice == 0 {
        1
    } else {
        ev.voice
    };
    let end: u32 = ev.start + ev.duration;
    let mut s: u32 = ev.start;
    let ghost idx = parent_idx as nat;
    let ghost whole = pieces(*ev, idx, tpb as int, ev.start as int, starts, stops);
    assert(out@ + whole == old(out)@ + whole);
    while s < end
        invariant
            ev.start <= s,
            end == ev.start + ev.duration,
            idx == parent_idx,
            voice == (if ev.voice == 0 {
                1u8
            } else {
                ev.voice
            }),
            s < end ==> tpb > 0 && bar_end(end - 1, tpb as int) <= u32::MAX,
            out@ + pieces(*ev, idx, tpb as int, s as int, starts, stops) == old(out)@ + whole,
        decreases end - s,
    {
        proof {
            bar_end_follows(s as int, tpb as int);
            bar_end_follows(end - 1, tpb as int);
            lemma_bar_end_monotone(s as int, end - 1, tpb as int);
        }
        let bar: u32 = (s / tpb + 1) * tpb;
        let seg_end: u32 = if end < bar {
            end
        } else {
            bar
        };
        let seg = Segment {
            pitch: ev.pitch,
            start: s,
            duration: seg_end - s,
            voice,
            tie_start: seg_end != end,
            tie_stop: s != ev.start,
            slur_start: s == ev.start && starts,
            slur_stop: seg_end == end && stops,
            parent_idx,
        };
        let ghost before = out@;
        out.push(seg);
        assert(seg == piece(*ev, idx, s as int, seg_end as int, starts, stops));
        let ghost rest = pieces(*ev, idx, tpb as int, seg_end as int, starts, stops);
        assert(before.push(seg) + rest == before + (seq![seg] + rest));
        s = seg_end;
    }
    assert(pieces(*ev, idx, tpb as int, s as int, starts, stops) == Seq::<Segment>::empty());
    assert(out@ + Seq::<Segment>::empty() == out@);
}

proof fn lemma_bar_end_monotone(a: int, b: int, tpb: int)
    requires
        0 <= a <= b,
        0 < tpb,
    ensures
        bar_end(a, tpb) <= bar_end(b, tpb),
        a / tpb <= b / tpb,
{
    vstd::arithmetic::div_mod::lemma_div_is_ordered(a, b, tpb);
    assert((a / tpb + 1) * tpb <= (b / tpb + 1) * tpb) by (nonlinear_arith)
        requires
            a / tpb <= b / tpb,
            0 < tpb,
    ;
}

/// Cuts the notes of a phrase at barlines and resolves their slurs.
pub fn build_segments(phrase: &Phrase) -> (r: Vec<Segment>)
    requires
        can_be_cut(phrase@),
    ensures
        r@ == phrase_segments(phrase@),
{
    let tpb = phrase.time_sig.ticks_per_bar();
    let events = &phrase.events;
    let mut starts: Vec<bool> = Vec::new();
    let mut stops: Vec<bool> = Vec::new();
    for i in 0..events.len()
        invariant
            starts@.len() == i,
            stops@.len() == i,
            forall|j: int| 0 <= j < i ==> !(#[trigger] starts@[j]),
            forall|j: int| 0 <= j < i ==> !(#[trigger] stops@[j]),
    {
        starts.push(false);
        stops.push(false);
    }
    let mut voice: u16 = 0;
    while voice < 256
        invariant
            voice <= 256,
            starts@.len() == events@.len(),
            stops@.len() == events@.len(),
            forall|i: int|
                0 <= i < events@.len() ==> (#[trigger] starts@[i]) == (events@[i].voice < voice
                    && slur_starts_at(events@, i)),
            forall|i: int|
                0 <= i < events@.len() ==> (#[trigger] stops@[i]) == (events@[i].voice < voice
                    && slur_stops_at(events@, i)),
        decreases 256 - voice,
    {
        mark_voice(events, voice as u8, &mut starts, &mut stops);
        voice = voice + 1;
    }
    let mut segments: Vec<Segment> = Vec::new();
    for i in 0..events.len()
        invariant
            can_be_cut(phrase@),
            events@ == phrase@.events,
            tpb as int == bar_ticks(phrase@.time_sig),
            starts@.len() == events@.len(),
            stops@.len() == events@.len(),
            forall|i: int|
                0 <= i < events@.len() ==> (#[trigger] starts@[i]) == slur_starts_at(events@, i),
            forall|i: int|
                0 <= i < events@.len() ==> (#[trigger] stops@[i]) == slur_stops_at(events@, i),
            segments@ == all_pieces(events@, tpb as int, i as nat),
    {
        assert(phrase@.events[i as int] == events@[i as int]);
        push_segments(&mut segments, i, &events[i], tpb, starts[i], stops[i]);
    }
    stable_sort(segments)
}

/// The pieces of a note tile it: each begins where the one before it ends, the
/// first with the note and the last ending with it; exactly the pieces that
/// others follow start a tie, and exactly those that others precede stop one.
pub proof fn pieces_tile_the_note(
    ev: NoteEvent,
    idx: nat,
    tpb: int,
    s: int,
    starts: bool,
    stops: bool,
)
    requires
        0 < tpb,
        ev.start <= s < ev.start + ev.duration <= u32::MAX,
    ensures
        ({
            let ps = pieces(ev, idx, tpb, s, starts, stops);
            &&& ps.len() > 0
            &&& ps[0].start == s
            &&& ps.last().start + ps.last().duration == ev.start + ev.duration
            &&& forall|k: int|
                0 <= k < ps.len() ==> (#[trigger] ps[k]).duration > 0 && ps[k].tie_start == (k + 1
                    < ps.len()) && ps[k].tie_stop == (k > 0 || s != ev.start) && ps[k].pitch
                    == ev.pitch && ps[k].start + ps[k].duration <= bar_end(
                    ps[k].start as int,
                    tpb,
                ) && (k + 1 < ps.len() ==> ps[k + 1].start == ps[k].start + ps[k].duration)
        }),
    decreases ev.start + ev.duration - s,
{
    let ps = pieces(ev, idx, tpb, s, starts, stops);
    bar_end_follows(s, tpb);
    let end = ev.start + ev.duration;
    let e = lesser(end, bar_end(s, tpb));
    let rest = pieces(ev, idx, tpb, e, starts, stops);
    let head = piece(ev, idx, s, e, starts, stops);
    assert(ps == seq![head] + rest);
    if e < end {
        pieces_tile_the_note(ev, idx, tpb, e, starts, stops);
        assert(ps.last() == rest.last());
        assert forall|k: int| 0 <= k < ps.len() implies (#[trigger] ps[k]).duration > 0
            && ps[k].tie_start == (k + 1 < ps.len()) && ps[k].tie_stop == (k > 0 || s != ev.start)
            && ps[k].pitch == ev.pitch && ps[k].start + ps[k].duration <= bar_end(
            ps[k].start as int,
            tpb,
        ) && (k + 1 < ps.len() ==> ps[k + 1].start == ps[k].start + ps[k].duration) by {
            if k > 0 {
                assert(ps[k] == rest[k - 1]);
                if k + 1 < ps.len() {
                    assert(ps[k + 1] == rest[k]);
                }
            } else {
                assert(ps[1] == rest[0]);
            }
        }
    } else {
        assert(rest == Seq::<Segment>::empty());
        assert(ps == seq![head]);
    }
}

/// A slur that starts stops again: from a note that opens a run of one slur group the
/// notes of the line keep that group up to one that closes it, and the next has another.
pub proof fn every_slur_stops(line: Seq<Placed>, k: int)
    requires
        0 <= k < line.len(),
        opens_run(line, k),
    ensures
        exists|m: int|
            k < m < line.len() && #[trigger] closes_run(line, m) && (forall|j: int|
                k <= j <= m ==> (#[trigger] line[j]).group == line[k].group),
{
    let m = lemma_run_end(line, k, k + 1);
    assert(closes_run(line, m)) by {
        assert(line[m - 1].group == line[k].group);
    }
}

proof fn lemma_run_end(line: Seq<Placed>, k: int, from: int) -> (m: int)
    requires
        0 <= k <= from < line.len(),
        forall|j: int| k <= j <= from ==> (#[trigger] line[j]).group == line[k].group,
    ensures
        from <= m < line.len(),
        forall|j: int| k <= j <= m ==> (#[trigger] line[j]).group == line[k].group,
        m + 1 < line.len() ==> line[m + 1].group != line[k].group,
    decreases line.len() - from,
{
    if from + 1 < line.len() && line[from + 1].group == line[k].group {
        lemma_run_end(line, k, from + 1)
    } else {
        from
    }
}

/// A slur that stops has started: up to a note that closes a run of one slur group the
/// notes of the line have that group from one on that opens it, and the one before has
/// another.
pub proof fn every_slur_has_started(line: Seq<Placed>, k: int)
    requires
        0 <= k < line.len(),
        closes_run(line, k),
    ensures
        exists|m: int|
            0 <= m < k && #[trigger] opens_run(line, m) && (forall|j: int|
                m <= j <= k ==> (#[trigger] line[j]).group == line[k].group),
{
    let m = lemma_run_start(line, k, k - 1);
    assert(opens_run(line, m)) by {
        assert(line[m + 1].group == line[k].group);
    }
}

proof fn lemma_run_start(line: Seq<Placed>, k: int, from: int) -> (m: int)
    requires
        0 <= from <= k < line.len(),
        forall|j: int| from <= j <= k ==> (#[trigger] line[j]).group == line[k].group,
    ensures
        0 <= m <= from,
        forall|j: int| m <= j <= k ==> (#[trigger] line[j]).group == line[k].group,
        m > 0 ==> line[m - 1].group != line[k].group,
    decreases from,
{
    if from > 0 && line[from - 1].group == line[k].group {
        lemma_run_start(line, k, from - 1)
    } else {
        from
    }
}

/// No note outside a slur group starts or stops a slur, and none does both.
pub proof fn slurs_join_groups(line: Seq<Placed>, k: int)
    requires
        0 <= k < line.len(),
    ensures
        line[k].group is None ==> !opens_run(line, k) && !closes_run(line, k),
        !(opens_run(line, k) && closes_run(line, k)),
        0 < k && k + 1 < line.len() && line[k].group is Some && line[k - 1].group == line[k].group
            && line[k + 1].group == line[k].group ==> !opens_run(line, k) && !closes_run(line, k),
{
}

/// The notes of a voice are all in its line, in order of their starts, each under its own
/// number and with its own slur group.
pub proof fn voice_line_holds_the_voice(events: Seq<NoteEvent>, voice: u8, i: int)
    requires
        events.len() <= usize::MAX,
        0 <= i < events.len(),
    ensures
        events[i].voice == voice ==> exists|k: int|
            0 <= k < voice_line(events, voice).len() && (#[trigger] voice_line(
                events,
                voice,
            )[k]).index == i,
        forall|k: int|
            0 <= k < voice_line(events, voice).len() ==> {
                let x = #[trigger] voice_line(events, voice)[k];
                x.index < events.len() && events[x.index as int].voice == voice && x.start
                    == events[x.index as int].start && x.group == events[x.index as int].slur_group
            },
        forall|j: int, k: int|
            0 <= j < k < voice_line(events, voice).len() ==> (#[trigger] voice_line(
                events,
                voice,
            )[j]).start <= (#[trigger] voice_line(events, voice)[k]).start,
{
    let ps = places(events, voice);
    let line = voice_line(events, voice);
    lemma_places_tell(events, voice);
    sorted_keeps_items(ps);
    crate::sorting::sorted_is_ordered(ps);
    if events[i].voice == voice {
        lemma_place_of(events, voice, i);
        let k = choose|k: int| 0 <= k < ps.len() && (#[trigger] ps[k]).index == i;
        assert(line.contains(ps[k]));
        let m = choose|m: int| 0 <= m < line.len() && line[m] == ps[k];
        assert(line[m].index == i);
    }
    assert forall|k: int| 0 <= k < line.len() implies {
        let x = #[trigger] line[k];
        x.index < events.len() && events[x.index as int].voice == voice && x.start
            == events[x.index as int].start && x.group == events[x.index as int].slur_group
    } by {
        let x = line[k];
        assert(ps.contains(x));
        let j = choose|j: int| 0 <= j < ps.len() && ps[j] == x;
        assert(ps[j].index < events.len());
    }
    assert forall|j: int, k: int| 0 <= j < k < line.len() implies (#[trigger] line[j]).start <= (
    #[trigger] line[k]).start by {
        assert(line[j].key() <= line[k].key());
    }
}

proof fn lemma_places_tell(events: Seq<NoteEvent>, voice: u8)
    requires
        events.len() <= usize::MAX,
    ensures
        forall|k: int|
            0 <= k < places(events, voice).len() ==> {
                let x = #[trigger] places(events, voice)[k];
                x.index < events.len() && events[x.index as int].voice == voice && x.start
                    == events[x.index as int].start && x.group == events[x.index as int].slur_group
            },
    decreases events.len(),
{
    if events.len() > 0 {
        let init = events.drop_last();
        lemma_places_tell(init, voice);
        assert forall|k: int| 0 <= k < places(events, voice).len() implies {
            let x = #[trigger] places(events, voice)[k];
            x.index < events.len() && events[x.index as int].voice == voice && x.start
                == events[x.index as int].start && x.group == events[x.index as int].slur_group
        } by {
            if k < places(init, voice).len() {
                let x = places(init, voice)[k];
                assert(places(events, voice)[k] == x);
                assert(init[x.index as int] == events[x.index as int]);
            }
        }
    }
}

proof fn lemma_place_of(events: Seq<NoteEvent>, voice: u8, i: int)
    requires
        events.len() <= usize::MAX,
        0 <= i < events.len(),
        events[i].voice == voice,
    ensures
        exists|k: int|
            0 <= k < places(events, voice).len() && (#[trigger] places(events, voice)[k]).index
                == i,
    decreases events.len(),
{
    let init = events.drop_last();
    if i < init.len() {
        assert(init[i] == events[i]);
        lemma_place_of(init, voice, i);
        let k = choose|k: int|
            0 <= k < places(init, voice).len() && (#[trigger] places(init, voice)[k]).index == i;
        assert(places(events, voice)[k] == places(init, voice)[k]);
    } else {
        let n = places(init, voice).len() as int;
        assert(places(events, voice)[n].index == i);
    }
}

/// The pieces of a note keep its voice, which counts from one, its number and its slur:
/// that starts with the first piece and stops with the last. Together they last as long
/// as the note, and no piece crosses a barline.
pub proof fn pieces_keep_the_note(
    ev: NoteEvent,
    idx: nat,
    tpb: int,
    s: int,
    starts: bool,
    stops: bool,
    k: int,
)
    requires
        0 < tpb,
        idx <= usize::MAX,
        ev.start <= s < ev.start + ev.duration <= u32::MAX,
        0 <= k < pieces(ev, idx, tpb, s, starts, stops).len(),
    ensures
        ({
            let ps = pieces(ev, idx, tpb, s, starts, stops);
            let p = ps[k];
            &&& p.voice >= 1 && (ev.voice >= 1 ==> p.voice == ev.voice)
            &&& ev.voice == 0 ==> p.voice == 1
            &&& p.parent_idx == idx
            &&& p.pitch == ev.pitch
            &&& p.slur_start == (starts && k == 0 && s == ev.start)
            &&& p.slur_stop == (stops && k == ps.len() - 1)
            &&& ev.start <= p.start
            &&& p.start as int / tpb == (p.start + p.duration - 1) / tpb
            &&& k > 0 ==> p.start as int % tpb == 0
        }),
        lasted(pieces(ev, idx, tpb, s, starts, stops)) == ev.start + ev.duration - s,
    decreases ev.start + ev.duration - s,
{
    let ps = pieces(ev, idx, tpb, s, starts, stops);
    bar_end_follows(s, tpb);
    let end = ev.start + ev.duration;
    let e = lesser(end, bar_end(s, tpb));
    let rest = pieces(ev, idx, tpb, e, starts, stops);
    let head = piece(ev, idx, s, e, starts, stops);
    assert(ps == seq![head] + rest);
    assert(ps.drop_first() == rest);
    let q = s / tpb;
    vstd::arithmetic::div_mod::lemma_fundamental_div_mod(s, tpb);
    assert(tpb * q == q * tpb && (q + 1) * tpb == q * tpb + tpb) by (nonlinear_arith);
    vstd::arithmetic::div_mod::lemma_fundamental_div_mod_converse(
        e - 1,
        tpb,
        q,
        e - 1 - q * tpb,
    );
    if e < end {
        if k > 0 {
            pieces_keep_the_note(ev, idx, tpb, e, starts, stops, k - 1);
            assert(ps[k] == rest[k - 1]);
        } else {
            pieces_tile_the_note(ev, idx, tpb, e, starts, stops);
            pieces_keep_the_note(ev, idx, tpb, e, starts, stops, 0);
        }
        pieces_tile_the_note(ev, idx, tpb, e, starts, stops);
        assert(rest[0].start == e);
        assert(e == bar_end(s, tpb));
        assert(k == 1 ==> ps[1] == rest[0]);
    } else {
        assert(rest == Seq::<Segment>::empty());
        assert(ps == seq![head]);
        assert(lasted(rest) == 0);
    }
}

/// How long some pieces last together.
pub open spec fn lasted(ps: Seq<Segment>) -> int
    decreases ps.len(),
{
    if ps.len() == 0 {
        0
    } else {
        ps[0].duration + lasted(ps.drop_first())
    }
}

/// A phrase's pieces are those of its notes, in order of their starts, and by voice where
/// they start together.
pub proof fn phrase_is_cut_note_by_note(p: PhraseView)
    ensures
        all_pieces(p.events, bar_ticks(p.time_sig), 0) == Seq::<Segment>::empty(),
        forall|n: nat|
            n < p.events.len() ==> #[trigger] all_pieces(p.events, bar_ticks(p.time_sig), n + 1)
                == all_pieces(p.events, bar_ticks(p.time_sig), n) + pieces(
                p.events[n as int],
                n,
                bar_ticks(p.time_sig),
                p.events[n as int].start as int,
                slur_starts_at(p.events, n as int),
                slur_stops_at(p.events, n as int),
            ),
        phrase_segments(p).to_multiset() == all_pieces(
            p.events,
            bar_ticks(p.time_sig),
            p.events.len(),
        ).to_multiset(),
        forall|i: int, j: int|
            0 <= i < j < phrase_segments(p).len() ==> (#[trigger] phrase_segments(p)[i]).start < (
            #[trigger] phrase_segments(p)[j]).start || (phrase_segments(p)[i].start
                == phrase_segments(p)[j].start && phrase_segments(p)[i].voice <= phrase_segments(
                p,
            )[j].voice),
{
    let all = all_pieces(p.events, bar_ticks(p.time_sig), p.events.len());
    crate::sorting::sorted_is_ordered(all);
    let s = phrase_segments(p);
    assert forall|i: int, j: int| 0 <= i < j < s.len() implies (#[trigger] s[i]).start < (
    #[trigger] s[j]).start || (s[i].start == s[j].start && s[i].voice <= s[j].voice) by {
        assert(s[i].key() <= s[j].key());
    }
}

/// A phrase whose meter has a beat and whose notes end a bar before ticks can no longer
/// be counted can be cut.
pub proof fn ordinary_phrases_can_be_cut(p: PhraseView)
    requires
        p.time_sig.numerator > 0,
        forall|i: int|
            0 <= i < p.events.len() ==> (#[trigger] p.events[i]).start + p.events[i].duration
                + 244800 <= u32::MAX,
    ensures
        can_be_cut(p),
{
    let t = bar_ticks(p.time_sig);
    let n = p.time_sig.numerator as int;
    assert(0 < 960 * n <= 244800 && 0 < 480 * n <= 244800 && 0 < 240 * n <= 244800)
        by (nonlinear_arith)
        requires
            0 < n <= 255,
    ;
    assert(0 < t <= 244800);
    assert forall|i: int| 0 <= i < p.events.len() && (#[trigger] p.events[i]).duration
        > 0 implies bar_end(p.events[i].start + p.events[i].duration - 1, t) <= u32::MAX by {
        bar_end_follows(p.events[i].start + p.events[i].duration - 1, t);
    }
}

} // verus!
