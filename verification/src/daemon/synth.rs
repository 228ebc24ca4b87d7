//! The voices of the built-in synth, and the order in which a buffer is rendered.
use crate::daemon::audio::AudioCmd;
use crate::daemon::instrument::Instrument;
use vstd::prelude::*;

verus! {

/// How many voices there are.
pub const MAX_VOICES: usize = 16;

/// A voice. Its level is the bits of its envelope, a single that is not negative;
/// such bits are ordered as the envelopes are.
#[derive(Debug, Clone, Copy, PartialEq, Eq, Structural)]
pub struct Voice {
    pub pitch: u8,
    pub active: bool,
    pub gate: bool,
    pub velocity: u8,
    pub level: u32,
}

/// A voice that has not sounded yet.
pub open spec fn silent_voice() -> Voice {
    Voice { pitch: 0, active: false, gate: false, velocity: 0, level: 0 }
}

/// The first voice from `i` on that is free.
pub open spec fn first_free(vs: Seq<Voice>, i: int) -> Option<int>
    decreases vs.len() - i,
{
    if i >= vs.len() {
        None
    } else if !vs[i].active {
        Some(i)
    } else {
        first_free(vs, i + 1)
    }
}

/// Whether `i` is the first of the quietest voices.
pub open spec fn is_quietest(vs: Seq<Voice>, i: int) -> bool {
    &&& 0 <= i < vs.len()
    &&& forall|j: int| 0 <= j < vs.len() ==> vs[i].level <= (#[trigger] vs[j]).level
    &&& forall|j: int| 0 <= j < i ==> vs[i].level < (#[trigger] vs[j]).level
}

/// The voice that a new note gets: a free one, else the quietest.
pub open spec fn is_allocated(vs: Seq<Voice>, i: int) -> bool {
    match first_free(vs, 0) {
        Some(f) => i == f,
        None => is_quietest(vs, i),
    }
}

/// A voice that begins a note. Its level goes on from where it was.
pub open spec fn begun(v: Voice, pitch: u8, velocity: u8) -> Voice {
    Voice { pitch, active: true, gate: true, velocity, level: v.level }
}

/// A voice after a note ended.
pub open spec fn released(v: Voice, pitch: u8) -> Voice {
    if v.active && v.pitch == pitch {
        Voice { gate: false, ..v }
    } else {
        v
    }
}

/// A voice that is let go whatever it plays.
pub open spec fn let_go(v: Voice) -> Voice {
    Voice { gate: false, ..v }
}

/// The number of voices that sound.
pub open spec fn active_voices(vs: Seq<Voice>) -> nat
    decreases vs.len(),
{
    if vs.len() == 0 {
        0
    } else {
        active_voices(vs.drop_last()) + (if vs.last().active {
            1nat
        } else {
            0nat
        })
    }
}

proof fn lemma_first_free(vs: Seq<Voice>, i: int)
    requires
        0 <= i,
    ensures
        match first_free(vs, i) {
            Some(f) => i <= f < vs.len() && !vs[f].active,
            None => forall|j: int| i <= j < vs.len() ==> (#[trigger] vs[j]).active,
        },
    decreases vs.len() - i,
{
    if i < vs.len() && vs[i].active {
        lemma_first_free(vs, i + 1);
    }
}

/// The voices of the built-in synth.
pub struct PolySynth {
    voices: [Voice; MAX_VOICES],
    sample_rate: u32,
}

impl PolySynth {
    pub closed spec fn voices(&self) -> Seq<Voice> {
        self.voices@
    }

    pub closed spec fn rate(&self) -> u32 {
        self.sample_rate
    }

    pub fn new(sample_rate: u32) -> (r: Self)
        ensures
            r.rate() == sample_rate,
            r.voices() == Seq::new(MAX_VOICES as nat, |i: int| silent_voice()),
    {
        let silent = Voice { pitch: 0, active: false, gate: false, velocity: 0, level: 0 };
        let voices = [silent; MAX_VOICES];
        assert(voices@ == Seq::new(MAX_VOICES as nat, |i: int| silent_voice()));
        PolySynth { voices, sample_rate }
    }

    pub fn voice_count(&self) -> (r: usize)
        ensures
            r as nat == self.voices().len(),
            r == MAX_VOICES,
    {
        MAX_VOICES
    }

    /// The number of voices that sound.
    pub fn active_count(&self) -> (r: usize)
        ensures
            r as nat == active_voices(self.voices()),
    {
        let mut n: usize = 0;
        assert(self.voices@.take(0) == Seq::<Voice>::empty());
        for i in 0..self.voices.len()
            invariant
                n <= i,
                n as nat == active_voices(self.voices@.take(i as int)),
        {
            assert(self.voices@.take(i + 1).drop_last() == self.voices@.take(i as int));
            if self.voices[i].active {
                n = n + 1;
            }
        }
        assert(self.voices@.take(self.voices@.len() as int) == self.voices@);
        n
    }

    /// The voice with a number.
    pub fn voice(&self, i: usize) -> (r: Voice)
        requires
            i < MAX_VOICES,
        ensures
            r == self.voices()[i as int],
    {
        self.voices[i]
    }

    /// Notes how a voice stands after a stretch was rendered.
    pub fn set_level(&mut self, i: usize, active: bool, level: u32)
        requires
            i < MAX_VOICES,
        ensures
            final(self).rate() == old(self).rate(),
            final(self).voices() == old(self).voices().update(
                i as int,
                Voice { active, level, ..old(self).voices()[i as int] },
            ),
    {
        let v = self.voices[i];
        self.voices[i] = Voice { active, level, ..v };
    }

    /// Begins a note. Gives the voice that plays it.
    pub fn note_on(&mut self, pitch: u8, velocity: u8) -> (r: usize)
        ensures
            final(self).rate() == old(self).rate(),
            is_allocated(old(self).voices(), r as int),
            r < MAX_VOICES,
            final(self).voices() == old(self).voices().update(
                r as int,
                begun(old(self).voices()[r as int], pitch, velocity),
            ),
    {
        let mut idx: usize = 0;
        let mut found = false;
        let mut i: usize = 0;
        while i < self.voices.len() && !found
            invariant
                self.voices@ == old(self).voices@,
                i <= self.voices@.len(),
                found ==> idx < self.voices@.len() && first_free(self.voices@, 0) == Some(
                    idx as int,
                ),
                !found ==> first_free(self.voices@, 0) == first_free(self.voices@, i as int),
            decreases self.voices@.len() - i,
        {
            if !self.voices[i].active {
                idx = i;
                found = true;
            }
            i = i + 1;
        }
        if !found {
            idx = 0;
            let mut j: usize = 1;
            while j < self.voices.len()
                invariant
                    self.voices@ == old(self).voices@,
                    self.voices@.len() == MAX_VOICES,
                    idx < j <= self.voices@.len(),
                    forall|m: int|
                        0 <= m < j ==> self.voices@[idx as int].level <= (
                        #[trigger] self.voices@[m]).level,
                    forall|m: int|
                        0 <= m < idx ==> self.voices@[idx as int].level < (
                        #[trigger] self.voices@[m]).level,
                decreases self.voices@.len() - j,
            {
                if self.voices[j].level < self.voices[idx].level {
                    idx = j;
                }
                j = j + 1;
            }
        }
        let level = self.voices[idx].level;
        self.voices[idx] = Voice { pitch, active: true, gate: true, velocity, level };
        idx
    }

    /// Ends a note.
    pub fn note_off(&mut self, pitch: u8)
        ensures
            final(self).rate() == old(self).rate(),
            final(self).voices() == old(self).voices().map_values(|v: Voice| released(v, pitch)),
    {
        let n: usize = self.voices.len();
        for i in 0..n
            invariant
                n == self.voices@.len(),
                self.voices@.len() == old(self).voices@.len(),
                self.sample_rate == old(self).sample_rate,
                forall|j: int|
                    0 <= j < self.voices@.len() ==> (#[trigger] self.voices@[j]) == (if j < i {
                        released(old(self).voices@[j], pitch)
                    } else {
                        old(self).voices@[j]
                    }),
        {
            let v = self.voices[i];
            if v.active && v.pitch == pitch {
                self.voices[i] = Voice { gate: false, ..v };
            }
        }
        assert(self.voices@ == old(self).voices@.map_values(|v: Voice| released(v, pitch)));
    }

    /// Lets every voice go.
    pub fn all_notes_off(&mut self)
        ensures
            final(self).rate() == old(self).rate(),
            final(self).voices() == old(self).voices().map_values(|v: Voice| let_go(v)),
    {
        let n: usize = self.voices.len();
        for i in 0..n
            invariant
                n == self.voices@.len(),
                self.voices@.len() == old(self).voices@.len(),
                self.sample_rate == old(self).sample_rate,
                forall|j: int|
                    0 <= j < self.voices@.len() ==> (#[trigger] self.voices@[j]) == (if j < i {
                        let_go(old(self).voices@[j])
                    } else {
                        old(self).voices@[j]
                    }),
        {
            let v = self.voices[i];
            self.voices[i] = Voice { gate: false, ..v };
        }
        assert(self.voices@ == old(self).voices@.map_values(|v: Voice| let_go(v)));
    }
}

impl Instrument for PolySynth {
    /// Every voice is let go.
    open spec fn silenced(before: &Self, after: &Self) -> bool {
        after.rate() == before.rate() && after.voices() == before.voices().map_values(
            |v: Voice| let_go(v),
        )
    }

    fn note_on(&mut self, pitch: u8, velocity: u8)
        ensures
            final(self).rate() == old(self).rate(),
            exists|i: int| #[trigger]
                is_allocated(old(self).voices(), i) && final(self).voices() == old(
                    self,
                ).voices().update(i, begun(old(self).voices()[i], pitch, velocity)),
    {
        let i = PolySynth::note_on(self, pitch, velocity);
        assert(is_allocated(old(self).voices(), i as int));
    }

    fn note_off(&mut self, pitch: u8)
        ensures
            final(self).rate() == old(self).rate(),
            final(self).voices() == old(self).voices().map_values(|v: Voice| released(v, pitch)),
    {
        PolySynth::note_off(self, pitch);
    }

    fn all_notes_off(&mut self) {
        PolySynth::all_notes_off(self);
    }
}

/// One step of rendering a buffer: a command takes effect, or a stretch of frames
/// sounds.
#[derive(Debug, Clone, Copy, PartialEq, Eq, Structural)]
pub enum RenderStep {
    Apply(AudioCmd),
    Render { start: usize, end: usize },
}

/// How many of the commands from `i` on take effect by frame `cursor`.
pub open spec fn reached(events: Seq<(u32, AudioCmd)>, i: nat, cursor: int) -> nat
    decreases events.len() - i,
{
    if i >= events.len() || events[i as int].0 > cursor {
        0
    } else {
        1 + reached(events, i + 1, cursor)
    }
}

/// The commands from `i` up to `j`, as steps.
pub open spec fn applied(events: Seq<(u32, AudioCmd)>, i: int, j: int) -> Seq<RenderStep> {
    events.subrange(i, j).map_values(|e: (u32, AudioCmd)| RenderStep::Apply(e.1))
}

/// The end of the stretch that begins at `cursor`: the next command or the end.
pub open spec fn stretch_end(events: Seq<(u32, AudioCmd)>, i: int, frames: int) -> int {
    if i < events.len() && events[i].0 < frames {
        events[i].0 as int
    } else {
        frames
    }
}

/// The steps of a buffer of `frames` frames from `cursor` on, when the commands
/// before `i` have taken effect.
pub open spec fn steps_from(
    events: Seq<(u32, AudioCmd)>,
    frames: int,
    cursor: int,
    i: nat,
) -> Seq<RenderStep>
    decreases frames - cursor,
{
    if cursor >= frames || i > events.len() {
        Seq::empty()
    } else {
        let j = i + reached(events, i, cursor);
        proof {
            lemma_reached(events, i, cursor);
        }
        let e = stretch_end(events, j as int, frames);
        applied(events, i as int, j as int).push(
            RenderStep::Render { start: cursor as usize, end: e as usize },
        ) + steps_from(events, frames, e, j)
    }
}

/// The commands that have been reached end before one that has not.
pub proof fn lemma_reached(events: Seq<(u32, AudioCmd)>, i: nat, cursor: int)
    requires
        i <= events.len(),
    ensures
        i + reached(events, i, cursor) <= events.len(),
        i + reached(events, i, cursor) < events.len() ==> events[(i + reached(
            events,
            i,
            cursor,
        )) as int].0 > cursor,
        forall|k: int|
            i <= k < i + reached(events, i, cursor) ==> (#[trigger] events[k]).0 <= cursor,
    decreases events.len() - i,
{
    if i < events.len() && events[i as int].0 <= cursor {
        lemma_reached(events, i + 1, cursor);
    }
}

/// A stretch of a buffer: the commands from `first` up to `until` take effect, then
/// the frames from `start` up to `end` sound.
#[derive(Debug, Clone, Copy, PartialEq, Eq, Structural)]
pub struct Stretch {
    pub first: usize,
    pub until: usize,
    pub start: usize,
    pub end: usize,
}

/// The steps of a stretch.
pub open spec fn stretch_steps(events: Seq<(u32, AudioCmd)>, s: Stretch) -> Seq<RenderStep> {
    applied(events, s.first as int, s.until as int).push(
        RenderStep::Render { start: s.start, end: s.end },
    )
}

/// The stretch that begins at frame `cursor` of a buffer, when the commands before
/// `i` have taken effect.
pub fn next_stretch(frames: usize, events: &[(u32, AudioCmd)], cursor: usize, i: usize) -> (r:
    Stretch)
    requires
        cursor < frames,
        i <= events@.len(),
    ensures
        r.first == i,
        r.until == i + reached(events@, i as nat, cursor as int),
        r.until <= events@.len(),
        r.start == cursor,
        r.end as int == stretch_end(events@, r.until as int, frames as int),
        cursor < r.end <= frames,
        steps_from(events@, frames as int, cursor as int, i as nat) == stretch_steps(events@, r)
            + steps_from(events@, frames as int, r.end as int, r.until as nat),
{
    let mut j: usize = i;
    proof {
        lemma_reached(events@, i as nat, cursor as int);
    }
    while j < events.len() && events[j].0 as usize <= cursor
        invariant
            i <= j <= events@.len(),
            i + reached(events@, i as nat, cursor as int) == j + reached(
                events@,
                j as nat,
                cursor as int,
            ),
        decreases events@.len() - j,
    {
        j = j + 1;
    }
    let end: usize = if j < events.len() && (events[j].0 as usize) < frames {
        events[j].0 as usize
    } else {
        frames
    };
    Stretch { first: i, until: j, start: cursor, end }
}

/// The steps in which a buffer is rendered: every command takes effect between
/// the stretches of frames before and after its offset.
pub fn render_plan(frames: usize, events: &[(u32, AudioCmd)]) -> (r: Vec<RenderStep>)
    ensures
        r@ == steps_from(events@, frames as int, 0, 0),
{
    let mut out: Vec<RenderStep> = Vec::new();
    let mut cursor: usize = 0;
    let mut i: usize = 0;
    let ghost whole = steps_from(events@, frames as int, 0, 0);
    assert(out@ + whole == whole);
    while cursor < frames
        invariant
            i <= events@.len(),
            whole == out@ + steps_from(events@, frames as int, cursor as int, i as nat),
        decreases frames - cursor,
    {
        let ghost before = out@;
        let s = next_stretch(frames, events, cursor, i);
        let ghost head = stretch_steps(events@, s);
        let ghost rest = steps_from(events@, frames as int, s.end as int, s.until as nat);
        assert(events@.subrange(i as int, i as int) == Seq::<(u32, AudioCmd)>::empty());
        assert(before + applied(events@, i as int, i as int) == before);
        for k in s.first..s.until
            invariant
                s.first == i,
                s.until <= events@.len(),
                out@ == before + applied(events@, i as int, k as int),
        {
            out.push(RenderStep::Apply(events[k].1));
            assert(out@ == before + applied(events@, i as int, k + 1));
        }
        out.push(RenderStep::Render { start: s.start, end: s.end });
        assert(out@ == before + head);
        assert(before + (head + rest) == (before + head) + rest);
        cursor = s.end;
        i = s.until;
    }
    assert(out@ + Seq::<RenderStep>::empty() == out@);
    out
}

/// The commands that a row of steps applies, each with the frame that has been
/// reached by then, when `base` frames were rendered before.
pub open spec fn applied_at(steps: Seq<RenderStep>, base: int) -> Seq<(int, AudioCmd)>
    decreases steps.len(),
{
    if steps.len() == 0 {
        Seq::empty()
    } else {
        match steps[0] {
            RenderStep::Apply(c) => seq![(base, c)] + applied_at(steps.drop_first(), base),
            RenderStep::Render { start, end } => applied_at(
                steps.drop_first(),
                base + end - start,
            ),
        }
    }
}

/// The frame that has been reached after a row of steps.
pub open spec fn frame_after(steps: Seq<RenderStep>, base: int) -> int
    decreases steps.len(),
{
    if steps.len() == 0 {
        base
    } else {
        match steps[0] {
            RenderStep::Apply(c) => frame_after(steps.drop_first(), base),
            RenderStep::Render { start, end } => frame_after(
                steps.drop_first(),
                base + end - start,
            ),
        }
    }
}

/// The commands from `i` on, with their offsets.
pub open spec fn timed_from(events: Seq<(u32, AudioCmd)>, i: int) -> Seq<(int, AudioCmd)> {
    events.skip(i).map_values(|e: (u32, AudioCmd)| (e.0 as int, e.1))
}

proof fn lemma_applied_front(
    events: Seq<(u32, AudioCmd)>,
    i: int,
    j: int,
    rest: Seq<RenderStep>,
    base: int,
)
    requires
        0 <= i <= j <= events.len(),
    ensures
        applied_at(applied(events, i, j) + rest, base) == events.subrange(i, j).map_values(
            |e: (u32, AudioCmd)| (base, e.1),
        ) + applied_at(rest, base),
        frame_after(applied(events, i, j) + rest, base) == frame_after(rest, base),
    decreases j - i,
{
    let head = applied(events, i, j);
    let marked = events.subrange(i, j).map_values(|e: (u32, AudioCmd)| (base, e.1));
    if i == j {
        assert(head + rest == rest);
        assert(marked + applied_at(rest, base) == applied_at(rest, base));
    } else {
        lemma_applied_front(events, i + 1, j, rest, base);
        let all = head + rest;
        assert(all.drop_first() == applied(events, i + 1, j) + rest);
        assert(all[0] == RenderStep::Apply(events[i].1));
        let tail = events.subrange(i + 1, j).map_values(|e: (u32, AudioCmd)| (base, e.1));
        assert(seq![(base, events[i].1)] + (tail + applied_at(rest, base)) == marked + applied_at(
            rest,
            base,
        ));
    }
}

/// Rendering a buffer reaches its end, and every command takes effect on exactly
/// the frame of its offset, in order. The commands are in order of their offsets,
/// which lie in the buffer.
pub proof fn commands_land_on_their_frames(
    events: Seq<(u32, AudioCmd)>,
    frames: int,
    cursor: int,
    i: nat,
)
    requires
        0 <= cursor < frames <= usize::MAX,
        i <= events.len(),
        forall|k: int| 0 <= k < events.len() ==> (#[trigger] events[k]).0 < frames,
        forall|k: int, m: int|
            0 <= k < m < events.len() ==> (#[trigger] events[k]).0 <= (#[trigger] events[m]).0,
        forall|k: int| i <= k < events.len() ==> (#[trigger] events[k]).0 >= cursor,
    ensures
        frame_after(steps_from(events, frames, cursor, i), cursor) == frames,
        applied_at(steps_from(events, frames, cursor, i), cursor) == timed_from(events, i as int),
    decreases frames - cursor,
{
    let j = i + reached(events, i, cursor);
    lemma_reached(events, i, cursor);
    let e = stretch_end(events, j as int, frames);
    let stretch = RenderStep::Render { start: cursor as usize, end: e as usize };
    let rest = steps_from(events, frames, e, j);
    let tail = seq![stretch] + rest;
    let head = applied(events, i as int, j as int);
    assert(head.push(stretch) + rest == head + tail);
    lemma_applied_front(events, i as int, j as int, tail, cursor);
    assert(tail.drop_first() == rest);
    assert(tail[0] == stretch);
    assert(steps_from(events, frames, cursor, i) == head + tail);
    assert(cursor < e <= frames);
    assert(applied_at(tail, cursor) == applied_at(rest, e));
    assert(frame_after(tail, cursor) == frame_after(rest, e));
    if e < frames {
        assert forall|k: int| j <= k < events.len() implies (#[trigger] events[k]).0 >= e by {
            if k > j {
                assert(events[j as int].0 <= events[k].0);
            }
        }
        commands_land_on_their_frames(events, frames, e, j);
    } else {
        assert(j == events.len()) by {
            if j < events.len() {
                assert(events[j as int].0 < frames);
            }
        }
        assert(rest == Seq::<RenderStep>::empty());
        assert(timed_from(events, j as int) == Seq::<(int, AudioCmd)>::empty());
    }
    let marked = events.subrange(i as int, j as int).map_values(
        |x: (u32, AudioCmd)| (cursor, x.1),
    );
    assert(marked + timed_from(events, j as int) == timed_from(events, i as int)) by {
        assert forall|k: int| i <= k < j implies events[k].0 == cursor by {
            assert(events[k].0 <= cursor);
        }
    }
}

/// A new note always gets one of the voices, and only that voice changes.
pub proof fn note_on_plays(vs: Seq<Voice>, i: int, pitch: u8, velocity: u8)
    requires
        vs.len() == MAX_VOICES,
        is_allocated(vs, i),
    ensures
        0 <= i < MAX_VOICES,
        vs.update(i, begun(vs[i], pitch, velocity))[i].active,
        vs.update(i, begun(vs[i], pitch, velocity))[i].pitch == pitch,
        active_voices(vs.update(i, begun(vs[i], pitch, velocity))) == active_voices(vs) + (
        if vs[i].active {
            0nat
        } else {
            1nat
        }),
{
    lemma_first_free(vs, 0);
    lemma_active_update(vs, i, begun(vs[i], pitch, velocity));
}

proof fn lemma_active_update(vs: Seq<Voice>, i: int, v: Voice)
    requires
        0 <= i < vs.len(),
    ensures
        active_voices(vs.update(i, v)) == active_voices(vs) - (if vs[i].active {
            1int
        } else {
            0int
        }) + (if v.active {
            1int
        } else {
            0int
        }),
    decreases vs.len(),
{
    if i == vs.len() - 1 {
        assert(vs.update(i, v).drop_last() == vs.drop_last());
    } else {
        lemma_active_update(vs.drop_last(), i, v);
        assert(vs.update(i, v).drop_last() == vs.drop_last().update(i, v));
    }
}

/// A new note takes a voice that is free, the first of them; where none is, it takes the
/// quietest from the note that it plays, the first of several. The voice then plays the
/// note and its level goes on from where it was.
pub proof fn note_takes_a_free_or_the_quietest_voice(
    vs: Seq<Voice>,
    i: int,
    pitch: u8,
    velocity: u8,
    j: int,
)
    requires
        vs.len() > 0,
        is_allocated(vs, i),
        0 <= j < vs.len(),
    ensures
        0 <= i < vs.len(),
        !vs[j].active ==> !vs[i].active && i <= j,
        vs[i].active ==> vs[j].active && vs[i].level <= vs[j].level && (j < i ==> vs[i].level
            < vs[j].level),
        ({
            let v = begun(vs[i], pitch, velocity);
            v.active && v.gate && v.pitch == pitch && v.velocity == velocity && v.level
                == vs[i].level
        }),
{
    lemma_first_free(vs, 0);
    if !vs[j].active {
        lemma_first_free_first(vs, 0, j);
    }
}

proof fn lemma_first_free_first(vs: Seq<Voice>, i: int, j: int)
    requires
        0 <= i <= j < vs.len(),
        !vs[j].active,
    ensures
        first_free(vs, i) matches Some(f) && f <= j,
    decreases vs.len() - i,
{
    if i < j && vs[i].active {
        lemma_first_free_first(vs, i + 1, j);
    }
}

/// Ending a note lets go of the voices that play it and of no others, and takes nothing
/// else from them: they fade from where they are. Letting all notes go does so to all.
pub proof fn ending_a_note_lets_its_voices_go(v: Voice, pitch: u8)
    ensures
        v.active && v.pitch == pitch ==> !released(v, pitch).gate,
        !(v.active && v.pitch == pitch) ==> released(v, pitch) == v,
        !let_go(v).gate,
        released(v, pitch).active == v.active && let_go(v).active == v.active,
        released(v, pitch).pitch == v.pitch && let_go(v).pitch == v.pitch,
        released(v, pitch).velocity == v.velocity && let_go(v).velocity == v.velocity,
        released(v, pitch).level == v.level && let_go(v).level == v.level,
{
}

/// A voice sounds by itself: one more voice counts where it is active.
pub proof fn active_voices_are_counted(vs: Seq<Voice>, v: Voice)
    ensures
        active_voices(vs.push(v)) == active_voices(vs) + (if v.active {
            1int
        } else {
            0
        }),
        active_voices(Seq::empty()) == 0,
        !silent_voice().active && !silent_voice().gate && silent_voice().level == 0,
{
    assert(vs.push(v).drop_last() == vs);
}

} // verus!
