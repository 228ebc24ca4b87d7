//! Phrases: note events with their meter, tempo, key and lyrics.
use crate::sorting::{inserted_at, sorted, stable_sort, Keyed};
use crate::text::{decimal, push_decimal};
use crate::theory::pitch::{class_name, Pitch, PitchClass};
use crate::theory::rhythm::{bar_ticks, Duration, NoteEvent, TimeSignature};
use crate::theory::scale::{
    degree_iff_contained, degree_in, mode_steps, scale_classes, scale_fits, Scale,
};
use crate::theory::validation::{ValidationLevel, ValidationWarning, WarningView};
use vstd::prelude::*;
use vstd::slice::slice_to_vec;
use vstd::string::*;

verus! {

/// One syllable and the note that it is sung on.
#[derive(Debug)]
pub struct LyricSyllable {
    pub text: String,
    pub note_id: u32,
    /// The word that the syllable belongs to; negative for a padding rest.
    pub word_index: i32,
    /// `strong`, `weak` or `unstressed`.
    pub stress: String,
}

#[derive(Debug)]
pub struct LyricLine {
    pub phrase_id: u32,
    pub syllables: Vec<LyricSyllable>,
    pub raw_text: String,
}

#[derive(Debug)]
pub struct Phrase {
    pub id: u32,
    pub label: String,
    pub events: Vec<NoteEvent>,
    pub time_sig: TimeSignature,
    pub tempo: u16,
    pub key: Option<Scale>,
    pub bars: u8,
    pub lyrics: Vec<LyricLine>,
}

/// What a syllable holds.
#[verifier::ext_equal]
pub struct SyllableView {
    pub text: Seq<char>,
    pub note_id: u32,
    pub word_index: i32,
    pub stress: Seq<char>,
}

/// What a line of lyrics holds.
#[verifier::ext_equal]
pub struct LyricLineView {
    pub phrase_id: u32,
    pub syllables: Seq<SyllableView>,
    pub raw_text: Seq<char>,
}

/// What a phrase holds.
#[verifier::ext_equal]
pub struct PhraseView {
    pub id: u32,
    pub label: Seq<char>,
    pub events: Seq<NoteEvent>,
    pub time_sig: TimeSignature,
    pub tempo: u16,
    pub key: Option<Scale>,
    pub bars: u8,
    pub lyrics: Seq<LyricLineView>,
}

impl View for LyricSyllable {
    type V = SyllableView;

    open spec fn view(&self) -> SyllableView {
        SyllableView {
            text: self.text@,
            note_id: self.note_id,
            word_index: self.word_index,
            stress: self.stress@,
        }
    }
}

impl View for LyricLine {
    type V = LyricLineView;

    open spec fn view(&self) -> LyricLineView {
        LyricLineView {
            phrase_id: self.phrase_id,
            syllables: self.syllables@.map_values(|s: LyricSyllable| s@),
            raw_text: self.raw_text@,
        }
    }
}

impl View for Phrase {
    type V = PhraseView;

    open spec fn view(&self) -> PhraseView {
        PhraseView {
            id: self.id,
            label: self.label@,
            events: self.events@,
            time_sig: self.time_sig,
            tempo: self.tempo,
            key: self.key,
            bars: self.bars,
            lyrics: self.lyrics@.map_values(|l: LyricLine| l@),
        }
    }
}

impl Clone for LyricSyllable {
    fn clone(&self) -> (r: Self)
        ensures
            r@ == self@,
    {
        LyricSyllable {
            text: self.text.clone(),
            note_id: self.note_id,
            word_index: self.word_index,
            stress: self.stress.clone(),
        }
    }
}

impl Clone for LyricLine {
    fn clone(&self) -> (r: Self)
        ensures
            r@ == self@,
    {
        let mut syllables: Vec<LyricSyllable> = Vec::new();
        for i in 0..self.syllables.len()
            invariant
                syllables@.map_values(|s: LyricSyllable| s@) == self@.syllables.take(i as int),
        {
            let ghost before = syllables@;
            let s = self.syllables[i].clone();
            syllables.push(s);
            assert(syllables@.map_values(|s: LyricSyllable| s@) == before.map_values(
                |s: LyricSyllable| s@,
            ).push(s@));
        }
        LyricLine {
            phrase_id: self.phrase_id,
            syllables,
            raw_text: self.raw_text.clone(),
        }
    }
}

impl Clone for Phrase {
    fn clone(&self) -> (r: Self)
        ensures
            r@ == self@,
    {
        let mut lyrics: Vec<LyricLine> = Vec::new();
        for i in 0..self.lyrics.len()
            invariant
                lyrics@.map_values(|l: LyricLine| l@) == self@.lyrics.take(i as int),
        {
            let ghost before = lyrics@;
            let l = self.lyrics[i].clone();
            lyrics.push(l);
            assert(lyrics@.map_values(|l: LyricLine| l@) == before.map_values(
                |l: LyricLine| l@,
            ).push(l@));
        }
        Phrase {
            id: self.id,
            label: self.label.clone(),
            events: slice_to_vec(self.events.as_slice()),
            time_sig: self.time_sig,
            tempo: self.tempo,
            key: self.key,
            bars: self.bars,
            lyrics,
        }
    }
}

/// `n` held between the lowest and the highest pitch number.
pub open spec fn clamped(n: int) -> u8 {
    if n < 0 {
        0
    } else if n > 127 {
        127
    } else {
        n as u8
    }
}

/// `t` moved to the nearest multiple of `g`, halves upwards.
pub open spec fn snapped(t: int, g: int) -> int {
    (t + g / 2) / g * g
}

/// The event moved onto a grid; it lasts at least one grid step.
pub open spec fn quantized_event(ev: NoteEvent, g: int) -> NoteEvent {
    NoteEvent {
        start: snapped(ev.start as int, g) as u32,
        duration: (if snapped(ev.duration as int, g) == 0 {
            g
        } else {
            snapped(ev.duration as int, g)
        }) as u32,
        ..ev
    }
}

/// The events moved onto a grid, in order of their starts.
pub open spec fn quantized(events: Seq<NoteEvent>, g: int) -> Seq<NoteEvent> {
    sorted(events.map_values(|ev: NoteEvent| quantized_event(ev, g)))
}

/// The event moved by some semitones, held within the pitch range.
pub open spec fn transposed_event(ev: NoteEvent, semitones: int) -> NoteEvent {
    NoteEvent { pitch: clamped(ev.pitch + semitones), ..ev }
}

pub open spec fn transposed(events: Seq<NoteEvent>, semitones: int) -> Seq<NoteEvent> {
    events.map_values(|ev: NoteEvent| transposed_event(ev, semitones))
}

/// The event mirrored at an axis pitch, held within the pitch range.
pub open spec fn inverted_event(ev: NoteEvent, axis: int) -> NoteEvent {
    NoteEvent { pitch: clamped(2 * axis - ev.pitch), ..ev }
}

pub open spec fn inverted(events: Seq<NoteEvent>, axis: int) -> Seq<NoteEvent> {
    events.map_values(|ev: NoteEvent| inverted_event(ev, axis))
}

/// The event as it lies when `total` ticks are read backwards.
pub open spec fn reversed_event(ev: NoteEvent, total: int) -> NoteEvent {
    NoteEvent {
        start: (if ev.start + ev.duration <= total {
            total - (ev.start + ev.duration)
        } else {
            0
        }) as u32,
        ..ev
    }
}

/// The events read backwards, in order of their new starts.
pub open spec fn retrograded(events: Seq<NoteEvent>, total: int) -> Seq<NoteEvent> {
    sorted(events.map_values(|ev: NoteEvent| reversed_event(ev, total)))
}

/// The length of a phrase in ticks.
pub open spec fn phrase_ticks(p: PhraseView) -> int {
    bar_ticks(p.time_sig) * p.bars
}

/// Whether no event ends after the last tick that can be counted.
pub open spec fn ends_fit(events: Seq<NoteEvent>) -> bool {
    forall|i: int|
        0 <= i < events.len() ==> (#[trigger] events[i]).start + events[i].duration <= u32::MAX
}

/// Whether the event's pitch class lies outside the scale.
pub open spec fn is_chromatic(ev: NoteEvent, scale: Scale) -> bool {
    !scale_classes(scale).contains(PitchClass((ev.pitch % 12) as u8))
}

/// The finding about an event outside the scale.
pub open spec fn chromatic_warning(ev: NoteEvent, scale: Scale) -> WarningView {
    WarningView {
        level: ValidationLevel::Info,
        message: "pitch "@ + class_name(ev.pitch as int % 12) + " (tick "@ + decimal(
            ev.start as nat,
        ) + ") outside "@ + class_name(scale.root.0 as int % 12) + " scale"@,
    }
}

/// The findings about the events outside the scale, in the events' order.
pub open spec fn chromatic_warnings(events: Seq<NoteEvent>, scale: Scale) -> Seq<WarningView>
    decreases events.len(),
{
    if events.len() == 0 {
        Seq::empty()
    } else {
        let rest = chromatic_warnings(events.drop_last(), scale);
        if is_chromatic(events.last(), scale) {
            rest.push(chromatic_warning(events.last(), scale))
        } else {
            rest
        }
    }
}

/// The findings about a phrase: none where it has no key.
pub open spec fn scale_warnings(p: PhraseView) -> Seq<WarningView> {
    match p.key {
        Some(scale) => chromatic_warnings(p.events, scale),
        None => Seq::empty(),
    }
}

/// Words the finding about an event.
fn warning_for(ev: &NoteEvent, scale: &Scale) -> (r: ValidationWarning)
    ensures
        r@ == chromatic_warning(*ev, *scale),
{
    let mut message = "pitch ".to_owned();
    message.append(Pitch(ev.pitch).name());
    message.append(" (tick ");
    push_decimal(&mut message, ev.start as u64);
    message.append(") outside ");
    message.append(scale.root.name());
    message.append(" scale");
    ValidationWarning { level: ValidationLevel::Info, message }
}

/// Holds a pitch number within the pitch range.
fn clamp_pitch(n: i16) -> (r: u8)
    ensures
        r == clamped(n as int),
{
    if n < 0 {
        0
    } else if n > 127 {
        127
    } else {
        n as u8
    }
}

proof fn lemma_snapped(t: int, g: int)
    requires
        0 <= t,
        0 < g,
    ensures
        0 <= snapped(t, g) <= t + g / 2,
        snapped(t, g) == 0 <==> (t + g / 2) / g == 0,
{
    let q = (t + g / 2) / g;
    assert(0 <= q * g <= t + g / 2 && (q * g == 0 <==> q == 0)) by (nonlinear_arith)
        requires
            0 < g,
            0 <= t + g / 2,
            q == (t + g / 2) / g,
    ;
}

/// Moves one event onto a grid.
fn quantize_event(ev: &NoteEvent, g: u32) -> (r: NoteEvent)
    requires
        g > 0,
        ev.start + g / 2 <= u32::MAX,
        ev.duration + g / 2 <= u32::MAX,
    ensures
        r == quantized_event(*ev, g as int),
{
    proof {
        lemma_snapped(ev.start as int, g as int);
        lemma_snapped(ev.duration as int, g as int);
    }
    let start: u32 = (ev.start + g / 2) / g * g;
    let steps: u32 = (ev.duration + g / 2) / g;
    let duration: u32 = if steps == 0 {
        g
    } else {
        steps * g
    };
    NoteEvent {
        pitch: ev.pitch,
        start,
        duration,
        velocity: ev.velocity,
        channel: ev.channel,
        voice: ev.voice,
        slur_group: ev.slur_group,
    }
}

impl Phrase {
    /// An empty phrase of four bars, without a key.
    pub fn new(id: u32, label: &str, time_sig: TimeSignature, tempo: u16) -> (r: Self)
        ensures
            r@ == (PhraseView {
                id,
                label: label@,
                events: Seq::empty(),
                time_sig,
                tempo,
                key: None,
                bars: 4,
                lyrics: Seq::empty(),
            }),
    {
        Self {
            id,
            label: label.to_owned(),
            events: Vec::new(),
            time_sig,
            tempo,
            key: None,
            bars: 4,
            lyrics: Vec::new(),
        }
    }

    /// The length in ticks.
    pub fn duration_ticks(&self) -> (r: u32)
        ensures
            r as int == phrase_ticks(self@),
    {
        let bar = self.time_sig.ticks_per_bar();
        assert(bar * self.bars <= 244800 * 255) by (nonlinear_arith)
            requires
                bar <= 244800,
                self.bars <= 255,
        ;
        bar * self.bars as u32
    }

    /// Moves every event to the nearest grid line and orders them by their starts.
    pub fn quantize(&mut self, grid: Duration)
        requires
            grid.0 > 0,
            forall|i: int|
                0 <= i < old(self).events@.len() ==> (#[trigger] old(self).events@[i]).start
                    + grid.0 / 2 <= u32::MAX && old(self).events@[i].duration + grid.0 / 2
                    <= u32::MAX,
        ensures
            final(self)@ == (PhraseView {
                events: quantized(old(self).events@, grid.0 as int),
                ..old(self)@
            }),
    {
        let g = grid.0;
        let mut moved: Vec<NoteEvent> = Vec::new();
        let ghost model = self.events@.map_values(|ev: NoteEvent| quantized_event(ev, g as int));
        for i in 0..self.events.len()
            invariant
                g > 0,
                model == self.events@.map_values(|ev: NoteEvent| quantized_event(ev, g as int)),
                moved@ == model.take(i as int),
                forall|i: int|
                    0 <= i < self.events@.len() ==> (#[trigger] self.events@[i]).start + g / 2
                        <= u32::MAX && self.events@[i].duration + g / 2 <= u32::MAX,
        {
            moved.push(quantize_event(&self.events[i], g));
            assert(moved@ == model.take(i + 1));
        }
        assert(moved@ == model);
        self.events = stable_sort(moved);
    }

    /// The phrase moved by some semitones; pitches stay within the pitch range.
    pub fn transpose(&self, semitones: i8) -> (r: Self)
        ensures
            r@ == (PhraseView { events: transposed(self.events@, semitones as int), ..self@ }),
    {
        let mut p = self.clone();
        let ghost model = transposed(self.events@, semitones as int);
        let mut events: Vec<NoteEvent> = Vec::new();
        for i in 0..self.events.len()
            invariant
                model == transposed(self.events@, semitones as int),
                events@ == model.take(i as int),
        {
            let ev = self.events[i];
            events.push(NoteEvent {
                pitch: clamp_pitch(ev.pitch as i16 + semitones as i16),
                ..ev
            });
            assert(events@ == model.take(i + 1));
        }
        assert(events@ == model);
        p.events = events;
        p
    }

    /// The phrase read backwards.
    pub fn retrograde(&self) -> (r: Self)
        requires
            ends_fit(self.events@),
        ensures
            r@ == (PhraseView {
                events: retrograded(self.events@, phrase_ticks(self@)),
                ..self@
            }),
    {
        let total = self.duration_ticks();
        let mut p = self.clone();
        let ghost model = self.events@.map_values(
            |ev: NoteEvent| reversed_event(ev, total as int),
        );
        let mut events: Vec<NoteEvent> = Vec::new();
        for i in 0..self.events.len()
            invariant
                ends_fit(self.events@),
                model == self.events@.map_values(
                    |ev: NoteEvent| reversed_event(ev, total as int),
                ),
                events@ == model.take(i as int),
        {
            let ev = self.events[i];
            events.push(NoteEvent {
                start: total.saturating_sub(ev.start + ev.duration),
                ..ev
            });
            assert(events@ == model.take(i + 1));
        }
        assert(events@ == model);
        p.events = stable_sort(events);
        p
    }

    /// The phrase mirrored at an axis pitch; pitches stay within the pitch range.
    pub fn invert(&self, axis: Pitch) -> (r: Self)
        ensures
            r@ == (PhraseView { events: inverted(self.events@, axis.0 as int), ..self@ }),
    {
        let mut p = self.clone();
        let ghost model = inverted(self.events@, axis.0 as int);
        let mut events: Vec<NoteEvent> = Vec::new();
        for i in 0..self.events.len()
            invariant
                model == inverted(self.events@, axis.0 as int),
                events@ == model.take(i as int),
        {
            let ev = self.events[i];
            events.push(NoteEvent {
                pitch: clamp_pitch(axis.0 as i16 * 2 - ev.pitch as i16),
                ..ev
            });
            assert(events@ == model.take(i + 1));
        }
        assert(events@ == model);
        p.events = events;
        p
    }

    /// The findings about events outside the key; none where there is no key.
    pub fn validate_against_scale(&self) -> (r: Vec<ValidationWarning>)
        requires
            self.key matches Some(scale) ==> scale_fits(scale),
        ensures
            r@.map_values(|w: ValidationWarning| w@) == scale_warnings(self@),
    {
        let mut out: Vec<ValidationWarning> = Vec::new();
        if let Some(scale) = &self.key {
            assert(self.events@.take(0) == Seq::<NoteEvent>::empty());
            for i in 0..self.events.len()
                invariant
                    scale_fits(*scale),
                    out@.map_values(|w: ValidationWarning| w@) == chromatic_warnings(
                        self.events@.take(i as int),
                        *scale,
                    ),
            {
                let ev = self.events[i];
                assert(self.events@.take(i + 1).drop_last() == self.events@.take(i as int));
                if !scale.contains(PitchClass(ev.pitch % 12)) {
                    let ghost before = out@;
                    let w = warning_for(&ev, scale);
                    out.push(w);
                    assert(out@.map_values(|w: ValidationWarning| w@) == before.map_values(
                        |w: ValidationWarning| w@,
                    ).push(w@));
                }
            }
            assert(self.events@.take(self.events@.len() as int) == self.events@);
        }
        out
    }
}

/// Transposing up and then down again by the same distance gives the events
/// back, where no pitch met the end of the range.
pub proof fn transpose_back(events: Seq<NoteEvent>, semitones: int)
    requires
        forall|i: int|
            0 <= i < events.len() ==> 0 <= (#[trigger] events[i]).pitch + semitones <= 127
                && events[i].pitch <= 127,
    ensures
        transposed(transposed(events, semitones), -semitones) == events,
{
    assert forall|i: int| 0 <= i < events.len() implies transposed(
        transposed(events, semitones),
        -semitones,
    )[i] == events[i] by {
        assert(events[i].pitch <= 127);
    }
}

/// Mirroring twice at one axis gives the events back, where no pitch met the
/// end of the range.
pub proof fn invert_twice(events: Seq<NoteEvent>, axis: int)
    requires
        forall|i: int|
            0 <= i < events.len() ==> 0 <= 2 * axis - (#[trigger] events[i]).pitch <= 127
                && events[i].pitch <= 127,
    ensures
        inverted(inverted(events, axis), axis) == events,
{
    assert forall|i: int| 0 <= i < events.len() implies inverted(
        inverted(events, axis),
        axis,
    )[i] == events[i] by {
        assert(events[i].pitch <= 127);
    }
}

/// Transposed and mirrored pitches stay within the pitch range.
pub proof fn pitches_stay_in_range(events: Seq<NoteEvent>, n: int, i: int)
    requires
        0 <= i < events.len(),
    ensures
        transposed(events, n)[i].pitch <= 127,
        inverted(events, n)[i].pitch <= 127,
{
}

/// Mirroring keeps a note on the axis where it is.
pub proof fn invert_keeps_axis(ev: NoteEvent)
    requires
        ev.pitch <= 127,
    ensures
        inverted_event(ev, ev.pitch as int) == ev,
{
}

/// After quantizing, every event starts on the grid, lasts a positive whole
/// number of grid steps, and no event starts before its predecessor.
pub proof fn quantized_lies_on_grid(events: Seq<NoteEvent>, g: int)
    requires
        0 < g <= u32::MAX,
        forall|i: int|
            0 <= i < events.len() ==> (#[trigger] events[i]).start + g / 2 <= u32::MAX
                && events[i].duration + g / 2 <= u32::MAX,
    ensures
        quantized(events, g).len() == events.len(),
        crate::sorting::ordered(quantized(events, g)),
        forall|i: int|
            0 <= i < events.len() ==> (#[trigger] quantized(events, g)[i]).start as int % g == 0
                && quantized(events, g)[i].duration as int % g == 0 && quantized(
                events,
                g,
            )[i].duration > 0,
{
    let moved = events.map_values(|ev: NoteEvent| quantized_event(ev, g));
    crate::sorting::sorted_is_ordered(moved);
    crate::sorting::sorted_keeps_items(moved);
    assert forall|i: int| 0 <= i < events.len() implies (#[trigger] quantized(
        events,
        g,
    )[i]).start as int % g == 0 && quantized(events, g)[i].duration as int % g == 0 && quantized(
        events,
        g,
    )[i].duration > 0 by {
        let x = quantized(events, g)[i];
        assert(moved.contains(x));
        let j = choose|j: int| 0 <= j < moved.len() && moved[j] == x;
        let ev = events[j];
        assert(x == quantized_event(ev, g));
        lemma_snapped(ev.start as int, g);
        lemma_snapped(ev.duration as int, g);
        vstd::arithmetic::div_mod::lemma_mod_multiples_basic((ev.start + g / 2) / g, g);
        vstd::arithmetic::div_mod::lemma_mod_multiples_basic((ev.duration + g / 2) / g, g);
        vstd::arithmetic::div_mod::lemma_mod_self_0(g);
    }
}

/// Quantizing a second time to the same grid changes no start or duration of
/// an event that already lies on it.
pub proof fn quantized_event_is_fixed(ev: NoteEvent, g: int)
    requires
        0 < g <= u32::MAX,
        ev.start as int % g == 0,
        ev.duration as int % g == 0,
        ev.duration > 0,
        ev.start + g / 2 <= u32::MAX,
        ev.duration + g / 2 <= u32::MAX,
    ensures
        quantized_event(ev, g) == ev,
{
    lemma_snap_multiple(ev.start as int, g);
    lemma_snap_multiple(ev.duration as int, g);
}

proof fn lemma_snap_multiple(t: int, g: int)
    requires
        0 < g,
        0 <= t,
        t % g == 0,
    ensures
        snapped(t, g) == t,
{
    let q = t / g;
    assert(t == q * g) by (nonlinear_arith)
        requires
            t % g == 0,
            q == t / g,
            0 < g,
    ;
    assert((q * g + g / 2) / g == q) by (nonlinear_arith)
        requires
            0 < g,
    ;
}

/// Reading backwards twice gives back every start, where no event ends after
/// the phrase.
pub proof fn reversed_event_twice(ev: NoteEvent, total: int)
    requires
        ev.start + ev.duration <= total <= u32::MAX,
    ensures
        reversed_event(reversed_event(ev, total), total) == ev,
{
}

/// Whether every event ends later than those before it, and none after tick `total`.
pub open spec fn ends_ascend(events: Seq<NoteEvent>, total: int) -> bool {
    &&& forall|i: int|
        0 <= i < events.len() ==> (#[trigger] events[i]).start + events[i].duration <= total
    &&& forall|i: int, j: int|
        0 <= i < j < events.len() ==> (#[trigger] events[i]).start + events[i].duration < (
        #[trigger] events[j]).start + events[j].duration
}

proof fn lemma_sorted_descending(s: Seq<NoteEvent>)
    requires
        forall|i: int, j: int|
            0 <= i < j < s.len() ==> (#[trigger] s[i]).start > (#[trigger] s[j]).start,
    ensures
        sorted(s) == s.reverse(),
    decreases s.len(),
{
    if s.len() > 0 {
        let t = s.drop_last();
        lemma_sorted_descending(t);
        inserted_at(t.reverse(), s.last(), 0);
        assert(t.reverse().insert(0, s.last()) == s.reverse());
    } else {
        assert(sorted(s) == s.reverse());
    }
}

/// Reading a phrase backwards turns the order of its notes round, keeps how long each
/// one lasts, and puts each as far from the start as it ended before the end.
pub proof fn retrograde_reverses_order(events: Seq<NoteEvent>, total: int)
    requires
        0 <= total <= u32::MAX,
        ends_ascend(events, total),
    ensures
        retrograded(events, total).len() == events.len(),
        forall|i: int|
            0 <= i < events.len() ==> (#[trigger] retrograded(events, total)[i]) == (NoteEvent {
                start: (total - (events[events.len() - 1 - i].start + events[events.len() - 1
                    - i].duration)) as u32,
                ..events[events.len() - 1 - i]
            }),
{
    let turned = events.map_values(|ev: NoteEvent| reversed_event(ev, total));
    assert forall|i: int, j: int| 0 <= i < j < turned.len() implies (#[trigger] turned[i]).start > (
    #[trigger] turned[j]).start by {
        assert(events[i].start + events[i].duration < events[j].start + events[j].duration);
    }
    lemma_sorted_descending(turned);
}

proof fn lemma_mapped_multiset(a: Seq<NoteEvent>, b: Seq<NoteEvent>, f: spec_fn(NoteEvent) -> NoteEvent)
    requires
        a.to_multiset() == b.to_multiset(),
    ensures
        a.map_values(f).to_multiset() == b.map_values(f).to_multiset(),
    decreases a.len(),
{
    broadcast use vstd::seq_lib::group_to_multiset_ensures;

    assert(a.len() == b.len()) by {
        a.to_multiset_ensures();
        b.to_multiset_ensures();
    }
    if a.len() > 0 {
        let x = a.last();
        assert(a.contains(x));
        assert(b.to_multiset().count(x) > 0);
        assert(b.contains(x));
        let j = choose|j: int| 0 <= j < b.len() && b[j] == x;
        let t = a.drop_last();
        let u = b.remove(j);
        assert(t == a.remove(a.len() - 1));
        assert(t.to_multiset() == u.to_multiset());
        lemma_mapped_multiset(t, u, f);
        let (fa, fb) = (a.map_values(f), b.map_values(f));
        assert(fa == t.map_values(f).push(f(x)));
        assert(fb.remove(j) == u.map_values(f));
        assert(fb.to_multiset() == fb.remove(j).to_multiset().insert(f(x))) by {
            assert(fb[j] == f(x));
            assert(fb.contains(f(x)));
        }
    } else {
        assert(a == b);
    }
}

proof fn lemma_ordered_unique(a: Seq<NoteEvent>, b: Seq<NoteEvent>)
    requires
        forall|i: int, j: int|
            0 <= i < j < a.len() ==> (#[trigger] a[i]).start < (#[trigger] a[j]).start,
        crate::sorting::ordered(b),
        a.to_multiset() == b.to_multiset(),
    ensures
        a == b,
    decreases a.len(),
{
    broadcast use vstd::seq_lib::group_to_multiset_ensures;

    assert(a.len() == b.len()) by {
        a.to_multiset_ensures();
        b.to_multiset_ensures();
    }
    if a.len() > 0 {
        let (x, y) = (a.last(), b.last());
        assert(a.contains(x) && b.contains(y));
        assert(b.to_multiset().count(x) > 0 && a.to_multiset().count(y) > 0);
        assert(b.contains(x) && a.contains(y));
        let i = choose|i: int| 0 <= i < b.len() && b[i] == x;
        let j = choose|j: int| 0 <= j < a.len() && a[j] == y;
        assert(x.key() <= y.key()) by {
            assert(i < b.len() - 1 ==> b[i].key() <= b[b.len() - 1].key());
        }
        assert(j == a.len() - 1) by {
            if j < a.len() - 1 {
                assert(a[j].start < a[a.len() - 1].start);
            }
        }
        let (t, u) = (a.drop_last(), b.drop_last());
        assert(t == a.remove(a.len() - 1) && u == b.remove(b.len() - 1));
        assert(crate::sorting::ordered(u)) by {
            assert forall|i: int, j: int| 0 <= i < j < u.len() implies (#[trigger] u[i]).key() <= (
            #[trigger] u[j]).key() by {
                assert(b[i].key() <= b[j].key());
            }
        }
        lemma_ordered_unique(t, u);
        assert(a == t.push(x) && b == u.push(y));
    } else {
        assert(a == b);
    }
}

/// A phrase whose notes end within it and that is read backwards twice has its notes
/// again, in order of their starts. Where no two start together and they were in order,
/// it is the phrase itself.
pub proof fn retrograde_twice(events: Seq<NoteEvent>, total: int)
    requires
        0 <= total <= u32::MAX,
        forall|i: int|
            0 <= i < events.len() ==> (#[trigger] events[i]).start + events[i].duration <= total,
    ensures
        crate::sorting::ordered(retrograded(retrograded(events, total), total)),
        retrograded(retrograded(events, total), total).to_multiset() == events.to_multiset(),
        (forall|i: int, j: int|
            0 <= i < j < events.len() ==> (#[trigger] events[i]).start < (
            #[trigger] events[j]).start) ==> retrograded(retrograded(events, total), total)
            == events,
{
    let f = |ev: NoteEvent| reversed_event(ev, total);
    let turned = events.map_values(f);
    let back = sorted(turned);
    crate::sorting::sorted_is_ordered(turned);
    crate::sorting::sorted_is_ordered(back.map_values(f));
    lemma_mapped_multiset(back, turned, f);
    assert(turned.map_values(f) == events) by {
        assert forall|i: int| 0 <= i < events.len() implies turned.map_values(f)[i]
            == events[i] by {
            assert(events[i].start + events[i].duration <= total);
            reversed_event_twice(events[i], total);
        }
    }
    let twice = retrograded(retrograded(events, total), total);
    if forall|i: int, j: int|
        0 <= i < j < events.len() ==> (#[trigger] events[i]).start < (#[trigger] events[j]).start {
        lemma_ordered_unique(events, twice);
    }
}

/// There are no findings exactly where every event's class lies in the scale.
pub proof fn diatonic_phrase_has_no_warnings(events: Seq<NoteEvent>, scale: Scale)
    ensures
        chromatic_warnings(events, scale).len() == 0 <==> (forall|i: int|
            0 <= i < events.len() ==> !is_chromatic(#[trigger] events[i], scale)),
    decreases events.len(),
{
    if events.len() > 0 {
        diatonic_phrase_has_no_warnings(events.drop_last(), scale);
        let a = events.drop_last();
        assert forall|i: int| 0 <= i < a.len() && is_chromatic(events[i], scale) implies is_chromatic(
            #[trigger] a[i],
            scale,
        ) by {}
        if chromatic_warnings(events, scale).len() == 0 {
            assert forall|i: int| 0 <= i < events.len() implies !is_chromatic(
                #[trigger] events[i],
                scale,
            ) by {
                if i < a.len() {
                    assert(a[i] == events[i]);
                }
            }
        } else if forall|i: int| 0 <= i < events.len() ==> !is_chromatic(#[trigger] events[i], scale) {
            assert forall|i: int| 0 <= i < a.len() implies !is_chromatic(
                #[trigger] a[i],
                scale,
            ) by {
                assert(a[i] == events[i]);
            }
        }
    }
}

/// Whether an event's class is the key's root plus one of the steps of the key's mode.
pub open spec fn lies_in_key(ev: NoteEvent, key: Scale) -> bool {
    exists|i: int|
        0 <= i < mode_steps(key.mode).len() && (key.root.0 + #[trigger] mode_steps(key.mode)[i])
            % 12 == ev.pitch % 12
}

/// An event is warned about exactly where its pitch class lies outside the phrase's own
/// key, in its root and its mode: one more event adds one more finding behind the others
/// where it is none of the root plus a step, that is where the scale has no degree for
/// it, and nothing where it is one. A phrase without events or without a key has no
/// findings.
pub proof fn warned_exactly_outside_the_key(p: PhraseView, ev: NoteEvent)
    ensures
        ({
            let before = scale_warnings(p);
            let after = scale_warnings(PhraseView { events: p.events.push(ev), ..p });
            &&& p.key is None || p.events.len() == 0 ==> before.len() == 0
            &&& p.key matches Some(key) ==> {
                &&& lies_in_key(ev, key) <==> degree_in(
                    key,
                    PitchClass((ev.pitch % 12) as u8),
                ) is Some
                &&& lies_in_key(ev, key) ==> after == before
                &&& !lies_in_key(ev, key) ==> after.len() == before.len() + 1 && after.drop_last()
                    == before && after.last().level == ValidationLevel::Info
                    && after.last().message == "pitch "@ + class_name(ev.pitch as int % 12)
                    + " (tick "@ + decimal(ev.start as nat) + ") outside "@ + class_name(
                    key.root.0 as int % 12,
                ) + " scale"@
            }
        }),
{
    if let Some(key) = p.key {
        let pc = PitchClass((ev.pitch % 12) as u8);
        degree_iff_contained(key, pc);
        assert(p.events.push(ev).drop_last() == p.events);
        if scale_classes(key).contains(pc) {
            let i = choose|i: int| 0 <= i < scale_classes(key).len() && scale_classes(key)[i] == pc;
            assert((key.root.0 + mode_steps(key.mode)[i]) % 12 == ev.pitch % 12);
        }
        if lies_in_key(ev, key) {
            let i = choose|i: int|
                0 <= i < mode_steps(key.mode).len() && (key.root.0 + #[trigger] mode_steps(
                    key.mode,
                )[i]) % 12 == ev.pitch % 12;
            assert(scale_classes(key)[i] == pc);
        }
    }
}

/// Every note is moved by the same distance, and by all of it, as far as the pitch range
/// goes; nothing else of it changes.
pub proof fn transposing_moves_every_note_alike(events: Seq<NoteEvent>, semitones: int, i: int)
    requires
        0 <= i < events.len(),
    ensures
        ({
            let (ev, moved) = (events[i], transposed(events, semitones)[i]);
            &&& transposed(events, semitones).len() == events.len()
            &&& 0 <= ev.pitch + semitones <= 127 ==> moved.pitch - ev.pitch == semitones
            &&& ev.pitch + semitones < 0 ==> moved.pitch == 0
            &&& ev.pitch + semitones > 127 ==> moved.pitch == 127
            &&& moved.start == ev.start && moved.duration == ev.duration
            &&& moved.velocity == ev.velocity && moved.channel == ev.channel
            &&& moved.voice == ev.voice && moved.slur_group == ev.slur_group
        }),
{
}

/// Every note is mirrored at the axis: the two pitches lie equally far from it, on either
/// side, as far as the pitch range goes. Nothing else of a note changes.
pub proof fn inverting_mirrors_every_note(events: Seq<NoteEvent>, axis: int, i: int)
    requires
        0 <= i < events.len(),
    ensures
        ({
            let (ev, moved) = (events[i], inverted(events, axis)[i]);
            &&& inverted(events, axis).len() == events.len()
            &&& 0 <= 2 * axis - ev.pitch <= 127 ==> moved.pitch - axis == axis - ev.pitch
            &&& 2 * axis < ev.pitch ==> moved.pitch == 0
            &&& 2 * axis - ev.pitch > 127 ==> moved.pitch == 127
            &&& moved.start == ev.start && moved.duration == ev.duration
            &&& moved.velocity == ev.velocity && moved.channel == ev.channel
            &&& moved.voice == ev.voice && moved.slur_group == ev.slur_group
        }),
{
}

/// Whether two notes differ at most in where they lie and how long they last.
pub open spec fn same_note(a: NoteEvent, b: NoteEvent) -> bool {
    a.pitch == b.pitch && a.velocity == b.velocity && a.channel == b.channel && a.voice == b.voice
        && a.slur_group == b.slur_group
}

/// Whether a note was moved to the nearest grid line, the later one where two are equally
/// near, and its length to the nearest positive whole number of steps.
pub open spec fn is_nearest_on_grid(from: NoteEvent, to: NoteEvent, g: int) -> bool {
    &&& same_note(from, to)
    &&& to.start as int % g == 0
    &&& -g < 2 * (to.start - from.start) <= g
    &&& to.duration as int % g == 0
    &&& to.duration >= g
    &&& 2 * from.duration >= g ==> -g < 2 * (to.duration - from.duration) <= g
    &&& 2 * from.duration < g ==> to.duration == g
}

proof fn lemma_snapped_near(t: int, g: int)
    requires
        0 <= t,
        0 < g,
    ensures
        snapped(t, g) % g == 0,
        -g < 2 * (snapped(t, g) - t) <= g,
        2 * t < g ==> snapped(t, g) == 0,
        2 * t >= g ==> snapped(t, g) >= g,
{
    let x = t + g / 2;
    vstd::arithmetic::div_mod::lemma_fundamental_div_mod(x, g);
    let (q, r) = (x / g, x % g);
    assert(g * q == q * g) by (nonlinear_arith);
    vstd::arithmetic::div_mod::lemma_mod_multiples_basic(q, g);
    assert(q * g >= g || q * g <= 0) by (nonlinear_arith)
        requires
            g > 0,
    ;
}

/// Quantizing moves every note to the nearest grid line and its length to the nearest
/// positive number of steps, keeps everything else of it, and puts the notes in order of
/// their starts.
pub proof fn quantizing_moves_to_the_nearest_line(events: Seq<NoteEvent>, g: int)
    requires
        0 < g <= u32::MAX,
        forall|i: int|
            0 <= i < events.len() ==> (#[trigger] events[i]).start + g / 2 <= u32::MAX
                && events[i].duration + g / 2 <= u32::MAX,
    ensures
        exists|moved: Seq<NoteEvent>|
            moved.len() == events.len() && (forall|i: int|
                0 <= i < events.len() ==> is_nearest_on_grid(events[i], #[trigger] moved[i], g))
                && #[trigger] moved.to_multiset() == quantized(events, g).to_multiset(),
        forall|i: int, j: int|
            0 <= i < j < quantized(events, g).len() ==> (#[trigger] quantized(events, g)[i]).start
                <= (#[trigger] quantized(events, g)[j]).start,
{
    let moved = events.map_values(|ev: NoteEvent| quantized_event(ev, g));
    crate::sorting::sorted_is_ordered(moved);
    assert forall|i: int| 0 <= i < events.len() implies is_nearest_on_grid(
        events[i],
        #[trigger] moved[i],
        g,
    ) by {
        let ev = events[i];
        lemma_snapped_near(ev.start as int, g);
        lemma_snapped_near(ev.duration as int, g);
        lemma_snapped(ev.start as int, g);
        lemma_snapped(ev.duration as int, g);
        vstd::arithmetic::div_mod::lemma_mod_self_0(g);
    }
    let q = quantized(events, g);
    assert forall|i: int, j: int| 0 <= i < j < q.len() implies (#[trigger] q[i]).start <= (
    #[trigger] q[j]).start by {
        assert(q[i].key() <= q[j].key());
    }
    assert(moved.to_multiset() == q.to_multiset());
}

/// Whether a note was turned round in a phrase of `total` ticks: it begins as long after
/// the start as it ended before the end, and at the start where it ended too late.
pub open spec fn is_turned_round(from: NoteEvent, to: NoteEvent, total: int) -> bool {
    &&& same_note(from, to)
    &&& to.duration == from.duration
    &&& from.start + from.duration <= total ==> to.start + from.start + from.duration == total
    &&& from.start + from.duration > total ==> to.start == 0
}

/// Reading backwards turns every note round, keeps everything else of it, and puts the
/// notes in order of their new starts.
pub proof fn retrograde_turns_every_note_round(events: Seq<NoteEvent>, total: int)
    requires
        0 <= total <= u32::MAX,
    ensures
        exists|turned: Seq<NoteEvent>|
            turned.len() == events.len() && (forall|i: int|
                0 <= i < events.len() ==> is_turned_round(events[i], #[trigger] turned[i], total))
                && #[trigger] turned.to_multiset() == retrograded(events, total).to_multiset(),
        forall|i: int, j: int|
            0 <= i < j < retrograded(events, total).len() ==> (#[trigger] retrograded(
                events,
                total,
            )[i]).start <= (#[trigger] retrograded(events, total)[j]).start,
{
    let turned = events.map_values(|ev: NoteEvent| reversed_event(ev, total));
    crate::sorting::sorted_is_ordered(turned);
    let q = retrograded(events, total);
    assert forall|i: int, j: int| 0 <= i < j < q.len() implies (#[trigger] q[i]).start <= (
    #[trigger] q[j]).start by {
        assert(q[i].key() <= q[j].key());
    }
    assert forall|i: int| 0 <= i < events.len() implies is_turned_round(
        events[i],
        #[trigger] turned[i],
        total,
    ) by {}
    assert(turned.to_multiset() == q.to_multiset());
}

/// A phrase is as long as its bars together, each of which has as many of its unit, the
/// so-many-th part of a whole note of four quarters, as the meter counts.
pub proof fn phrase_lasts_its_bars(p: PhraseView, bars: u8)
    ensures
        p.time_sig.denominator == 2 || p.time_sig.denominator == 4 || p.time_sig.denominator == 8
            ==> phrase_ticks(p) * p.time_sig.denominator == (4 * 480) * p.time_sig.numerator
            * p.bars,
        phrase_ticks(PhraseView { bars: 0, ..p }) == 0,
        bars < 255 ==> phrase_ticks(PhraseView { bars: (bars + 1) as u8, ..p }) == phrase_ticks(
            PhraseView { bars, ..p },
        ) + phrase_ticks(PhraseView { bars: 1, ..p }),
{
    let t = bar_ticks(p.time_sig);
    let (n, d, b) = (p.time_sig.numerator as int, p.time_sig.denominator as int, p.bars as int);
    crate::theory::rhythm::bar_counts_its_units(p.time_sig);
    if d == 2 || d == 4 || d == 8 {
        assert((t * b) * d == ((4 * 480) * n) * b) by (nonlinear_arith)
            requires
                t * d == (4 * 480) * n,
        ;
    }
    assert(t * (bars + 1) == t * bars + t * 1) by (nonlinear_arith);
    assert(t * 0 == 0) by (nonlinear_arith);
}

} // verus!
