//! Laws of phrases, pitches, scales and chords, of their files and of their timing.
use crate::daemon::audio::TimedCmd;
use crate::daemon::output::{
    frames_to_render, sample_comes_from_its_frame, slot_source, SlotSource,
};
use crate::daemon::scheduler::{
    build_timeline, frame_is_at_its_time, frames_fit, is_heard_at, sounds_note, ticks_to_frames,
    timeline_sounds_its_notes,
};
use crate::midi::error::MidiError;
use crate::midi::file::{Message, MidiFile};
use crate::midi::reader::{read_file, MidiReader};
use crate::midi::roundtrip::{
    faithful, faithful_phrase, length_reads_back, phrase_survives_its_file, read_back,
    reading_gives_back_what_was_written,
};
use crate::midi::writer::{
    groups_value, has_track, length_stands_in_groups, micros_of, plays_note, tempo_lasts_a_minute,
    timed_messages, track_plays_its_notes, var_len_bytes, MidiWriter,
};
use crate::musicxml::renderer::{
    entity_char, esc, escaped, escaped_char, escaped_text_reads_back, measures_text, midi_to_step,
    named_ticks, note_value_lasts_its_ticks, score_holds_names_and_measures, ticks_to_type,
    MusicXmlRenderer,
};
use crate::musicxml::segments::phrase_segments;
use crate::text::{decimal, signed_decimal};
use crate::theory::chord::{
    centre_distance, centre_gap, chord_stands_on_its_root, extension_step,
    least_distance_is_chosen, quality_steps, voice_leading_is_nearest, Chord,
};
use crate::theory::interval::Interval;
use crate::theory::phrase::{
    is_nearest_on_grid, is_turned_round, lies_in_key, quantizing_moves_to_the_nearest_line,
    retrograde_turns_every_note_round, warned_exactly_outside_the_key, Phrase, PhraseView,
};
use crate::theory::pitch::{
    is_note_letter, is_signed_letter, letter_semitone, sign_of, Pitch, PitchClass,
};
use crate::theory::rhythm::{Duration, NoteEvent, TimeSignature};
use crate::theory::scale::{mode_steps, scale_classes, Mode, Scale};
use crate::theory::validation::ValidationWarning;
use vstd::prelude::*;

verus! {

/// The numbers up to 127 are pitches, and a pitch has the number that it was made from.
pub proof fn pitch_keeps_its_number(n: u8, r: Option<Pitch>, m: u8)
    requires
        call_ensures(Pitch::new, (n,), r),
        r matches Some(p) ==> call_ensures(Pitch::midi, (&p,), m),
    ensures
        r is Some <==> n <= 127,
        r is Some ==> m == n,
{
}

/// A pitch is the one of its class in its octave: counting twelve semitones for every
/// octave from the one below zero, and the class on top, gives its number, and asking the
/// class for that octave gives back the pitch.
pub proof fn pitch_is_its_class_in_its_octave(
    p: Pitch,
    c: PitchClass,
    o: i8,
    back: Option<Pitch>,
)
    requires
        p.0 <= 127,
        call_ensures(Pitch::pc, (&p,), c),
        call_ensures(Pitch::octave, (&p,), o),
        call_ensures(PitchClass::in_octave, (&c, o), back),
    ensures
        0 <= c.0 < 12,
        -1 <= o <= 9,
        12 * (o + 1) + c.0 == p.0,
        back == Some(p),
{
}

/// A class has a pitch in an octave exactly where its number there is one.
pub proof fn class_has_a_pitch_within_range(c: PitchClass, o: i8, r: Option<Pitch>)
    requires
        call_ensures(PitchClass::in_octave, (&c, o), r),
    ensures
        r is Some <==> 0 <= 12 * (o + 1) + c.0 <= 127,
        r matches Some(p) ==> p.0 - c.0 == 12 * (o + 1),
{
}

/// The letter and the sign of a pitch's name, in its octave, sound as the pitch, and its
/// label is that name with the number of the octave behind it.
pub proof fn pitch_is_called_as_it_sounds(p: Pitch, name: &'static str, o: i8, label: String)
    requires
        p.0 <= 127,
        call_ensures(Pitch::name, (&p,), name),
        call_ensures(Pitch::octave, (&p,), o),
        call_ensures(Pitch::label, (&p,), label),
    ensures
        is_signed_letter(name@),
        letter_semitone(name@[0]) + sign_of(name@) + 12 * (o + 1) == p.0,
        label@ == name@ + signed_decimal(o as int),
{
    crate::theory::pitch::class_name_sounds_as_class(p.0 as int % 12);
}

/// A pitch is transposed to another by the interval that leads there, and the interval
/// back is the negated one.
pub proof fn interval_leads_to_the_other(
    p: Pitch,
    q: Pitch,
    i: Interval,
    j: Interval,
    negated: Interval,
    r: Option<Pitch>,
)
    requires
        p.0 <= 127,
        q.0 <= 127,
        call_ensures(Pitch::interval_to, (&p, q), i),
        call_ensures(Pitch::interval_to, (&q, p), j),
        call_ensures(Interval::negate, (&i,), negated),
        call_ensures(Pitch::transpose, (&p, i), r),
    ensures
        i.0 == q.0 - p.0,
        r == Some(q),
        negated == j,
{
}

/// The size of an interval does not depend on its direction, and six semitones either way
/// are a tritone.
pub proof fn direction_does_not_matter(
    i: Interval,
    negated: Interval,
    a: u8,
    b: u8,
    tritone: bool,
)
    requires
        i.0 > i8::MIN,
        call_ensures(Interval::negate, (&i,), negated),
        call_ensures(Interval::abs, (&i,), a),
        call_ensures(Interval::abs, (&negated,), b),
        call_ensures(Interval::is_tritone, (&i,), tritone),
    ensures
        a == b,
        a == i.0 || a + i.0 == 0,
        tritone <==> a == 6,
{
}

/// A quarter note lasts 480 ticks: four of them fill a bar of four, three a bar of three,
/// and six eighth notes last as long as three quarter notes.
pub proof fn common_bars_last_their_beats(
    four: TimeSignature,
    three: TimeSignature,
    six: TimeSignature,
    a: u32,
    b: u32,
    c: u32,
)
    requires
        call_ensures(TimeSignature::four_four, (), four),
        call_ensures(TimeSignature::three_four, (), three),
        call_ensures(TimeSignature::six_eight, (), six),
        call_ensures(TimeSignature::ticks_per_bar, (&four,), a),
        call_ensures(TimeSignature::ticks_per_bar, (&three,), b),
        call_ensures(TimeSignature::ticks_per_bar, (&six,), c),
    ensures
        a == 4 * 480,
        b == 3 * 480,
        c == 3 * 480,
        six.numerator == 6 && six.denominator == 8,
{
}

/// A phrase lasts as many bars as it has, each as long as its meter says.
pub proof fn phrase_lasts_all_its_bars(p: Phrase, bar: u32, ticks: u32)
    requires
        call_ensures(TimeSignature::ticks_per_bar, (&p.time_sig,), bar),
        call_ensures(Phrase::duration_ticks, (&p,), ticks),
    ensures
        ticks == p.bars * bar,
{
    assert(p.bars as int * bar as int == bar as int * p.bars as int) by (nonlinear_arith);
}

/// A new phrase has four bars, no notes, no key and no words.
pub proof fn new_phrase_is_empty(
    id: u32,
    label: &str,
    time_sig: TimeSignature,
    tempo: u16,
    r: Phrase,
)
    requires
        call_ensures(Phrase::new, (id, label, time_sig, tempo), r),
    ensures
        r@.id == id && r@.label == label@ && r@.time_sig == time_sig && r@.tempo == tempo,
        r@.events.len() == 0 && r@.lyrics.len() == 0 && r@.key is None && r@.bars == 4,
{
}

/// Whether two phrases differ at most in their notes.
pub open spec fn same_but_notes(p: PhraseView, q: PhraseView) -> bool {
    &&& p.id == q.id
    &&& p.label == q.label
    &&& p.time_sig == q.time_sig
    &&& p.tempo == q.tempo
    &&& p.key == q.key
    &&& p.bars == q.bars
    &&& p.lyrics == q.lyrics
}

/// Whether two notes differ at most in their pitches.
pub open spec fn same_but_pitch(a: NoteEvent, b: NoteEvent) -> bool {
    &&& a.start == b.start
    &&& a.duration == b.duration
    &&& a.velocity == b.velocity
    &&& a.channel == b.channel
    &&& a.voice == b.voice
    &&& a.slur_group == b.slur_group
}

/// A transposed phrase is the phrase with every note moved by the semitones, as far as the
/// pitches reach.
pub proof fn transposed_phrase_is_moved(p: Phrase, semitones: i8, r: Phrase, i: int)
    requires
        call_ensures(Phrase::transpose, (&p, semitones), r),
        0 <= i < p@.events.len(),
    ensures
        same_but_notes(p@, r@),
        r@.events.len() == p@.events.len(),
        same_but_pitch(p@.events[i], r@.events[i]),
        0 <= p@.events[i].pitch + semitones <= 127 ==> r@.events[i].pitch == p@.events[i].pitch
            + semitones,
        p@.events[i].pitch + semitones < 0 ==> r@.events[i].pitch == 0,
        p@.events[i].pitch + semitones > 127 ==> r@.events[i].pitch == 127,
{
}

/// An inverted phrase is the phrase with every note as far from the axis as it was, on the
/// other side, as far as the pitches reach.
pub proof fn inverted_phrase_is_mirrored(p: Phrase, axis: Pitch, r: Phrase, i: int)
    requires
        call_ensures(Phrase::invert, (&p, axis), r),
        0 <= i < p@.events.len(),
    ensures
        same_but_notes(p@, r@),
        r@.events.len() == p@.events.len(),
        same_but_pitch(p@.events[i], r@.events[i]),
        0 <= 2 * axis.0 - p@.events[i].pitch <= 127 ==> r@.events[i].pitch + p@.events[i].pitch
            == 2 * axis.0,
        2 * axis.0 < p@.events[i].pitch ==> r@.events[i].pitch == 0,
        2 * axis.0 - p@.events[i].pitch > 127 ==> r@.events[i].pitch == 127,
{
}

/// A scale holds a class exactly where the class is its root plus one of the steps of its
/// mode, and then the class is one of those that it lists, at the place of its degree.
pub proof fn scale_holds_root_plus_steps(
    s: Scale,
    pc: PitchClass,
    steps: Vec<u8>,
    classes: Vec<PitchClass>,
    holds: bool,
    degree: Option<u8>,
)
    requires
        pc.0 < 12,
        call_ensures(Mode::intervals, (&s.mode,), steps),
        call_ensures(Scale::pitch_classes, (&s,), classes),
        call_ensures(Scale::contains, (&s, pc), holds),
        call_ensures(Scale::degree_of, (&s, pc), degree),
    ensures
        classes@.len() == steps@.len(),
        forall|k: int|
            0 <= k < steps@.len() ==> (#[trigger] classes@[k]).0 == (s.root.0 + steps@[k]) % 12,
        holds <==> exists|k: int|
            0 <= k < steps@.len() && pc.0 == (s.root.0 + #[trigger] steps@[k]) % 12,
        degree is Some <==> holds,
        degree matches Some(d) ==> 1 <= d <= steps@.len() && classes@[d - 1] == pc,
{
    crate::theory::scale::degree_iff_contained(s, pc);
    assert(steps@ == mode_steps(s.mode));
    if holds {
        let k = choose|k: int| 0 <= k < scale_classes(s).len() && scale_classes(s)[k] == pc;
        assert(pc.0 == (s.root.0 + steps@[k]) % 12);
    }
    if exists|k: int| 0 <= k < steps@.len() && pc.0 == (s.root.0 + #[trigger] steps@[k]) % 12 {
        let k = choose|k: int|
            0 <= k < steps@.len() && pc.0 == (s.root.0 + #[trigger] steps@[k]) % 12;
        assert(scale_classes(s)[k] == pc);
    }
}

/// The step, octave and alteration that a pitch is written with sound as its number.
pub proof fn written_step_sounds_as_its_number(midi: u8, r: (&'static str, i8, i8))
    requires
        call_ensures(midi_to_step, (midi,), r),
    ensures
        r.0@.len() == 1,
        r.2 == 0 || r.2 == 1,
        letter_semitone(r.0@[0]) + r.2 + 12 * (r.1 + 1) == midi,
{
}

/// What was written to a file is read from its bytes, with every track called by the last
/// name among its events.
pub proof fn file_is_read_from_its_bytes(
    f: MidiFile,
    bytes: Vec<u8>,
    data: &[u8],
    r: Result<MidiFile, MidiError>,
)
    requires
        faithful(f@),
        call_ensures(MidiWriter::to_bytes, (&f,), bytes),
        data@ == bytes@,
        call_ensures(MidiReader::parse, (data,), r),
    ensures
        r matches Ok(g) && g@ == read_back(f@),
{
    reading_gives_back_what_was_written(f@);
}

/// A retrograde phrase is the phrase with every note turned round: it begins as long after
/// the start as it ended before the end of the last bar. The notes come in the order in
/// which they now begin.
pub proof fn retrograde_phrase_is_turned_round(p: Phrase, ticks: u32, r: Phrase)
    requires
        call_ensures(Phrase::duration_ticks, (&p,), ticks),
        call_ensures(Phrase::retrograde, (&p,), r),
    ensures
        same_but_notes(p@, r@),
        exists|turned: Seq<NoteEvent>|
            turned.len() == p@.events.len() && (forall|i: int|
                0 <= i < p@.events.len() ==> is_turned_round(
                    p@.events[i],
                    #[trigger] turned[i],
                    ticks as int,
                )) && #[trigger] turned.to_multiset() == r@.events.to_multiset(),
        forall|i: int, j: int|
            0 <= i < j < r@.events.len() ==> (#[trigger] r@.events[i]).start <= (
            #[trigger] r@.events[j]).start,
{
    retrograde_turns_every_note_round(p@.events, ticks as int);
}

/// Checking a phrase against its own key finds one more thing for one more note exactly
/// where the note's class is none of the key's root plus a step of the key's mode.
pub proof fn only_notes_outside_the_key_are_found(
    p: Phrase,
    q: Phrase,
    ev: NoteEvent,
    key: Scale,
    before: Vec<ValidationWarning>,
    after: Vec<ValidationWarning>,
)
    requires
        p@.key == Some(key),
        q@ == (PhraseView { events: p@.events.push(ev), ..p@ }),
        call_ensures(Phrase::validate_against_scale, (&p,), before),
        call_ensures(Phrase::validate_against_scale, (&q,), after),
    ensures
        lies_in_key(ev, key) ==> after@.len() == before@.len(),
        !lies_in_key(ev, key) ==> after@.len() == before@.len() + 1,
        p@.events.len() == 0 ==> before@.len() == 0,
        forall|i: int| 0 <= i < before@.len() ==> (#[trigger] after@[i])@ == before@[i]@,
{
    warned_exactly_outside_the_key(p@, ev);
    let f = |w: ValidationWarning| w@;
    let (b, a) = (before@.map_values(f), after@.map_values(f));
    assert(b.len() == before@.len() && a.len() == after@.len());
    assert forall|i: int| 0 <= i < before@.len() implies (#[trigger] after@[i])@ == before@[i]@ by {
        assert(b[i] == before@[i]@);
        assert(a[i] == after@[i]@);
        if !lies_in_key(ev, key) {
            assert(a.drop_last()[i] == a[i]);
        }
    }
}

/// A chord's pitches are its root in the octave, raised by the steps of its quality and of
/// its extensions, in ascending order.
pub proof fn chord_pitches_stand_on_the_root(c: Chord, octave: i8, r: Vec<Pitch>, p: Pitch)
    requires
        call_ensures(Chord::pitches, (&c, octave), r),
    ensures
        ({
            let above = p.0 - (60 + 12 * (octave - 4) + c.root.0);
            r@.contains(p) <==> p.0 <= 127 && 0 <= above && (quality_steps(c.quality).contains(
                above as u8,
            ) || exists|i: int|
                0 <= i < c.extensions@.len() && extension_step(#[trigger] c.extensions@[i])
                    == above) && above < 256
        }),
        forall|i: int, j: int|
            0 <= i < j < r@.len() ==> (#[trigger] r@[i]).0 < (#[trigger] r@[j]).0,
{
    chord_stands_on_its_root(c, octave as int, p);
}

/// A phrase's file holds one track, which opens with the phrase's tempo: as many quarters
/// as it has beats per minute last a minute, to within a microsecond a quarter.
pub proof fn file_opens_with_the_tempo(p: Phrase, f: MidiFile)
    requires
        p@.tempo != 0,
        call_ensures(MidiWriter::from_phrase, (&p,), f),
    ensures
        f@.tracks.len() == 1,
        f@.header.ticks_per_quarter == 480,
        f@.tracks[0].events[0].delta == 0,
        micros_of(f@.tracks[0].events[0]) matches Some(m) && m * p@.tempo <= 60_000_000 < (m + 1)
            * p@.tempo,
{
    tempo_lasts_a_minute(p@, p@);
}

/// A phrase's file plays its notes: its track holds for every note a message that begins
/// it at its start and one that ends it when its duration has passed, and no others.
pub proof fn file_plays_the_notes(p: Phrase, f: MidiFile)
    requires
        has_track(p@),
        call_ensures(MidiWriter::from_phrase, (&p,), f),
    ensures
        ({
            let t = f@.tracks[0];
            let a: int = if p@.key is Some {
                3
            } else {
                2
            };
            let n = p@.events.len() as int;
            &&& t.name == Some(p@.label)
            &&& t.events.len() == a + 2 * n + 1
            &&& exists|pairs: Seq<(int, Message<Seq<char>>)>|
                pairs.len() == 2 * n && (forall|i: int|
                    0 <= i < n ==> plays_note(
                        pairs[2 * i],
                        pairs[2 * i + 1],
                        #[trigger] p@.events[i],
                    )) && #[trigger] pairs.to_multiset() == timed_messages(
                    t.events,
                    a,
                    a + 2 * n,
                ).to_multiset()
        }),
{
    track_plays_its_notes(p@);
}

/// A phrase survives being written to a file and read from its bytes.
pub proof fn phrase_is_read_from_its_bytes(
    p: Phrase,
    f: MidiFile,
    bytes: Vec<u8>,
    data: &[u8],
    r: Result<MidiFile, MidiError>,
)
    requires
        faithful_phrase(p@),
        call_ensures(MidiWriter::from_phrase, (&p,), f),
        call_ensures(MidiWriter::to_bytes, (&f,), bytes),
        data@ == bytes@,
        call_ensures(MidiReader::parse, (data,), r),
    ensures
        r matches Ok(g) && g@ == read_back(f@),
{
    phrase_survives_its_file(p@);
}

/// The frame of a tick lies where the tick is heard: within one half of its exact frame
/// and its `2^50`th part.
pub proof fn tick_is_heard_at_its_frame(ticks: u32, tempo: u16, sample_rate: u32, r: u64)
    requires
        call_ensures(ticks_to_frames, (ticks, tempo, sample_rate), r),
    ensures
        is_heard_at(r, 0, ticks as int, tempo, sample_rate),
{
    frame_is_at_its_time(ticks, tempo, sample_rate);
    let (t, s) = (ticks as int, sample_rate as int);
    assert(60 * (t * s) == 60 * t * s) by (nonlinear_arith);
}

/// The timeline of some notes holds for every note a command that begins it at its start
/// and one that ends it when its duration has passed, and no others, in the order of their
/// frames; nothing comes after its end.
pub proof fn timeline_holds_every_note(
    events: Vec<NoteEvent>,
    tempo: u16,
    sample_rate: u32,
    from: u64,
    r: (Vec<TimedCmd>, u64),
)
    requires
        frames_fit(events@, tempo, sample_rate, from),
        call_ensures(build_timeline, (&events, tempo, sample_rate, from), r),
    ensures
        r.0@.len() == 2 * events@.len(),
        forall|i: int, j: int|
            0 <= i < j < r.0@.len() ==> (#[trigger] r.0@[i]).frame <= (#[trigger] r.0@[j]).frame,
        exists|cmds: Seq<TimedCmd>|
            cmds.len() == 2 * events@.len() && (forall|i: int|
                0 <= i < events@.len() ==> sounds_note(
                    cmds[2 * i],
                    cmds[2 * i + 1],
                    #[trigger] events@[i],
                    tempo,
                    sample_rate,
                    from,
                ) && cmds[2 * i + 1].frame <= r.1) && #[trigger] cmds.to_multiset()
                == r.0@.to_multiset(),
        from <= r.1,
{
    timeline_sounds_its_notes(events@, tempo, sample_rate, from);
}

/// A sample of the output comes from the frame and the channel that it stands for: the
/// only channel takes the mean of both, the first of several takes the left one and the
/// others the right one. What lies behind the frames that are rendered is silent.
pub proof fn slot_takes_its_sample(
    samples: usize,
    channels: usize,
    frame: nat,
    channel: nat,
    rendered: usize,
    r: SlotSource,
)
    requires
        channel < channels <= samples,
        frame * channels + channel < samples,
        call_ensures(frames_to_render, (samples, channels), rendered),
        call_ensures(slot_source, (samples, channels, (frame * channels + channel) as usize), r),
    ensures
        frame < rendered && channels == 1 ==> r == (SlotSource::Mean { frame: frame as usize }),
        frame < rendered && channels >= 2 ==> r == (SlotSource::Channel {
            channel: if channel == 0 {
                0
            } else {
                1
            },
            frame: frame as usize,
        }),
        frame >= rendered ==> r == SlotSource::Silence,
        rendered <= 8192 && rendered * channels <= samples,
{
    sample_comes_from_its_frame(samples as nat, channels as nat, frame, channel);
}

/// Quantizing a phrase moves every note to the nearest grid line and its length to the
/// nearest positive number of steps, puts the notes in order of their starts, and changes
/// nothing else.
pub proof fn quantized_phrase_lies_on_the_grid(grid: Duration)
    requires
        grid.0 > 0,
    ensures
        forall|p: &mut Phrase| #[trigger]
            call_ensures(Phrase::quantize, (p, grid), ()) && near_enough((*p)@.events, grid.0 as int)
                ==> is_quantized((*p)@, (*final(p))@, grid.0 as int),
{
    assert forall|p: &mut Phrase| #[trigger]
        call_ensures(Phrase::quantize, (p, grid), ()) && near_enough(
            (*p)@.events,
            grid.0 as int,
        ) implies is_quantized((*p)@, (*final(p))@, grid.0 as int) by {
        quantizing_moves_to_the_nearest_line((*p)@.events, grid.0 as int);
    }
}

/// Whether the line behind every note, and behind every length, can still be counted.
pub open spec fn near_enough(events: Seq<NoteEvent>, g: int) -> bool {
    forall|i: int|
        0 <= i < events.len() ==> (#[trigger] events[i]).start + g / 2 <= u32::MAX
            && events[i].duration + g / 2 <= u32::MAX
}

/// Whether a phrase is another one with its notes moved to the nearest grid lines.
pub open spec fn is_quantized(p: PhraseView, q: PhraseView, g: int) -> bool {
    &&& same_but_notes(p, q)
    &&& exists|moved: Seq<NoteEvent>|
        moved.len() == p.events.len() && (forall|i: int|
            0 <= i < p.events.len() ==> is_nearest_on_grid(p.events[i], #[trigger] moved[i], g))
            && #[trigger] moved.to_multiset() == q.events.to_multiset()
    &&& forall|i: int, j: int|
        0 <= i < j < q.events.len() ==> (#[trigger] q.events[i]).start <= (
        #[trigger] q.events[j]).start
}

/// A text is read as a pitch class only where it is a letter with at most one sign, and the
/// class is the one that letter and sign sound as.
pub proof fn class_is_read_as_it_sounds(text: &str, r: Option<PitchClass>)
    requires
        call_ensures(PitchClass::parse, (text,), r),
    ensures
        r matches Some(c) ==> is_signed_letter(text@) && c.0 == (letter_semitone(text@[0])
            + sign_of(text@)) % 12,
        text@.len() == 1 && is_note_letter(text@[0]) ==> r is Some,
{
    crate::theory::pitch::parsed_class_sounds_as_name(text@);
    if text@.len() == 1 && is_note_letter(text@[0]) {
        crate::theory::pitch::letters_and_signs_are_read(text@[0]);
        assert(text@ == seq![text@[0]]);
    }
}

/// The name of a class is read as the class.
pub proof fn class_name_is_read_back(c: PitchClass, name: &'static str, r: Option<PitchClass>)
    requires
        c.0 < 12,
        call_ensures(PitchClass::name, (&c,), name),
        call_ensures(PitchClass::parse, (name,), r),
    ensures
        r == Some(c),
{
    crate::theory::pitch::class_name_parses_back(c.0 as int);
}

/// A meter is read from its two numbers with a slash between them.
pub proof fn meter_is_read(numerator: u8, denominator: u8, text: &str, r: Option<TimeSignature>)
    requires
        text@ == decimal(numerator as nat) + seq!['/'] + decimal(denominator as nat),
        call_ensures(TimeSignature::parse, (text,), r),
    ensures
        r matches Some(t) && t.numerator == numerator && t.denominator == denominator,
{
    crate::theory::rhythm::meter_reads_back(numerator as nat, denominator as nat);
}

/// A bar of halves, quarters or eighths lasts as many of them as it counts.
pub proof fn bar_lasts_its_units(t: TimeSignature, r: u32)
    requires
        t.denominator == 2 || t.denominator == 4 || t.denominator == 8,
        call_ensures(TimeSignature::ticks_per_bar, (&t,), r),
    ensures
        r * t.denominator == (4 * 480) * t.numerator,
{
    crate::theory::rhythm::bar_counts_its_units(t);
}

/// A duration survives being told in beats.
pub proof fn duration_survives_its_beats(d: Duration, beats: u64, r: Duration)
    requires
        d.0 < u32::MAX,
        call_ensures(Duration::beats, (&d,), beats),
        call_ensures(Duration::from_beats, (beats,), r),
    ensures
        r == d,
{
    crate::theory::rhythm::ticks_survive_beats(d.0);
}

/// A note that is given in beats begins and lasts as durations of these beats do, in the
/// first voice and on the first channel.
pub proof fn note_is_given_in_beats(
    pitch: u8,
    start: u64,
    length: u64,
    velocity: u8,
    a: Duration,
    b: Duration,
    r: NoteEvent,
)
    requires
        call_ensures(NoteEvent::from_beats, (pitch, start, length, velocity), r),
        call_ensures(Duration::from_beats, (start,), a),
        call_ensures(Duration::from_beats, (length,), b),
    ensures
        r.pitch == pitch && r.velocity == velocity,
        r.start == a.0 && r.duration == b.0,
        r.channel == 0 && r.voice == 1 && r.slur_group is None,
{
}

/// A scale is read where its root and its mode are, and has them.
pub proof fn scale_is_read_from_root_and_mode(
    root: &str,
    mode: &str,
    c: Option<PitchClass>,
    m: Option<Mode>,
    r: Option<Scale>,
)
    requires
        call_ensures(PitchClass::parse, (root,), c),
        call_ensures(Mode::parse, (mode,), m),
        call_ensures(Scale::parse, (root, mode), r),
    ensures
        r is Some <==> c is Some && m is Some,
        r matches Some(s) ==> c == Some(s.root) && m == Some(s.mode),
{
    crate::theory::scale::scale_is_root_and_mode(root@, mode@);
}

/// A chord is led to from another one by the voicing whose centre lies nearest to the
/// other's, out of the four octaves about the register.
pub proof fn chord_is_led_to_the_nearest(
    c: Chord,
    prev: Chord,
    register: i8,
    o: i8,
    qs: Vec<Pitch>,
    tried: Vec<Pitch>,
    r: Vec<Pitch>,
)
    requires
        0 <= register <= 5,
        c.root.0 <= 11,
        prev.root.0 <= 11,
        register - 1 <= o <= register + 2,
        call_ensures(Chord::pitches, (&prev, register), qs),
        call_ensures(Chord::pitches, (&c, o), tried),
        call_ensures(Chord::voice_lead_from, (&c, &prev, register), r),
    ensures
        0 < r@.len() == tried@.len(),
        centre_gap(r@, qs@) <= centre_gap(tried@, qs@),
{
    voice_leading_is_nearest(c, prev, register as int, o as int);
}

/// Escaping a text writes the five characters of markup as entities and nothing else.
pub proof fn escaping_spares_the_rest(a: &str, b: &str, c: char, x: String, y: String)
    requires
        b@ == a@.push(c),
        call_ensures(esc, (a,), x),
        call_ensures(esc, (b,), y),
    ensures
        a@.len() == 0 ==> x@.len() == 0,
        x@.len() <= y@.len() && y@.take(x@.len() as int) == x@,
        ({
            let t = y@.skip(x@.len() as int);
            if c == '&' || c == '<' || c == '>' || c == '"' || c == '\'' {
                t.len() > 2 && t[0] == '&' && t.last() == ';' && entity_char(
                    t.subrange(1, t.len() - 1),
                ) == c
            } else {
                t == seq![c]
            }
        }),
{
    escaped_text_reads_back(a@, c);
    let t = y@.skip(x@.len() as int);
    assert(a@.push(c) == b@);
    assert(y@ == x@ + escaped_char(c));
    assert(t == escaped_char(c));
    assert(y@.take(x@.len() as int) == x@);
    if a@.len() == 0 {
        assert(a@ == Seq::<char>::empty());
    }
}

/// A note value lasts the ticks that it is written for, from the whole note down to the
/// sixteenth; other lengths are written as quarters.
pub proof fn written_value_lasts_its_ticks(ticks: u32, r: &'static str)
    requires
        call_ensures(ticks_to_type, (ticks,), r),
    ensures
        named_ticks(r@) == (if ticks == 1920 || ticks == 960 || ticks == 480 || ticks == 240
            || ticks == 120 {
            ticks as int
        } else {
            480
        }),
{
    note_value_lasts_its_ticks(ticks);
}

/// A score holds the title, the composer and the phrase's name as text, and the measures
/// of the phrase's bars.
pub proof fn score_holds_what_it_was_given(p: Phrase, title: &str, composer: &str, r: String)
    requires
        call_ensures(MusicXmlRenderer::from_phrase, (&p, title, composer), r),
    ensures
        exists|a: Seq<char>, b: Seq<char>, c: Seq<char>, d: Seq<char>, e: Seq<char>|
            r@ == #[trigger] (a + "<work-title>"@ + escaped(title@) + "</work-title>"@)
                + #[trigger] (b + "<creator type=\"composer\">"@ + escaped(composer@)
                + "</creator>"@) + #[trigger] (c + "<part-name>"@ + escaped(p@.label)
                + "</part-name>"@) + #[trigger] (d + measures_text(
                p@,
                phrase_segments(p@),
                p@.bars as nat,
            )) + #[trigger] (e + "</score-partwise>\n"@),
{
    score_holds_names_and_measures(p@, title@, composer@);
}

/// A phrase is exported where its notes end in time: to a file where its tempo is not zero,
/// and to a score where its meter has a beat.
pub proof fn ordinary_phrases_are_taken(p: Phrase, midi: bool, score: bool)
    requires
        p@.tempo > 0,
        p@.time_sig.numerator > 0,
        forall|i: int|
            0 <= i < p@.events.len() ==> (#[trigger] p@.events[i]).start + p@.events[i].duration
                < 0x1000_0000,
        call_ensures(MidiWriter::takes, (&p,), midi),
        call_ensures(MusicXmlRenderer::takes, (&p,), score),
    ensures
        midi,
        score,
{
    crate::midi::roundtrip::ordinary_phrases_can_be_written(p@);
    crate::musicxml::segments::ordinary_phrases_can_be_cut(p@);
}

/// A length is read back as it was written, and takes up to four bytes of seven bits each.
pub proof fn written_length_is_read(n: u32)
    requires
        n < 0x1000_0000,
    ensures
        forall|out: &mut Vec<u8>| #[trigger]
            call_ensures(MidiWriter::write_var_len, (out, n), ()) ==> {
                let (a, b) = ((*out)@, (*final(out))@);
                let t = b.skip(a.len() as int);
                &&& a.len() < b.len() <= a.len() + 4
                &&& b.take(a.len() as int) == a
                &&& groups_value(t) == n
                &&& t.last() < 128
                &&& forall|i: int| 0 <= i < t.len() - 1 ==> (#[trigger] t[i]) >= 128
            },
{
    assert forall|out: &mut Vec<u8>| #[trigger]
        call_ensures(MidiWriter::write_var_len, (out, n), ()) implies {
        let (a, b) = ((*out)@, (*final(out))@);
        let t = b.skip(a.len() as int);
        &&& a.len() < b.len() <= a.len() + 4
        &&& b.take(a.len() as int) == a
        &&& groups_value(t) == n
        &&& t.last() < 128
        &&& forall|i: int| 0 <= i < t.len() - 1 ==> (#[trigger] t[i]) >= 128
    } by {
        let (a, b) = ((*out)@, (*final(out))@);
        length_stands_in_groups(n as nat);
        length_reads_back(n as nat);
        assert(b.skip(a.len() as int) == var_len_bytes(n as nat));
        assert(b.take(a.len() as int) == a);
    }
}

/// The interval between two numbers is their difference, as far as a signed byte tells it.
pub proof fn interval_is_a_difference(p: Pitch, q: Pitch, i: Interval)
    requires
        call_ensures(Pitch::interval_to, (&p, q), i),
    ensures
        (i.0 - (q.0 - p.0)) % 256 == 0,
{
}

/// In every register a chord is led to in one of the four octaves about it, and no other of
/// them lies less far from the chord before; behind a chord without pitches it stands in
/// the register itself.
pub proof fn chord_is_led_to_in_every_register(
    c: Chord,
    prev: Chord,
    register: i8,
    o: i8,
    qs: Vec<Pitch>,
    tried: Vec<Pitch>,
    there: Vec<Pitch>,
    r: Vec<Pitch>,
)
    requires
        register - 1 <= o <= register + 2,
        call_ensures(Chord::pitches, (&prev, register), qs),
        call_ensures(Chord::pitches, (&c, o), tried),
        call_ensures(Chord::pitches, (&c, register), there),
        call_ensures(Chord::voice_lead_from, (&c, &prev, register), r),
    ensures
        qs@.len() > 0 ==> centre_distance(r@, qs@) <= centre_distance(tried@, qs@),
        qs@.len() == 0 ==> r@ == there@,
{
    if qs@.len() > 0 {
        least_distance_is_chosen(c, prev, register as int, o as int);
    }
}

/// The file of several phrases holds the track of each one's own file behind the track of
/// the tempo.
pub proof fn phrases_keep_their_tracks(
    phrases: &[Phrase],
    f: MidiFile,
    i: int,
    p: Phrase,
    g: MidiFile,
)
    requires
        0 <= i < phrases@.len(),
        p@ == phrases@[i]@,
        call_ensures(MidiWriter::from_phrases, (phrases,), f),
        call_ensures(MidiWriter::from_phrase, (&p,), g),
    ensures
        f@.tracks.len() == phrases@.len() + 1,
        f@.tracks[i + 1] == g@.tracks[0],
        f@.header.ticks_per_quarter == 480,
{
}

/// Bytes that can be read are read alike by both ways of reading.
pub proof fn checked_reading_is_reading(
    data: &[u8],
    r: Result<MidiFile, MidiError>,
    c: Option<Result<MidiFile, MidiError>>,
)
    requires
        read_file(data@) !is ShortPayload,
        call_ensures(MidiReader::parse, (data,), r),
        call_ensures(MidiReader::checked_parse, (data,), c),
    ensures
        c is Some,
        r is Ok <==> c->Some_0 is Ok,
        r matches Ok(f) ==> c->Some_0->Ok_0@ == f@,
        r matches Err(e) ==> c->Some_0->Err_0 == e,
{
}

} // verus!
