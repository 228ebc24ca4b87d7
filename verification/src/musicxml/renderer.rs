//! Rendering a phrase as a MusicXML score.
use crate::musicxml::segments::{
    bar_end, bar_end_follows, build_segments, can_be_cut, phrase_segments, Segment,
};
use crate::text::{chars_of, decimal, push_decimal, push_signed, signed_decimal};
use crate::theory::phrase::{LyricSyllable, Phrase, PhraseView, SyllableView};
use crate::theory::rhythm::bar_ticks;
use crate::theory::pitch::letter_semitone;
use crate::theory::scale::{mode_steps, Mode, Scale};
use vstd::prelude::*;
use vstd::string::*;

verus! {

/// A character as it stands in XML text.
pub open spec fn escaped_char(c: char) -> Seq<char> {
    if c == '&' {
        "&amp;"@
    } else if c == '<' {
        "&lt;"@
    } else if c == '>' {
        "&gt;"@
    } else if c == '"' {
        "&quot;"@
    } else if c == '\'' {
        "&apos;"@
    } else {
        seq![c]
    }
}

/// A text as it stands in XML.
pub open spec fn escaped(s: Seq<char>) -> Seq<char>
    decreases s.len(),
{
    if s.len() == 0 {
        Seq::empty()
    } else {
        escaped(s.drop_last()) + escaped_char(s.last())
    }
}

/// The letter of a pitch.
pub open spec fn step_of(midi: u8) -> Seq<char> {
    let c = midi % 12;
    if c <= 1 {
        "C"@
    } else if c <= 3 {
        "D"@
    } else if c == 4 {
        "E"@
    } else if c <= 6 {
        "F"@
    } else if c <= 8 {
        "G"@
    } else if c <= 10 {
        "A"@
    } else {
        "B"@
    }
}

/// Whether a pitch is a raised letter.
pub open spec fn is_raised(midi: u8) -> bool {
    let c = midi % 12;
    c == 1 || c == 3 || c == 6 || c == 8 || c == 10
}

/// The octave of a pitch.
pub open spec fn score_octave(midi: u8) -> int {
    midi as int / 12 - 1
}

/// The name of a note value; lengths without one count as quarters.
pub open spec fn type_of(ticks: u32) -> Seq<char> {
    if ticks == 1920 {
        "whole"@
    } else if ticks == 960 {
        "half"@
    } else if ticks == 480 {
        "quarter"@
    } else if ticks == 240 {
        "eighth"@
    } else if ticks == 120 {
        "16th"@
    } else {
        "quarter"@
    }
}

/// The place of a key on the circle of fifths, by its root alone.
pub open spec fn fifths_of(root: u8) -> int {
    if root == 2 {
        2
    } else if root == 4 {
        4
    } else if root == 5 {
        -1
    } else if root == 7 {
        1
    } else if root == 9 {
        3
    } else if root == 11 {
        5
    } else if root == 1 {
        -5
    } else if root == 3 {
        -3
    } else if root == 6 {
        -6
    } else if root == 8 {
        -4
    } else if root == 10 {
        -2
    } else {
        0
    }
}

/// Whether a mode is written as major.
pub open spec fn is_major(m: Mode) -> bool {
    m == Mode::Major || m == Mode::Lydian || m == Mode::Mixolydian
}

/// The key element.
pub open spec fn key_text(s: Scale) -> Seq<char> {
    "        <key><fifths>"@ + signed_decimal(fifths_of(s.root.0)) + "</fifths><mode>"@ + (
    if is_major(s.mode) {
        "major"@
    } else {
        "minor"@
    }) + "</mode></key>\n"@
}

/// A rest of some ticks in a voice.
pub open spec fn rest_text(ticks: u32, voice: u8) -> Seq<char> {
    "      <note><rest/><duration>"@ + decimal(ticks as nat) + "</duration><voice>"@ + decimal(
        voice as nat,
    ) + "</voice><type>"@ + type_of(ticks) + "</type></note>\n"@
}

/// Whether a syllable is sung: it belongs to a word and has text.
pub open spec fn is_sung(s: SyllableView) -> bool {
    s.word_index >= 0 && s.text.len() > 0
}

/// Where the `i`th syllable stands in its word, by the words of its neighbours.
pub open spec fn syllabic_of(syls: Seq<SyllableView>, i: int) -> Seq<char> {
    let w = syls[i].word_index;
    let continues = i > 0 && syls[i - 1].word_index == w;
    let goes_on = i + 1 < syls.len() && syls[i + 1].word_index == w;
    if !continues && !goes_on {
        "single"@
    } else if !continues {
        "begin"@
    } else if goes_on {
        "middle"@
    } else {
        "end"@
    }
}

/// The place of the last sung syllable among the first `n` that belongs to a
/// note.
pub open spec fn syllable_for(syls: Seq<SyllableView>, n: nat, note: int) -> Option<int>
    decreases n,
{
    if n == 0 {
        None
    } else {
        let i = n - 1;
        if is_sung(syls[i]) && syls[i].note_id == note {
            Some(i)
        } else {
            syllable_for(syls, i as nat, note)
        }
    }
}

/// The syllables of a phrase's first line of lyrics.
pub open spec fn first_line(p: PhraseView) -> Seq<SyllableView> {
    if p.lyrics.len() > 0 {
        p.lyrics[0].syllables
    } else {
        Seq::empty()
    }
}

/// The lyric element of a note, or nothing.
pub open spec fn lyric_text(syls: Seq<SyllableView>, note: int) -> Seq<char> {
    match syllable_for(syls, syls.len(), note) {
        Some(i) => "        <lyric number=\"1\">\n"@ + "          <syllabic>"@ + syllabic_of(syls, i)
            + "</syllabic>\n"@ + "          <text>"@ + escaped(syls[i].text) + "</text>\n"@
            + "        </lyric>\n"@,
        None => ""@,
    }
}

/// A text where a condition holds, and nothing elsewhere.
pub open spec fn given(holds: bool, text: Seq<char>) -> Seq<char> {
    if holds {
        text
    } else {
        ""@
    }
}

/// The notations of a note: ties and slurs.
pub open spec fn notations_text(seg: Segment) -> Seq<char> {
    if seg.tie_start || seg.tie_stop || seg.slur_start || seg.slur_stop {
        "        <notations>\n"@ + given(seg.tie_stop, "          <tied type=\"stop\"/>\n"@) + given(
            seg.tie_start,
            "          <tied type=\"start\"/>\n"@,
        ) + given(seg.slur_start, "          <slur type=\"start\" number=\"1\"/>\n"@) + given(
            seg.slur_stop,
            "          <slur type=\"stop\" number=\"1\"/>\n"@,
        ) + "        </notations>\n"@
    } else {
        ""@
    }
}

/// The note element of a segment. Only a note's first piece carries its lyric.
pub open spec fn note_text(seg: Segment, syls: Seq<SyllableView>) -> Seq<char> {
    "      <note>\n        <pitch>\n"@ + "          <step>"@ + step_of(seg.pitch) + "</step>\n"@
        + given(is_raised(seg.pitch), "          <alter>1</alter>\n"@) + "          <octave>"@
        + signed_decimal(score_octave(seg.pitch)) + "</octave>\n        </pitch>\n"@ + given(
        seg.tie_stop,
        "        <tie type=\"stop\"/>\n"@,
    ) + given(seg.tie_start, "        <tie type=\"start\"/>\n"@) + "        <duration>"@ + decimal(
        seg.duration as nat,
    ) + "</duration>\n"@ + "        <voice>"@ + decimal(seg.voice as nat) + "</voice>\n"@
        + "        <type>"@ + type_of(seg.duration) + "</type>\n"@ + notations_text(seg) + (
    if seg.tie_stop {
        ""@
    } else {
        lyric_text(syls, seg.parent_idx as int)
    }) + "      </note>\n"@
}

/// Whether a segment starts in the bar from `bs` to `be`.
pub open spec fn in_bar(seg: Segment, bs: int, be: int) -> bool {
    bs <= seg.start < be
}

/// The segments of a voice that start in a bar, in their order.
pub open spec fn bar_line(segs: Seq<Segment>, bs: int, be: int, voice: int) -> Seq<Segment>
    decreases segs.len(),
{
    if segs.len() == 0 {
        Seq::empty()
    } else {
        let rest = bar_line(segs.drop_last(), bs, be, voice);
        if in_bar(segs.last(), bs, be) && segs.last().voice == voice {
            rest.push(segs.last())
        } else {
            rest
        }
    }
}

/// Where the row of segments ends: after its last, or at the bar's start.
pub open spec fn line_end(line: Seq<Segment>, bs: int) -> int {
    if line.len() == 0 {
        bs
    } else {
        line.last().start + line.last().duration
    }
}

/// The notes of a voice in a bar, with rests in the gaps before them.
pub open spec fn line_text(line: Seq<Segment>, bs: int, voice: u8, syls: Seq<SyllableView>) -> Seq<
    char,
>
    decreases line.len(),
{
    if line.len() == 0 {
        ""@
    } else {
        let seg = line.last();
        let cur = line_end(line.drop_last(), bs);
        line_text(line.drop_last(), bs, voice, syls) + (if seg.start > cur {
            rest_text((seg.start - cur) as u32, voice)
        } else {
            ""@
        }) + note_text(seg, syls)
    }
}

/// The notes of a voice in a bar, filled with a rest to the bar's end.
pub open spec fn voice_text(
    line: Seq<Segment>,
    bs: int,
    be: int,
    voice: u8,
    syls: Seq<SyllableView>,
) -> Seq<char> {
    line_text(line, bs, voice, syls) + (if line_end(line, bs) < be {
        rest_text((be - line_end(line, bs)) as u32, voice)
    } else {
        ""@
    })
}

/// Whether a voice from `voice` on has a segment in the bar.
pub open spec fn has_voice_from(segs: Seq<Segment>, bs: int, be: int, voice: int) -> bool {
    exists|i: int|
        0 <= i < segs.len() && in_bar(#[trigger] segs[i], bs, be) && segs[i].voice >= voice
}

/// The step back to the bar's start, between one voice and the next.
pub open spec fn backup_text(ticks: int) -> Seq<char> {
    "      <backup><duration>"@ + decimal(ticks as nat) + "</duration></backup>\n"@
}

/// The voices of a bar below `voice`, in order, each but the bar's last followed
/// by a step back.
pub open spec fn voices_text(
    segs: Seq<Segment>,
    bs: int,
    be: int,
    voice: nat,
    syls: Seq<SyllableView>,
) -> Seq<char>
    decreases voice,
{
    if voice == 0 {
        ""@
    } else {
        let v = (voice - 1) as nat;
        let line = bar_line(segs, bs, be, v as int);
        let before = voices_text(segs, bs, be, v, syls);
        if line.len() == 0 {
            before
        } else {
            before + voice_text(line, bs, be, v as u8, syls) + (if has_voice_from(
                segs,
                bs,
                be,
                voice as int,
            ) {
                backup_text(be - bs)
            } else {
                ""@
            })
        }
    }
}

/// The contents of a bar: its voices, or a rest where it is empty.
pub open spec fn bar_text(segs: Seq<Segment>, bs: int, be: int, syls: Seq<SyllableView>) -> Seq<
    char,
> {
    if has_voice_from(segs, bs, be, 0) {
        voices_text(segs, bs, be, 256, syls)
    } else {
        "      <note><rest measure=\"yes\"/><duration>1920</duration><type>whole</type></note>\n"@
    }
}

/// The attributes and the tempo at the head of the first bar.
pub open spec fn attributes_text(p: PhraseView) -> Seq<char> {
    "      <attributes>\n        <divisions>480</divisions>\n"@ + (match p.key {
        Some(s) => key_text(s),
        None => ""@,
    }) + "        <time><beats>"@ + decimal(p.time_sig.numerator as nat) + "</beats><beat-type>"@
        + decimal(p.time_sig.denominator as nat) + "</beat-type></time>\n"@
        + "        <clef><sign>G</sign><line>2</line></clef>\n      </attributes>\n"@
        + "      <direction placement=\"above\"><direction-type><metronome><beat-unit>quarter</beat-unit><per-minute>"@
        + decimal(p.tempo as nat) + "</per-minute></metronome></direction-type><sound tempo=\""@
        + decimal(p.tempo as nat) + "\"/></direction>\n"@
}

/// The measure element of a bar, counted from zero.
pub open spec fn measure_text(p: PhraseView, segs: Seq<Segment>, bar: nat) -> Seq<char> {
    let tpb = bar_ticks(p.time_sig);
    "    <measure number=\""@ + decimal(bar + 1) + "\">\n"@ + (if bar == 0 {
        attributes_text(p)
    } else {
        ""@
    }) + bar_text(segs, bar * tpb, (bar + 1) * tpb, first_line(p)) + "    </measure>\n"@
}

/// The measures of the first `n` bars.
pub open spec fn measures_text(p: PhraseView, segs: Seq<Segment>, n: nat) -> Seq<char>
    decreases n,
{
    if n == 0 {
        ""@
    } else {
        measures_text(p, segs, (n - 1) as nat) + measure_text(p, segs, (n - 1) as nat)
    }
}

/// The score of a phrase.
pub open spec fn score_text(p: PhraseView, title: Seq<char>, composer: Seq<char>) -> Seq<char> {
    "<?xml version=\"1.0\" encoding=\"UTF-8\"?>\n"@
        + "<!DOCTYPE score-partwise PUBLIC \"-//Recordare//DTD MusicXML 4.0 Partwise//EN\" \"http://www.musicxml.org/dtds/partwise.dtd\">\n"@
        + "<score-partwise version=\"4.0\">\n"@ + "  <work><work-title>"@ + escaped(title)
        + "</work-title></work>\n"@ + "  <identification><creator type=\"composer\">"@ + escaped(
        composer,
    ) + "</creator></identification>\n"@ + "  <part-list>\n    <score-part id=\"P1\">\n"@
        + "      <part-name>"@ + escaped(p.label) + "</part-name>\n"@
        + "    </score-part>\n  </part-list>\n  <part id=\"P1\">\n"@ + measures_text(
        p,
        phrase_segments(p),
        p.bars as nat,
    ) + "  </part>\n</score-partwise>\n"@
}

/// The contents of some syllables.
pub open spec fn syllables_view(s: Seq<LyricSyllable>) -> Seq<SyllableView> {
    s.map_values(|s: LyricSyllable| s@)
}

/// Writes a text as it stands in XML.
pub fn esc(s: &str) -> (r: String)
    ensures
        r@ == escaped(s@),
{
    let v = chars_of(s);
    let mut out = String::new();
    assert(v@.take(0) == Seq::<char>::empty());
    for i in 0..v.len()
        invariant
            out@ == escaped(v@.take(i as int)),
    {
        let c = v[i];
        assert(v@.take(i + 1).drop_last() == v@.take(i as int));
        let ghost before = out@;
        if c == '&' {
            out.append("&amp;");
        } else if c == '<' {
            out.append("&lt;");
        } else if c == '>' {
            out.append("&gt;");
        } else if c == '"' {
            out.append("&quot;");
        } else if c == '\'' {
            out.append("&apos;");
        } else {
            out.push(c);
            assert(out@ == before + seq![c]);
        }
    }
    assert(v@.take(v@.len() as int) == v@);
    out
}

/// The letter, the octave and the alteration of a pitch.
pub fn midi_to_step(midi: u8) -> (r: (&'static str, i8, i8))
    ensures
        r.0@ == step_of(midi),
        r.1 as int == score_octave(midi),
        r.2 == (if is_raised(midi) {
            1i8
        } else {
            0i8
        }),
        r.0@.len() == 1,
        letter_semitone(r.0@[0]) + r.2 + 12 * (r.1 + 1) == midi,
{
    let oct: i8 = (midi / 12) as i8 - 1;
    proof {
        written_pitch_sounds_as_its_number(midi, midi);
    }
    match midi % 12 {
        0 => ("C", oct, 0),
        1 => ("C", oct, 1),
        2 => ("D", oct, 0),
        3 => ("D", oct, 1),
        4 => ("E", oct, 0),
        5 => ("F", oct, 0),
        6 => ("F", oct, 1),
        7 => ("G", oct, 0),
        8 => ("G", oct, 1),
        9 => ("A", oct, 0),
        10 => ("A", oct, 1),
        _ => ("B", oct, 0),
    }
}

/// The name of a note value.
pub fn ticks_to_type(ticks: u32) -> (r: &'static str)
    ensures
        r@ == type_of(ticks),
{
    match ticks {
        1920 => "whole",
        960 => "half",
        480 => "quarter",
        240 => "eighth",
        120 => "16th",
        _ => "quarter",
    }
}

/// A text where a condition holds.
fn given_str(holds: bool, text: &'static str) -> (r: &'static str)
    ensures
        r@ == given(holds, text@),
{
    if holds {
        text
    } else {
        ""
    }
}

/// Where a syllable stands in its word.
fn syllabic(syls: &Vec<LyricSyllable>, i: usize) -> (r: &'static str)
    requires
        i < syls@.len(),
    ensures
        r@ == syllabic_of(syllables_view(syls@), i as int),
{
    let w: i32 = syls[i].word_index;
    let continues = i > 0 && syls[i - 1].word_index == w;
    let goes_on = syls.len() - i > 1 && syls[i + 1].word_index == w;
    if !continues && !goes_on {
        "single"
    } else if !continues {
        "begin"
    } else if goes_on {
        "middle"
    } else {
        "end"
    }
}

/// The lyric element of a note, or nothing.
fn lyric(syls: &Vec<LyricSyllable>, note: usize) -> (r: String)
    ensures
        r@ == lyric_text(syllables_view(syls@), note as int),
{
    let ghost model = syllables_view(syls@);
    let mut n: usize = syls.len();
    while n > 0
        invariant
            n <= syls@.len(),
            model == syllables_view(syls@),
            syllable_for(model, model.len(), note as int) == syllable_for(
                model,
                n as nat,
                note as int,
            ),
        decreases n,
    {
        let i: usize = n - 1;
        let s = &syls[i];
        assert(model[i as int] == s@);
        if s.word_index >= 0 && !s.text.as_str().is_empty() && s.note_id as usize == note {
            let mut x = "        <lyric number=\"1\">\n".to_owned();
            x.append("          <syllabic>");
            x.append(syllabic(syls, i));
            x.append("</syllabic>\n");
            x.append("          <text>");
            x.append(esc(s.text.as_str()).as_str());
            x.append("</text>\n");
            x.append("        </lyric>\n");
            return x;
        }
        n = i;
    }
    "".to_owned()
}

/// The notations of a note.
fn notations(seg: &Segment) -> (r: String)
    ensures
        r@ == notations_text(*seg),
{
    if seg.tie_start || seg.tie_stop || seg.slur_start || seg.slur_stop {
        let mut x = "        <notations>\n".to_owned();
        x.append(given_str(seg.tie_stop, "          <tied type=\"stop\"/>\n"));
        x.append(given_str(seg.tie_start, "          <tied type=\"start\"/>\n"));
        x.append(given_str(seg.slur_start, "          <slur type=\"start\" number=\"1\"/>\n"));
        x.append(given_str(seg.slur_stop, "          <slur type=\"stop\" number=\"1\"/>\n"));
        x.append("        </notations>\n");
        x
    } else {
        "".to_owned()
    }
}

/// Whether a voice from `voice` on has a segment in the bar.
fn any_voice_from(segs: &Vec<Segment>, bs: u32, be: u32, voice: u16) -> (r: bool)
    ensures
        r == has_voice_from(segs@, bs as int, be as int, voice as int),
{
    for i in 0..segs.len()
        invariant
            forall|j: int|
                0 <= j < i ==> !(in_bar(#[trigger] segs@[j], bs as int, be as int) && segs@[j].voice
                    >= voice),
    {
        let s = segs[i];
        if bs <= s.start && s.start < be && s.voice as u16 >= voice {
            assert(in_bar(segs@[i as int], bs as int, be as int));
            return true;
        }
    }
    false
}

/// The segments of a voice that start in a bar.
fn line_in_bar(segs: &Vec<Segment>, bs: u32, be: u32, voice: u8) -> (r: Vec<Segment>)
    ensures
        r@ == bar_line(segs@, bs as int, be as int, voice as int),
{
    let mut out: Vec<Segment> = Vec::new();
    assert(segs@.take(0) == Seq::<Segment>::empty());
    for i in 0..segs.len()
        invariant
            out@ == bar_line(segs@.take(i as int), bs as int, be as int, voice as int),
    {
        let s = segs[i];
        assert(segs@.take(i + 1).drop_last() == segs@.take(i as int));
        if bs <= s.start && s.start < be && s.voice == voice {
            out.push(s);
        }
    }
    assert(segs@.take(segs@.len() as int) == segs@);
    out
}

/// Whether every segment ends at a tick that can be counted.
spec fn segments_end(segs: Seq<Segment>) -> bool {
    forall|i: int|
        0 <= i < segs.len() ==> (#[trigger] segs[i]).start + segs[i].duration <= u32::MAX
}

proof fn lemma_bar_line_ends(segs: Seq<Segment>, bs: int, be: int, voice: int)
    requires
        segments_end(segs),
    ensures
        segments_end(bar_line(segs, bs, be, voice)),
    decreases segs.len(),
{
    if segs.len() > 0 {
        assert(segments_end(segs.drop_last())) by {
            assert forall|i: int| 0 <= i < segs.drop_last().len() implies (
            #[trigger] segs.drop_last()[i]).start + segs.drop_last()[i].duration <= u32::MAX by {
                assert(segs.drop_last()[i] == segs[i]);
            }
        }
        lemma_bar_line_ends(segs.drop_last(), bs, be, voice);
        assert(segs.last() == segs[segs.len() - 1]);
    }
}

proof fn lemma_pieces_end(
    ev: crate::theory::rhythm::NoteEvent,
    idx: nat,
    tpb: int,
    s: int,
    starts: bool,
    stops: bool,
)
    requires
        0 <= s,
        ev.start + ev.duration <= u32::MAX,
    ensures
        segments_end(crate::musicxml::segments::pieces(ev, idx, tpb, s, starts, stops)),
    decreases ev.start + ev.duration - s,
{
    if s < ev.start + ev.duration && tpb > 0 {
        crate::musicxml::segments::bar_end_follows(s, tpb);
        let e = crate::musicxml::segments::lesser(
            ev.start + ev.duration,
            crate::musicxml::segments::bar_end(s, tpb),
        );
        lemma_pieces_end(ev, idx, tpb, e, starts, stops);
    }
}

proof fn lemma_all_pieces_end(p: PhraseView, tpb: int, n: nat)
    requires
        crate::theory::phrase::ends_fit(p.events),
        n <= p.events.len(),
    ensures
        segments_end(crate::musicxml::segments::all_pieces(p.events, tpb, n)),
    decreases n,
{
    if n > 0 {
        lemma_all_pieces_end(p, tpb, (n - 1) as nat);
        let i = n - 1;
        assert(p.events[i].start + p.events[i].duration <= u32::MAX);
        lemma_pieces_end(
            p.events[i],
            i as nat,
            tpb,
            p.events[i].start as int,
            crate::musicxml::segments::slur_starts_at(p.events, i),
            crate::musicxml::segments::slur_stops_at(p.events, i),
        );
    }
}

proof fn lemma_phrase_segments_end(p: PhraseView)
    requires
        can_be_cut(p),
    ensures
        segments_end(phrase_segments(p)),
{
    let all = crate::musicxml::segments::all_pieces(
        p.events,
        bar_ticks(p.time_sig),
        p.events.len(),
    );
    lemma_all_pieces_end(p, bar_ticks(p.time_sig), p.events.len());
    crate::sorting::sorted_keeps_items(all);
    assert forall|i: int| 0 <= i < phrase_segments(p).len() implies (
    #[trigger] phrase_segments(p)[i]).start + phrase_segments(p)[i].duration <= u32::MAX by {
        let x = phrase_segments(p)[i];
        assert(all.contains(x));
        let j = choose|j: int| 0 <= j < all.len() && all[j] == x;
        assert(all[j].start + all[j].duration <= u32::MAX);
    }
}

pub struct MusicXmlRenderer;

impl MusicXmlRenderer {
    /// Whether a phrase can be cut into bars.
    pub fn takes(phrase: &Phrase) -> (r: bool)
        ensures
            r == can_be_cut(phrase@),
    {
        let tpb: u64 = phrase.time_sig.ticks_per_bar() as u64;
        for i in 0..phrase.events.len()
            invariant
                tpb as int == bar_ticks(phrase.time_sig),
                tpb <= 244800,
                forall|k: int|
                    0 <= k < i ==> (#[trigger] phrase.events@[k]).start
                        + phrase.events@[k].duration <= u32::MAX,
                forall|k: int|
                    0 <= k < i && (#[trigger] phrase.events@[k]).duration > 0 ==> tpb > 0
                        && bar_end(
                        phrase.events@[k].start + phrase.events@[k].duration - 1,
                        tpb as int,
                    ) <= u32::MAX,
        {
            let ev = phrase.events[i];
            let ghost same = phrase@.events[i as int];
            let end: u64 = ev.start as u64 + ev.duration as u64;
            if end > u32::MAX as u64 {
                assert(phrase@.events[i as int].start + phrase@.events[i as int].duration
                    > u32::MAX);
                return false;
            }
            if ev.duration > 0 {
                if tpb == 0 {
                    assert(same.duration > 0);
                    return false;
                }
                proof {
                    bar_end_follows(end - 1, tpb as int);
                }
                let bar: u64 = (end - 1) / tpb + 1;
                assert(bar * tpb == bar_end(end - 1, tpb as int));
                if bar * tpb > u32::MAX as u64 {
                    assert(same.duration > 0);
                    return false;
                }
            }
        }
        true
    }

    /// The score of a phrase, of one part.
    pub fn from_phrase(phrase: &Phrase, title: &str, composer: &str) -> (r: String)
        requires
            can_be_cut(phrase@),
        ensures
            r@ == score_text(phrase@, title@, composer@),
    {
        let mut x = "<?xml version=\"1.0\" encoding=\"UTF-8\"?>\n".to_owned();
        x.append(
            "<!DOCTYPE score-partwise PUBLIC \"-//Recordare//DTD MusicXML 4.0 Partwise//EN\" \"http://www.musicxml.org/dtds/partwise.dtd\">\n",
        );
        x.append("<score-partwise version=\"4.0\">\n");
        x.append("  <work><work-title>");
        x.append(esc(title).as_str());
        x.append("</work-title></work>\n");
        x.append("  <identification><creator type=\"composer\">");
        x.append(esc(composer).as_str());
        x.append("</creator></identification>\n");
        x.append("  <part-list>\n    <score-part id=\"P1\">\n");
        x.append("      <part-name>");
        x.append(esc(phrase.label.as_str()).as_str());
        x.append("</part-name>\n");
        x.append("    </score-part>\n  </part-list>\n  <part id=\"P1\">\n");
        x.append(Self::write_measures(phrase).as_str());
        x.append("  </part>\n</score-partwise>\n");
        x
    }

    /// The measures of a phrase.
    fn write_measures(phrase: &Phrase) -> (r: String)
        requires
            can_be_cut(phrase@),
        ensures
            r@ == measures_text(phrase@, phrase_segments(phrase@), phrase.bars as nat),
    {
        let tpb = phrase.time_sig.ticks_per_bar();
        let segments = build_segments(phrase);
        proof {
            lemma_phrase_segments_end(phrase@);
        }
        let empty: Vec<LyricSyllable> = Vec::new();
        assert(syllables_view(empty@) == Seq::<SyllableView>::empty());
        let syls: &Vec<LyricSyllable> = if phrase.lyrics.len() > 0 {
            assert(phrase@.lyrics[0] == phrase.lyrics@[0]@);
            &phrase.lyrics[0].syllables
        } else {
            &empty
        };
        assert(syllables_view(syls@) == first_line(phrase@));
        let mut x = "".to_owned();
        let mut bar: u32 = 0;
        while bar < phrase.bars as u32
            invariant
                bar <= phrase.bars,
                tpb as int == bar_ticks(phrase@.time_sig),
                tpb <= 244800,
                segments@ == phrase_segments(phrase@),
                segments_end(segments@),
                syllables_view(syls@) == first_line(phrase@),
                x@ == measures_text(phrase@, segments@, bar as nat),
            decreases phrase.bars - bar,
        {
            x.append(Self::write_measure(phrase, &segments, syls, bar, tpb).as_str());
            bar = bar + 1;
        }
        x
    }

    /// One measure.
    fn write_measure(
        phrase: &Phrase,
        segments: &Vec<Segment>,
        syls: &Vec<LyricSyllable>,
        bar: u32,
        tpb: u32,
    ) -> (r: String)
        requires
            bar < 255,
            tpb as int == bar_ticks(phrase@.time_sig),
            tpb <= 244800,
            segments_end(segments@),
            syllables_view(syls@) == first_line(phrase@),
        ensures
            r@ == measure_text(phrase@, segments@, bar as nat),
    {
        assert(bar * tpb <= 254 * 244800 && (bar + 1) * tpb <= 255 * 244800 && (bar + 1) * tpb
            == bar * tpb + tpb) by (nonlinear_arith)
            requires
                bar < 255,
                tpb <= 244800,
        ;
        let bs: u32 = bar * tpb;
        let be: u32 = (bar + 1) * tpb;
        let mut x = "    <measure number=\"".to_owned();
        push_decimal(&mut x, bar as u64 + 1);
        x.append("\">\n");
        if bar == 0 {
            x.append(Self::attributes(phrase).as_str());
        } else {
            x.append("");
        }
        x.append(Self::write_bar(segments, syls, bs, be).as_str());
        x.append("    </measure>\n");
        x
    }

    /// The contents of a bar.
    fn write_bar(segments: &Vec<Segment>, syls: &Vec<LyricSyllable>, bs: u32, be: u32) -> (r:
        String)
        requires
            bs <= be,
            segments_end(segments@),
        ensures
            r@ == bar_text(segments@, bs as int, be as int, syllables_view(syls@)),
    {
        if !any_voice_from(segments, bs, be, 0) {
            return "      <note><rest measure=\"yes\"/><duration>1920</duration><type>whole</type></note>\n".to_owned();
        }
        let mut x = "".to_owned();
        let mut voice: u16 = 0;
        while voice < 256
            invariant
                voice <= 256,
                bs <= be,
                segments_end(segments@),
                x@ == voices_text(
                    segments@,
                    bs as int,
                    be as int,
                    voice as nat,
                    syllables_view(syls@),
                ),
            decreases 256 - voice,
        {
            let line = line_in_bar(segments, bs, be, voice as u8);
            proof {
                lemma_bar_line_ends(segments@, bs as int, be as int, voice as int);
            }
            if line.len() > 0 {
                x.append(Self::write_voice(&line, syls, bs, be, voice as u8).as_str());
                if any_voice_from(segments, bs, be, voice + 1) {
                    x.append(Self::backup(be - bs).as_str());
                } else {
                    x.append("");
                }
            }
            voice = voice + 1;
        }
        x
    }

    fn backup(ticks: u32) -> (r: String)
        ensures
            r@ == backup_text(ticks as int),
    {
        let mut x = "      <backup><duration>".to_owned();
        push_decimal(&mut x, ticks as u64);
        x.append("</duration></backup>\n");
        x
    }

    /// The notes of a voice in a bar, filled with a rest to the bar's end.
    fn write_voice(
        line: &Vec<Segment>,
        syls: &Vec<LyricSyllable>,
        bs: u32,
        be: u32,
        voice: u8,
    ) -> (r: String)
        requires
            segments_end(line@),
        ensures
            r@ == voice_text(line@, bs as int, be as int, voice, syllables_view(syls@)),
    {
        let mut x = "".to_owned();
        let mut cur: u32 = bs;
        assert(line@.take(0) == Seq::<Segment>::empty());
        for i in 0..line.len()
            invariant
                segments_end(line@),
                cur as int == line_end(line@.take(i as int), bs as int),
                x@ == line_text(line@.take(i as int), bs as int, voice, syllables_view(syls@)),
        {
            let seg = line[i];
            assert(line@.take(i + 1).drop_last() == line@.take(i as int));
            assert(line@.take(i + 1).last() == seg);
            if seg.start > cur {
                x.append(Self::write_rest(seg.start - cur, voice).as_str());
            } else {
                x.append("");
            }
            x.append(Self::write_note(&seg, syls).as_str());
            assert(line@[i as int].start + line@[i as int].duration <= u32::MAX);
            cur = seg.start + seg.duration;
        }
        assert(line@.take(line@.len() as int) == line@);
        if cur < be {
            x.append(Self::write_rest(be - cur, voice).as_str());
        } else {
            x.append("");
        }
        x
    }

    /// The attributes and the tempo.
    fn attributes(phrase: &Phrase) -> (r: String)
        ensures
            r@ == attributes_text(phrase@),
    {
        let mut x = "      <attributes>\n        <divisions>480</divisions>\n".to_owned();
        match &phrase.key {
            Some(s) => {
                x.append(Self::key_xml(s).as_str());
            },
            None => {
                x.append("");
            },
        }
        x.append("        <time><beats>");
        push_decimal(&mut x, phrase.time_sig.numerator as u64);
        x.append("</beats><beat-type>");
        push_decimal(&mut x, phrase.time_sig.denominator as u64);
        x.append("</beat-type></time>\n");
        x.append("        <clef><sign>G</sign><line>2</line></clef>\n      </attributes>\n");
        x.append(
            "      <direction placement=\"above\"><direction-type><metronome><beat-unit>quarter</beat-unit><per-minute>",
        );
        push_decimal(&mut x, phrase.tempo as u64);
        x.append("</per-minute></metronome></direction-type><sound tempo=\"");
        push_decimal(&mut x, phrase.tempo as u64);
        x.append("\"/></direction>\n");
        x
    }

    fn key_xml(scale: &Scale) -> (r: String)
        ensures
            r@ == key_text(*scale),
    {
        let fifths: i64 = match scale.root.0 {
            0 => 0,
            2 => 2,
            4 => 4,
            5 => -1,
            7 => 1,
            9 => 3,
            11 => 5,
            1 => -5,
            3 => -3,
            6 => -6,
            8 => -4,
            10 => -2,
            _ => 0,
        };
        let mut x = "        <key><fifths>".to_owned();
        push_signed(&mut x, fifths);
        x.append("</fifths><mode>");
        if scale.mode == Mode::Major || scale.mode == Mode::Lydian || scale.mode
            == Mode::Mixolydian {
            x.append("major");
        } else {
            x.append("minor");
        }
        x.append("</mode></key>\n");
        x
    }

    /// The note element of a segment.
    fn write_note(seg: &Segment, syls: &Vec<LyricSyllable>) -> (r: String)
        ensures
            r@ == note_text(*seg, syllables_view(syls@)),
    {
        let (step, oct, alter) = midi_to_step(seg.pitch);
        let mut x = "      <note>\n        <pitch>\n".to_owned();
        x.append("          <step>");
        x.append(step);
        x.append("</step>\n");
        x.append(given_str(alter != 0, "          <alter>1</alter>\n"));
        x.append("          <octave>");
        push_signed(&mut x, oct as i64);
        x.append("</octave>\n        </pitch>\n");
        x.append(given_str(seg.tie_stop, "        <tie type=\"stop\"/>\n"));
        x.append(given_str(seg.tie_start, "        <tie type=\"start\"/>\n"));
        x.append("        <duration>");
        push_decimal(&mut x, seg.duration as u64);
        x.append("</duration>\n");
        x.append("        <voice>");
        push_decimal(&mut x, seg.voice as u64);
        x.append("</voice>\n");
        x.append("        <type>");
        x.append(ticks_to_type(seg.duration));
        x.append("</type>\n");
        x.append(notations(seg).as_str());
        if seg.tie_stop {
            x.append("");
        } else {
            x.append(lyric(syls, seg.parent_idx).as_str());
        }
        x.append("      </note>\n");
        x
    }

    /// A rest.
    fn write_rest(ticks: u32, voice: u8) -> (r: String)
        ensures
            r@ == rest_text(ticks, voice),
    {
        let mut x = "      <note><rest/><duration>".to_owned();
        push_decimal(&mut x, ticks as u64);
        x.append("</duration><voice>");
        push_decimal(&mut x, voice as u64);
        x.append("</voice><type>");
        x.append(ticks_to_type(ticks));
        x.append("</type></note>\n");
        x
    }
}

proof fn lemma_escaped_clean(s: Seq<char>, c: char)
    requires
        c == '<' || c == '>' || c == '"' || c == '\'',
    ensures
        !escaped(s).contains(c),
    decreases s.len(),
{
    if s.len() > 0 {
        lemma_escaped_clean(s.drop_last(), c);
        reveal_strlit("&amp;");
        reveal_strlit("&lt;");
        reveal_strlit("&gt;");
        reveal_strlit("&quot;");
        reveal_strlit("&apos;");
        let a = escaped(s.drop_last());
        let b = escaped_char(s.last());
        if escaped(s).contains(c) {
            let i = choose|i: int| 0 <= i < escaped(s).len() && escaped(s)[i] == c;
            if i < a.len() {
                assert(a[i] == c);
            } else {
                assert(b[i - a.len()] == c);
            }
        }
    }
}

/// Escaped text holds none of the characters that delimit markup.
pub proof fn escaped_text_holds_no_markup(s: Seq<char>)
    ensures
        !escaped(s).contains('<'),
        !escaped(s).contains('>'),
        !escaped(s).contains('"'),
        !escaped(s).contains('\''),
{
    lemma_escaped_clean(s, '<');
    lemma_escaped_clean(s, '>');
    lemma_escaped_clean(s, '"');
    lemma_escaped_clean(s, '\'');
}

/// Padding rests are not sung: no note is given a syllable that belongs to no
/// word or has no text.
pub proof fn padding_is_not_sung(syls: Seq<SyllableView>, n: nat, note: int)
    requires
        n <= syls.len(),
    ensures
        syllable_for(syls, n, note) matches Some(i) ==> 0 <= i < n && is_sung(syls[i])
            && syls[i].note_id == note,
    decreases n,
{
    if n > 0 {
        padding_is_not_sung(syls, (n - 1) as nat, note);
    }
}

/// The ticks that are written for a line: its rests and its notes.
pub open spec fn written_ticks(line: Seq<Segment>, bs: int) -> int
    decreases line.len(),
{
    if line.len() == 0 {
        0
    } else {
        let s = line.last();
        let cur = line_end(line.drop_last(), bs);
        written_ticks(line.drop_last(), bs) + (if s.start > cur {
            s.start - cur
        } else {
            0
        }) + s.duration
    }
}

/// Whether each note of a line starts when the one before it has ended, or later.
pub open spec fn one_at_a_time(line: Seq<Segment>, bs: int) -> bool
    decreases line.len(),
{
    line.len() > 0 ==> one_at_a_time(line.drop_last(), bs) && line.last().start >= line_end(
        line.drop_last(),
        bs,
    )
}

/// A voice whose notes do not overlap fills its bar: with the rest at its end, what
/// is written for it lasts exactly as long as the bar, so that the step back to the
/// next voice meets the bar's start.
pub proof fn voice_fills_its_bar(line: Seq<Segment>, bs: int, be: int)
    requires
        one_at_a_time(line, bs),
        line_end(line, bs) <= be,
    ensures
        written_ticks(line, bs) + (be - line_end(line, bs)) == be - bs,
    decreases line.len(),
{
    if line.len() > 0 {
        voice_fills_its_bar(line.drop_last(), bs, line_end(line.drop_last(), bs));
    }
}

/// A pitch is written as it sounds: the semitones of the letter above C, the alteration
/// and twelve for every octave above the one that opens with number zero come to the
/// pitch's number. So no two pitches are written alike.
pub proof fn written_pitch_sounds_as_its_number(midi: u8, other: u8)
    ensures
        step_of(midi).len() == 1,
        'A' <= step_of(midi)[0] <= 'G',
        letter_semitone(step_of(midi)[0]) + alter_of(midi) + 12 * (score_octave(midi) + 1) == midi,
        alter_of(midi) == 0 || alter_of(midi) == 1,
        step_of(midi) == step_of(other) && alter_of(midi) == alter_of(other) && score_octave(midi)
            == score_octave(other) ==> midi == other,
{
    letter_and_octave_come_to_the_number(midi);
    letter_and_octave_come_to_the_number(other);
    if step_of(midi) == step_of(other) && alter_of(midi) == alter_of(other) && score_octave(midi)
        == score_octave(other) {
        assert(letter_semitone(step_of(midi)[0]) == letter_semitone(step_of(other)[0]));
    }
}

/// The letter, the alteration and the octave of a pitch come to its number.
pub proof fn letter_and_octave_come_to_the_number(midi: u8)
    ensures
        step_of(midi).len() == 1,
        'A' <= step_of(midi)[0] <= 'G',
        letter_semitone(step_of(midi)[0]) + alter_of(midi) + 12 * (score_octave(midi) + 1) == midi,
        alter_of(midi) == 0 || alter_of(midi) == 1,
{
    reveal_strlit("C");
    reveal_strlit("D");
    reveal_strlit("E");
    reveal_strlit("F");
    reveal_strlit("G");
    reveal_strlit("A");
    reveal_strlit("B");
}

/// How far a pitch's letter is raised.
pub open spec fn alter_of(midi: u8) -> int {
    if is_raised(midi) {
        1
    } else {
        0
    }
}

/// A pitch element of MusicXML: a letter, its alteration where it has one, and an octave.
pub open spec fn pitch_element(letter: char, alter: int, octave: int) -> Seq<char> {
    "        <pitch>\n"@ + "          <step>"@ + seq![letter] + "</step>\n"@ + (if alter == 0 {
        ""@
    } else {
        "          <alter>"@ + signed_decimal(alter) + "</alter>\n"@
    }) + "          <octave>"@ + signed_decimal(octave) + "</octave>\n"@ + "        </pitch>\n"@
}

/// The tie elements of MusicXML.
pub open spec fn tie_elements(stop: bool, start: bool) -> Seq<char> {
    (if stop {
        "        <tie type=\"stop\"/>\n"@
    } else {
        ""@
    }) + (if start {
        "        <tie type=\"start\"/>\n"@
    } else {
        ""@
    })
}

/// The elements of MusicXML that say how long a note lasts, and in which voice.
pub open spec fn time_elements(ticks: nat, voice: nat, name: Seq<char>) -> Seq<char> {
    "        <duration>"@ + decimal(ticks) + "</duration>\n"@ + "        <voice>"@ + decimal(voice)
        + "</voice>\n"@ + "        <type>"@ + name + "</type>\n"@
}

/// The ticks of a note value of MusicXML, by its name.
pub open spec fn named_ticks(name: Seq<char>) -> int {
    if name == "whole"@ {
        4int * 480
    } else if name == "half"@ {
        2int * 480
    } else if name == "quarter"@ {
        480
    } else if name == "eighth"@ {
        240
    } else {
        120
    }
}

/// A length is written under the name of the note value that lasts as long; one that no
/// value lasts is written as a quarter.
pub proof fn note_value_lasts_its_ticks(ticks: u32)
    ensures
        ticks == 1920 || ticks == 960 || ticks == 480 || ticks == 240 || ticks == 120
            ==> named_ticks(type_of(ticks)) == ticks,
        !(ticks == 1920 || ticks == 960 || ticks == 480 || ticks == 240 || ticks == 120)
            ==> named_ticks(type_of(ticks)) == 480,
{
    reveal_strlit("whole");
    reveal_strlit("half");
    reveal_strlit("quarter");
    reveal_strlit("eighth");
    reveal_strlit("16th");
    assert("whole"@.len() == 5 && "half"@.len() == 4 && "quarter"@.len() == 7 && "eighth"@.len()
        == 6);
    assert("16th"@[0] != "half"@[0]);
}

proof fn lemma_pitch_element(midi: u8)
    ensures
        "      <note>\n        <pitch>\n"@ + "          <step>"@ + step_of(midi) + "</step>\n"@
            + given(is_raised(midi), "          <alter>1</alter>\n"@) + "          <octave>"@
            + signed_decimal(score_octave(midi)) + "</octave>\n        </pitch>\n"@
            == "      <note>\n"@ + pitch_element(
            step_of(midi)[0],
            alter_of(midi),
            score_octave(midi),
        ),
{
    written_pitch_sounds_as_its_number(midi, midi);
    reveal_strlit("      <note>\n        <pitch>\n");
    reveal_strlit("      <note>\n");
    reveal_strlit("        <pitch>\n");
    reveal_strlit("</octave>\n        </pitch>\n");
    reveal_strlit("</octave>\n");
    reveal_strlit("        </pitch>\n");
    reveal_strlit("          <alter>1</alter>\n");
    reveal_strlit("          <alter>");
    reveal_strlit("</alter>\n");
    reveal_strlit("");
    assert(step_of(midi) == seq![step_of(midi)[0]]);
    assert("      <note>\n        <pitch>\n"@ == "      <note>\n"@ + "        <pitch>\n"@);
    assert("</octave>\n        </pitch>\n"@ == "</octave>\n"@ + "        </pitch>\n"@);
    assert(signed_decimal(1) == seq!['1']);
    assert("          <alter>1</alter>\n"@ == "          <alter>"@ + seq!['1'] + "</alter>\n"@);
    let (a, b, c) = ("      <note>\n"@, "        <pitch>\n"@, "          <step>"@);
    let (d, e) = (step_of(midi), "</step>\n"@);
    let f = given(is_raised(midi), "          <alter>1</alter>\n"@);
    let (g, h) = ("          <octave>"@, signed_decimal(score_octave(midi)));
    let (i, j) = ("</octave>\n"@, "        </pitch>\n"@);
    assert((a + b) + c + d + e + f + g + h + (i + j) == a + (b + c + d + e + f + g + h + i + j));
}

/// The note element of a segment tells the note: a pitch that sounds as the segment's,
/// its ties, its length in ticks with the note value of that length, and its voice.
pub proof fn note_element_tells_the_note(seg: Segment, syls: Seq<SyllableView>)
    ensures
        exists|letter: char, alter: int, octave: int, rest: Seq<char>|
            letter_semitone(letter) + alter + 12 * (octave + 1) == seg.pitch && 'A' <= letter <= 'G'
                && note_text(seg, syls) == "      <note>\n"@ + #[trigger] pitch_element(
                letter,
                alter,
                octave,
            ) + tie_elements(seg.tie_stop, seg.tie_start) + time_elements(
                seg.duration as nat,
                seg.voice as nat,
                type_of(seg.duration),
            ) + #[trigger] note_end(rest),
{
    let midi = seg.pitch;
    written_pitch_sounds_as_its_number(midi, midi);
    lemma_pitch_element(midi);
    let rest = notations_text(seg) + (if seg.tie_stop {
        ""@
    } else {
        lyric_text(syls, seg.parent_idx as int)
    });
    let letter = step_of(midi)[0];
    let (alter, octave) = (alter_of(midi), score_octave(midi));
    let head = "      <note>\n"@ + pitch_element(letter, alter, octave);
    let s = given(seg.tie_stop, "        <tie type=\"stop\"/>\n"@);
    let t = given(seg.tie_start, "        <tie type=\"start\"/>\n"@);
    let (a, b, c, d) = (
        "        <duration>"@,
        decimal(seg.duration as nat),
        "</duration>\n"@,
        "        <voice>"@,
    );
    let (e, f, g, h) = (
        decimal(seg.voice as nat),
        "</voice>\n"@,
        "        <type>"@,
        type_of(seg.duration),
    );
    let (i, j) = ("</type>\n"@, notations_text(seg));
    let k = if seg.tie_stop {
        ""@
    } else {
        lyric_text(syls, seg.parent_idx as int)
    };
    let l = "      </note>\n"@;
    lemma_join(head, s, t);
    let q = head + (s + t);
    lemma_join(q, a, b);
    lemma_join(q, a + b, c);
    lemma_join(q, a + b + c, d);
    lemma_join(q, a + b + c + d, e);
    lemma_join(q, a + b + c + d + e, f);
    lemma_join(q, a + b + c + d + e + f, g);
    lemma_join(q, a + b + c + d + e + f + g, h);
    lemma_join(q, a + b + c + d + e + f + g + h, i);
    let r = q + (a + b + c + d + e + f + g + h + i);
    lemma_join(r, j, k);
    lemma_join(r, j + k, l);
    assert(note_text(seg, syls) == r + note_end(rest));
}

proof fn lemma_join(a: Seq<char>, b: Seq<char>, c: Seq<char>)
    ensures
        (a + b) + c == a + (b + c),
{
    assert((a + b) + c == a + (b + c));
}

/// The end of a note element.
pub open spec fn note_end(rest: Seq<char>) -> Seq<char> {
    rest + "      </note>\n"@
}

/// Keys are counted in fifths from C, sharps above and flats below it: as many fifths
/// above C lies the root. At most six are counted either way.
pub proof fn key_counts_fifths(root: u8)
    requires
        root < 12,
    ensures
        -6 <= fifths_of(root) <= 5,
        7 * fifths_of(root) % 12 == root,
{
}

/// A key is called major exactly where its mode has seven degrees and a major third.
pub proof fn major_keys_have_a_major_third(m: Mode)
    ensures
        is_major(m) <==> mode_steps(m).len() == 7 && mode_steps(m)[2] == 4,
{
}

/// The character that an entity of XML stands for, by its name.
pub open spec fn entity_char(name: Seq<char>) -> char {
    if name == "amp"@ {
        '&'
    } else if name == "lt"@ {
        '<'
    } else if name == "gt"@ {
        '>'
    } else if name == "quot"@ {
        '"'
    } else {
        '\''
    }
}

/// Text in XML reads back: its characters follow one another, each as itself or as the
/// entity that stands for it, and those that delimit markup or open an entity are not
/// written as themselves.
pub proof fn escaped_text_reads_back(s: Seq<char>, c: char)
    ensures
        escaped(Seq::empty()) == Seq::<char>::empty(),
        escaped(s.push(c)) == escaped(s) + escaped_char(c),
        ({
            let t = escaped_char(c);
            if c == '&' || c == '<' || c == '>' || c == '"' || c == '\'' {
                t.len() > 2 && t[0] == '&' && t.last() == ';' && entity_char(
                    t.subrange(1, t.len() - 1),
                ) == c
            } else {
                t == seq![c]
            }
        }),
{
    assert(s.push(c).drop_last() == s);
    reveal_strlit("&amp;");
    reveal_strlit("&lt;");
    reveal_strlit("&gt;");
    reveal_strlit("&quot;");
    reveal_strlit("&apos;");
    reveal_strlit("amp");
    reveal_strlit("lt");
    reveal_strlit("gt");
    reveal_strlit("quot");
    let t = escaped_char(c);
    let n = t.subrange(1, t.len() - 1);
    assert(c == '&' ==> n == "amp"@);
    assert(c == '<' ==> n == "lt"@);
    assert(c == '>' ==> n == "gt"@ && n[0] != "lt"@[0]);
    assert(c == '"' ==> n == "quot"@);
    assert(c == '\'' ==> n.len() == 4 && n[0] == 'a');
    assert("quot"@[0] == 'q');
}

/// A key element tells the key: as many fifths as lie between C and the root, and major
/// or minor by the third of its mode.
pub proof fn key_element_tells_the_key(s: Scale)
    requires
        s.root.0 < 12,
    ensures
        exists|fifths: int|
            -6 <= fifths <= 5 && 7 * fifths % 12 == s.root.0 && key_text(s)
                == "        <key><fifths>"@ + #[trigger] signed_decimal(fifths)
                + "</fifths><mode>"@ + (if mode_steps(s.mode).len() == 7 && mode_steps(s.mode)[2]
                == 4 {
                "major"@
            } else {
                "minor"@
            }) + "</mode></key>\n"@,
{
    key_counts_fifths(s.root.0);
    major_keys_have_a_major_third(s.mode);
    let f = fifths_of(s.root.0);
    assert(signed_decimal(f) == signed_decimal(f));
}

/// The head of the first bar tells the meter and the tempo: 480 ticks to a quarter, the
/// key where there is one, the two numbers of the meter, and the beats per minute, to be
/// read and to be played.
pub proof fn attributes_tell_meter_and_tempo(p: PhraseView)
    ensures
        attributes_text(p) == "      <attributes>\n        <divisions>480</divisions>\n"@ + (
        match p.key {
            Some(s) => key_text(s),
            None => ""@,
        }) + "        <time><beats>"@ + decimal(p.time_sig.numerator as nat)
            + "</beats><beat-type>"@ + decimal(p.time_sig.denominator as nat)
            + "</beat-type></time>\n"@
            + "        <clef><sign>G</sign><line>2</line></clef>\n      </attributes>\n"@
            + "      <direction placement=\"above\"><direction-type><metronome><beat-unit>quarter</beat-unit><per-minute>"@
            + decimal(p.tempo as nat) + "</per-minute></metronome></direction-type><sound tempo=\""@
            + decimal(p.tempo as nat) + "\"/></direction>\n"@,
{
}

/// A bar holds of a voice the pieces that start in it, in their order, and no others.
pub proof fn bar_holds_what_starts_in_it(segs: Seq<Segment>, bs: int, be: int, voice: int)
    ensures
        bar_line(segs, bs, be, voice) == segs.filter(
            |s: Segment| bs <= s.start < be && s.voice == voice,
        ),
    decreases segs.len(),
{
    reveal(Seq::filter);
    if segs.len() > 0 {
        bar_holds_what_starts_in_it(segs.drop_last(), bs, be, voice);
    }
}

/// A rest element of MusicXML.
pub open spec fn rest_element(ticks: nat, voice: nat, name: Seq<char>) -> Seq<char> {
    "      <note><rest/><duration>"@ + decimal(ticks) + "</duration><voice>"@ + decimal(voice)
        + "</voice><type>"@ + name + "</type></note>\n"@
}

/// One more note of a voice is written behind the others, with a rest as long as the gap
/// before it where there is one. At last a rest fills the bar.
pub proof fn gaps_are_written_as_rests(
    line: Seq<Segment>,
    seg: Segment,
    bs: int,
    be: int,
    voice: u8,
    syls: Seq<SyllableView>,
)
    requires
        0 <= bs <= be <= u32::MAX,
        bs <= line_end(line, bs),
    ensures
        line_end(line.push(seg), bs) == seg.start + seg.duration,
        line_end(Seq::empty(), bs) == bs,
        line_text(Seq::empty(), bs, voice, syls) == Seq::<char>::empty(),
        ({
            let gap = seg.start - line_end(line, bs);
            &&& gap > 0 ==> line_text(line.push(seg), bs, voice, syls) == line_text(
                line,
                bs,
                voice,
                syls,
            ) + rest_element(gap as nat, voice as nat, type_of(gap as u32)) + note_text(seg, syls)
            &&& gap <= 0 ==> line_text(line.push(seg), bs, voice, syls) == line_text(
                line,
                bs,
                voice,
                syls,
            ) + note_text(seg, syls)
        }),
        ({
            let gap = be - line_end(line, bs);
            &&& gap > 0 ==> voice_text(line, bs, be, voice, syls) == line_text(
                line,
                bs,
                voice,
                syls,
            ) + rest_element(gap as nat, voice as nat, type_of(gap as u32))
            &&& gap <= 0 ==> voice_text(line, bs, be, voice, syls) == line_text(
                line,
                bs,
                voice,
                syls,
            )
        }),
{
    reveal_strlit("");
    assert(line.push(seg).drop_last() == line);
    let t = line_text(line, bs, voice, syls);
    assert(t + ""@ == t);
}

/// The voices of a bar follow one another from the lowest up, and between two of them
/// stands a step back by the whole bar. A bar without notes is a rest.
pub proof fn voices_follow_with_a_step_back(
    segs: Seq<Segment>,
    bs: int,
    be: int,
    voice: u8,
    syls: Seq<SyllableView>,
)
    requires
        bs <= be,
    ensures
        ({
            let line = segs.filter(|s: Segment| bs <= s.start < be && s.voice == voice);
            let before = voices_text(segs, bs, be, voice as nat, syls);
            let after = voices_text(segs, bs, be, voice as nat + 1, syls);
            let more = exists|i: int|
                0 <= i < segs.len() && bs <= (#[trigger] segs[i]).start < be && segs[i].voice
                    > voice;
            &&& line.len() == 0 ==> after == before
            &&& line.len() > 0 && !more ==> after == before + voice_text(line, bs, be, voice, syls)
            &&& line.len() > 0 && more ==> after == before + voice_text(line, bs, be, voice, syls)
                + ("      <backup><duration>"@ + decimal((be - bs) as nat)
                + "</duration></backup>\n"@)
        }),
        voices_text(segs, bs, be, 0, syls) == Seq::<char>::empty(),
        (forall|i: int| 0 <= i < segs.len() ==> !(bs <= (#[trigger] segs[i]).start < be))
            ==> bar_text(segs, bs, be, syls)
            == "      <note><rest measure=\"yes\"/><duration>1920</duration><type>whole</type></note>\n"@,
        (exists|i: int| 0 <= i < segs.len() && bs <= (#[trigger] segs[i]).start < be) ==> bar_text(
            segs,
            bs,
            be,
            syls,
        ) == voices_text(segs, bs, be, 256, syls),
{
    reveal_strlit("");
    bar_holds_what_starts_in_it(segs, bs, be, voice as int);
    let line = bar_line(segs, bs, be, voice as int);
    let v = voices_text(segs, bs, be, voice as nat, syls) + voice_text(line, bs, be, voice, syls);
    assert(v + ""@ == v);
    if exists|i: int| 0 <= i < segs.len() && bs <= (#[trigger] segs[i]).start < be {
        let i = choose|i: int| 0 <= i < segs.len() && bs <= (#[trigger] segs[i]).start < be;
        assert(in_bar(segs[i], bs, be) && segs[i].voice >= 0);
    }
    if exists|i: int|
        0 <= i < segs.len() && bs <= (#[trigger] segs[i]).start < be && segs[i].voice > voice {
        let i = choose|i: int|
            0 <= i < segs.len() && bs <= (#[trigger] segs[i]).start < be && segs[i].voice > voice;
        assert(in_bar(segs[i], bs, be) && segs[i].voice >= voice + 1);
    }
}

/// The measures of a phrase are as many as its bars, numbered from one, each with what
/// starts between its first tick and the next one's; the first opens with the meter and
/// the tempo.
pub proof fn measures_follow_the_bars(p: PhraseView, segs: Seq<Segment>, bar: nat)
    ensures
        measures_text(p, segs, 0) == Seq::<char>::empty(),
        measures_text(p, segs, bar + 1) == measures_text(p, segs, bar) + (
        "    <measure number=\""@ + decimal(bar + 1) + "\">\n"@ + (if bar == 0 {
            attributes_text(p)
        } else {
            ""@
        }) + bar_text(
            segs,
            bar * bar_ticks(p.time_sig),
            bar * bar_ticks(p.time_sig) + bar_ticks(p.time_sig),
            first_line(p),
        ) + "    </measure>\n"@),
{
    reveal_strlit("");
    let t = bar_ticks(p.time_sig);
    assert((bar + 1) * t == bar * t + t) by (nonlinear_arith);
}

/// A score holds the title, the composer and the phrase's name as text, and the measures
/// of the phrase's bars.
pub proof fn score_holds_names_and_measures(p: PhraseView, title: Seq<char>, composer: Seq<char>)
    ensures
        exists|a: Seq<char>, b: Seq<char>, c: Seq<char>, d: Seq<char>, e: Seq<char>|
            score_text(p, title, composer) == #[trigger] (a + "<work-title>"@ + escaped(title)
                + "</work-title>"@) + #[trigger] (b + "<creator type=\"composer\">"@ + escaped(
                composer,
            ) + "</creator>"@) + #[trigger] (c + "<part-name>"@ + escaped(p.label)
                + "</part-name>"@) + #[trigger] (d + measures_text(
                p,
                phrase_segments(p),
                p.bars as nat,
            )) + #[trigger] (e + "</score-partwise>\n"@),
{
    reveal_strlit("  <work><work-title>");
    reveal_strlit("  <work>");
    reveal_strlit("<work-title>");
    reveal_strlit("</work-title></work>\n");
    reveal_strlit("</work-title>");
    reveal_strlit("</work>\n");
    reveal_strlit("  <identification><creator type=\"composer\">");
    reveal_strlit("  <identification>");
    reveal_strlit("<creator type=\"composer\">");
    reveal_strlit("</creator></identification>\n");
    reveal_strlit("</creator>");
    reveal_strlit("</identification>\n");
    reveal_strlit("      <part-name>");
    reveal_strlit("      ");
    reveal_strlit("<part-name>");
    reveal_strlit("</part-name>\n");
    reveal_strlit("</part-name>");
    reveal_strlit("\n");
    reveal_strlit("  </part>\n</score-partwise>\n");
    reveal_strlit("  </part>\n");
    reveal_strlit("</score-partwise>\n");
    assert("  <work><work-title>"@ == "  <work>"@ + "<work-title>"@);
    assert("</work-title></work>\n"@ == "</work-title>"@ + "</work>\n"@);
    assert("  <identification><creator type=\"composer\">"@ == "  <identification>"@
        + "<creator type=\"composer\">"@);
    assert("</creator></identification>\n"@ == "</creator>"@ + "</identification>\n"@);
    assert("      <part-name>"@ == "      "@ + "<part-name>"@);
    assert("</part-name>\n"@ == "</part-name>"@ + "\n"@);
    assert("  </part>\n</score-partwise>\n"@ == "  </part>\n"@ + "</score-partwise>\n"@);
    let head = "<?xml version=\"1.0\" encoding=\"UTF-8\"?>\n"@
        + "<!DOCTYPE score-partwise PUBLIC \"-//Recordare//DTD MusicXML 4.0 Partwise//EN\" \"http://www.musicxml.org/dtds/partwise.dtd\">\n"@
        + "<score-partwise version=\"4.0\">\n"@;
    let list = "  <part-list>\n    <score-part id=\"P1\">\n"@;
    let parts = "    </score-part>\n  </part-list>\n  <part id=\"P1\">\n"@;
    let measures = measures_text(p, phrase_segments(p), p.bars as nat);
    let a = head + "  <work>"@;
    let b = "</work>\n"@ + "  <identification>"@;
    let c = "</identification>\n"@ + list + "      "@;
    let d = "\n"@ + parts;
    let e = "  </part>\n"@;
    lemma_score(
        head,
        "  <work>"@,
        "<work-title>"@,
        escaped(title),
        "</work-title>"@,
        "</work>\n"@,
        "  <identification>"@,
        "<creator type=\"composer\">"@,
        escaped(composer),
        "</creator>"@,
        "</identification>\n"@,
        list,
        "      "@,
        "<part-name>"@,
        escaped(p.label),
        "</part-name>"@,
        "\n"@,
        parts,
        measures,
        "  </part>\n"@,
        "</score-partwise>\n"@,
    );
}

proof fn lemma_score(
    x0: Seq<char>,
    x1: Seq<char>,
    x2: Seq<char>,
    x3: Seq<char>,
    x4: Seq<char>,
    x5: Seq<char>,
    x6: Seq<char>,
    x7: Seq<char>,
    x8: Seq<char>,
    x9: Seq<char>,
    y0: Seq<char>,
    y1: Seq<char>,
    y2: Seq<char>,
    y3: Seq<char>,
    y4: Seq<char>,
    y5: Seq<char>,
    y6: Seq<char>,
    y7: Seq<char>,
    y8: Seq<char>,
    y9: Seq<char>,
    z0: Seq<char>,
)
    ensures
        x0 + (x1 + x2) + x3 + (x4 + x5) + (x6 + x7) + x8 + (x9 + y0) + y1 + (y2 + y3) + y4 + (y5
            + y6) + y7 + y8 + (y9 + z0) == ((x0 + x1) + x2 + x3 + x4) + ((x5 + x6) + x7 + x8 + x9)
            + ((y0 + y1 + y2) + y3 + y4 + y5) + ((y6 + y7) + y8) + (y9 + z0),
{
    let a = (x0 + x1) + x2 + x3 + x4;
    lemma_join(x0, x1, x2);
    lemma_join(x0 + (x1 + x2) + x3, x4, x5);
    let b = (x5 + x6) + x7 + x8 + x9;
    lemma_join(a + x5, x6, x7);
    lemma_join(a, x5, x6);
    lemma_join(a, x5 + x6, x7);
    lemma_join(a, (x5 + x6) + x7, x8);
    lemma_join(a, (x5 + x6) + x7 + x8, x9);
    lemma_join(a + ((x5 + x6) + x7 + x8), x9, y0);
    let q = a + b;
    let c = (y0 + y1 + y2) + y3 + y4 + y5;
    lemma_join(q, y0, y1);
    lemma_join(q + (y0 + y1), y2, y3);
    lemma_join(q, y0 + y1, y2);
    lemma_join(q, y0 + y1 + y2, y3);
    lemma_join(q, y0 + y1 + y2 + y3, y4);
    lemma_join(q, y0 + y1 + y2 + y3 + y4, y5);
    lemma_join(q + (y0 + y1 + y2 + y3 + y4), y5, y6);
    let r = q + c;
    lemma_join(r, y6, y7);
    lemma_join(r, y6 + y7, y8);
}

/// The syllables of a word are told apart: the first of several begins it, the last ends
/// it, those between stand in its middle, and one alone is single.
pub proof fn syllables_tell_their_place(syls: Seq<SyllableView>, first: int, last: int, i: int)
    requires
        0 <= first <= i <= last < syls.len(),
        forall|k: int| first <= k <= last ==> (#[trigger] syls[k]).word_index == syls[i].word_index,
        first > 0 ==> syls[first - 1].word_index != syls[i].word_index,
        last + 1 < syls.len() ==> syls[last + 1].word_index != syls[i].word_index,
    ensures
        syllabic_of(syls, i) == (if first == last {
            "single"@
        } else if i == first {
            "begin"@
        } else if i == last {
            "end"@
        } else {
            "middle"@
        }),
{
    if i > first {
        assert(syls[i - 1].word_index == syls[i].word_index);
    }
    if i < last {
        assert(syls[i + 1].word_index == syls[i].word_index);
    }
}

/// A note is sung on the last syllable that is its own, belongs to a word and has text;
/// without one it is not sung. The syllable's text is written as text.
pub proof fn note_is_sung_on_its_syllable(syls: Seq<SyllableView>, note: int)
    ensures
        match syllable_for(syls, syls.len(), note) {
            Some(i) => {
                &&& 0 <= i < syls.len()
                &&& syls[i].note_id == note && syls[i].word_index >= 0 && syls[i].text.len() > 0
                &&& forall|k: int|
                    i < k < syls.len() && (#[trigger] syls[k]).note_id == note
                        ==> syls[k].word_index < 0 || syls[k].text.len() == 0
                &&& lyric_text(syls, note) == "        <lyric number=\"1\">\n"@
                    + "          <syllabic>"@ + syllabic_of(syls, i) + "</syllabic>\n"@
                    + "          <text>"@ + escaped(syls[i].text) + "</text>\n"@
                    + "        </lyric>\n"@
            },
            None => {
                &&& forall|k: int|
                    0 <= k < syls.len() && (#[trigger] syls[k]).note_id == note
                        ==> syls[k].word_index < 0 || syls[k].text.len() == 0
                &&& lyric_text(syls, note) == Seq::<char>::empty()
            },
        },
{
    reveal_strlit("");
    lemma_last_syllable(syls, syls.len(), note);
}

proof fn lemma_last_syllable(syls: Seq<SyllableView>, n: nat, note: int)
    requires
        n <= syls.len(),
    ensures
        match syllable_for(syls, n, note) {
            Some(i) => 0 <= i < n && is_sung(syls[i]) && syls[i].note_id == note && forall|k: int|
                i < k < n && (#[trigger] syls[k]).note_id == note ==> !is_sung(syls[k]),
            None => forall|k: int|
                0 <= k < n && (#[trigger] syls[k]).note_id == note ==> !is_sung(syls[k]),
        },
    decreases n,
{
    if n > 0 {
        lemma_last_syllable(syls, (n - 1) as nat, note);
    }
}

/// A note's ties and slurs are written as its notations, those that stop before those
/// that start for ties, and nothing is written where there are none.
pub proof fn notations_tell_ties_and_slurs(seg: Segment)
    ensures
        !seg.tie_start && !seg.tie_stop && !seg.slur_start && !seg.slur_stop ==> notations_text(seg)
            == Seq::<char>::empty(),
        seg.tie_start || seg.tie_stop || seg.slur_start || seg.slur_stop ==> notations_text(seg)
            == "        <notations>\n"@ + (if seg.tie_stop {
            "          <tied type=\"stop\"/>\n"@
        } else {
            ""@
        }) + (if seg.tie_start {
            "          <tied type=\"start\"/>\n"@
        } else {
            ""@
        }) + (if seg.slur_start {
            "          <slur type=\"start\" number=\"1\"/>\n"@
        } else {
            ""@
        }) + (if seg.slur_stop {
            "          <slur type=\"stop\" number=\"1\"/>\n"@
        } else {
            ""@
        }) + "        </notations>\n"@,
{
    reveal_strlit("");
}

/// A score is a document of one part: it opens as a partwise score, lists the part under
/// its number, and closes behind that part's measures.
pub proof fn score_is_a_document_of_one_part(p: PhraseView, title: Seq<char>, composer: Seq<char>)
    ensures
        exists|rest: Seq<char>|
            score_text(p, title, composer) == #[trigger] ("<?xml version=\"1.0\" encoding=\"UTF-8\"?>\n"@
                + "<!DOCTYPE score-partwise PUBLIC \"-//Recordare//DTD MusicXML 4.0 Partwise//EN\" \"http://www.musicxml.org/dtds/partwise.dtd\">\n"@
                + "<score-partwise version=\"4.0\">\n"@ + rest),
        exists|front: Seq<char>|
            score_text(p, title, composer) == #[trigger] (front
                + "  <part-list>\n    <score-part id=\"P1\">\n"@ + "      <part-name>"@ + escaped(
                p.label,
            ) + "</part-name>\n"@ + "    </score-part>\n  </part-list>\n  <part id=\"P1\">\n"@
                + measures_text(p, phrase_segments(p), p.bars as nat)
                + "  </part>\n</score-partwise>\n"@),
{
    let head = "<?xml version=\"1.0\" encoding=\"UTF-8\"?>\n"@
        + "<!DOCTYPE score-partwise PUBLIC \"-//Recordare//DTD MusicXML 4.0 Partwise//EN\" \"http://www.musicxml.org/dtds/partwise.dtd\">\n"@
        + "<score-partwise version=\"4.0\">\n"@;
    let names = head + "  <work><work-title>"@ + escaped(title) + "</work-title></work>\n"@
        + "  <identification><creator type=\"composer\">"@ + escaped(composer)
        + "</creator></identification>\n"@;
    let s = score_text(p, title, composer);
    assert(s == names + "  <part-list>\n    <score-part id=\"P1\">\n"@ + "      <part-name>"@
        + escaped(p.label) + "</part-name>\n"@
        + "    </score-part>\n  </part-list>\n  <part id=\"P1\">\n"@ + measures_text(
        p,
        phrase_segments(p),
        p.bars as nat,
    ) + "  </part>\n</score-partwise>\n"@);
    let rest = s.skip(head.len() as int);
    assert(names.take(head.len() as int) == head);
    assert(s.take(head.len() as int) == head);
    assert(s == head + rest);
}

} // verus!
