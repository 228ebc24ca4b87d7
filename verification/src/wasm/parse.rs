//! Phrases and lyrics from the answers of the composing model.
use crate::text::{
    chars_of, find_char, first_index, first_index_is_first, slice_of, string_of,
};
use crate::theory::phrase::{
    LyricLine, LyricLineView, LyricSyllable, Phrase, PhraseView, SyllableView,
};
use crate::theory::rhythm::{beats_ticks, parsed_time_signature, NoteEvent, TimeSignature};
use crate::theory::scale::{parsed_scale, scale_fits, Scale};
use vstd::prelude::*;
use vstd::string::*;

verus! {

/// An answer that describes a phrase. Beats are the bits of doubles.
#[derive(Debug)]
pub struct AiPhrase {
    pub phrase_type: Option<String>,
    pub summary: Option<String>,
    pub key: Option<String>,
    pub tempo: Option<u16>,
    pub time_signature: Option<String>,
    pub bars: Option<u8>,
    pub notes: Option<Vec<AiNote>>,
}

#[derive(Debug, Clone, Copy, PartialEq, Eq, Structural)]
pub struct AiNote {
    pub pitch: u8,
    pub start: u64,
    pub dur: u64,
    pub vel: Option<u8>,
    pub voice: Option<u8>,
    pub slur: Option<u8>,
}

/// The note event of an answer's note: velocity 80 and the first voice where it
/// names none.
pub open spec fn ai_event(n: AiNote) -> NoteEvent {
    NoteEvent {
        pitch: n.pitch,
        start: beats_ticks(n.start),
        duration: beats_ticks(n.dur),
        velocity: match n.vel {
            Some(v) => v,
            None => 80,
        },
        channel: 0,
        voice: match n.voice {
            Some(v) => if v < 1 {
                1
            } else {
                v
            },
            None => 1,
        },
        slur_group: n.slur,
    }
}

/// The key that a text names: a root and a mode with a space between them, or the
/// root of a major scale.
pub open spec fn ai_key(k: Seq<char>) -> Option<Scale> {
    let i = first_index(k, ' ') as int;
    if i < k.len() {
        parsed_scale(k.take(i), k.skip(i + 1))
    } else {
        parsed_scale(k, "major"@)
    }
}

/// The phrase that an answer describes, with a tempo and a meter for where it names
/// none that can be read.
pub open spec fn ai_phrase(ai: AiPhrase, tempo: u16, ts: TimeSignature) -> PhraseView {
    PhraseView {
        id: 0,
        label: match ai.phrase_type {
            Some(t) => t@,
            None => "phrase"@,
        },
        events: match ai.notes {
            Some(ns) => ns@.map_values(|n: AiNote| ai_event(n)),
            None => Seq::empty(),
        },
        time_sig: match ai.time_signature {
            Some(t) => match parsed_time_signature(t@) {
                Some(x) => x,
                None => ts,
            },
            None => ts,
        },
        tempo: match ai.tempo {
            Some(t) => t,
            None => tempo,
        },
        key: match ai.key {
            Some(k) => ai_key(k@),
            None => None,
        },
        bars: match ai.bars {
            Some(b) => b,
            None => 4,
        },
        lyrics: Seq::empty(),
    }
}

/// Reads the key that a text names.
pub fn parse_key(k: &str) -> (r: Option<Scale>)
    ensures
        r == ai_key(k@),
        r is Some ==> scale_fits(r->Some_0),
{
    let v = chars_of(k);
    let i = find_char(&v, ' ');
    if i < v.len() {
        let root = slice_of(&v, 0, i);
        let mode = slice_of(&v, i + 1, v.len());
        assert(root@ == k@.take(i as int));
        assert(mode@ == k@.skip(i + 1));
        Scale::parse(string_of(&root).as_str(), string_of(&mode).as_str())
    } else {
        Scale::parse(k, "major")
    }
}

/// The failure to read an answer.
fn json_failure(reason: &str) -> (r: String)
    ensures
        r@ == "JSON parse: "@ + reason@,
{
    let mut s = "JSON parse: ".to_owned();
    s.append(reason);
    s
}

/// Turns an answer into a phrase. `parsed` is what reading its JSON gave, or why it
/// could not be read.
pub fn parse_ai_phrase(
    parsed: Result<AiPhrase, String>,
    fallback_tempo: u16,
    fallback_ts: &TimeSignature,
) -> (r: Result<Phrase, String>)
    ensures
        match parsed {
            Ok(ai) => r is Ok && r->Ok_0@ == ai_phrase(ai, fallback_tempo, *fallback_ts),
            Err(e) => r is Err && r->Err_0@ == "JSON parse: "@ + e@,
        },
        r matches Ok(p) ==> p.key matches Some(k) ==> scale_fits(k),
{
    let ai = match parsed {
        Ok(ai) => ai,
        Err(e) => {
            return Err(json_failure(e.as_str()));
        },
    };
    let time_sig = match &ai.time_signature {
        Some(t) => match TimeSignature::parse(t.as_str()) {
            Some(x) => x,
            None => *fallback_ts,
        },
        None => *fallback_ts,
    };
    let tempo: u16 = match ai.tempo {
        Some(t) => t,
        None => fallback_tempo,
    };
    let mut phrase = match &ai.phrase_type {
        Some(t) => Phrase::new(0, t.as_str(), time_sig, tempo),
        None => Phrase::new(0, "phrase", time_sig, tempo),
    };
    phrase.key =
    match &ai.key {
        Some(k) => parse_key(k.as_str()),
        None => None,
    };
    phrase.bars =
    match ai.bars {
        Some(b) => b,
        None => 4,
    };
    let mut events: Vec<NoteEvent> = Vec::new();
    if let Some(ns) = &ai.notes {
        for i in 0..ns.len()
            invariant
                events@ == ns@.take(i as int).map_values(|n: AiNote| ai_event(n)),
        {
            let n = ns[i];
            let vel: u8 = match n.vel {
                Some(v) => v,
                None => 80,
            };
            let mut ev = NoteEvent::from_beats(n.pitch, n.start, n.dur, vel);
            ev.voice =
            match n.voice {
                Some(v) => if v < 1 {
                    1
                } else {
                    v
                },
                None => 1,
            };
            ev.slur_group = n.slur;
            let ghost before = events@;
            events.push(ev);
            assert(ev == ai_event(n));
            assert(ns@.take(i + 1) == ns@.take(i as int).push(n));
            assert(events@ == ns@.take(i + 1).map_values(|n: AiNote| ai_event(n)));
        }
        assert(ns@.take(ns@.len() as int) == ns@);
    }
    phrase.events = events;
    assert(phrase@ == ai_phrase(ai, fallback_tempo, *fallback_ts));
    Ok(phrase)
}

/// An answer's syllable.
#[derive(Debug)]
pub struct AiLyricSyllable {
    pub text: String,
    pub word_index: i32,
    pub stress: String,
}

/// An answer that holds a line of lyrics.
#[derive(Debug)]
pub struct AiLyricResponse {
    pub syllables: Vec<AiLyricSyllable>,
    pub raw: String,
}

/// The syllable at a place in its line: it is sung on the note at that place.
pub open spec fn ai_syllable(s: AiLyricSyllable, i: int) -> SyllableView {
    SyllableView {
        text: s.text@,
        note_id: i as u32,
        word_index: s.word_index,
        stress: s.stress@,
    }
}

/// The line of lyrics that an answer holds.
pub open spec fn ai_line(ai: AiLyricResponse, phrase_id: u32) -> LyricLineView {
    LyricLineView {
        phrase_id,
        syllables: Seq::new(ai.syllables@.len(), |i: int| ai_syllable(ai.syllables@[i], i)),
        raw_text: ai.raw@,
    }
}

/// Turns an answer into a line of lyrics for a phrase. `parsed` is what reading its
/// JSON gave, or why it could not be read.
pub fn parse_ai_lyric_line(parsed: Result<AiLyricResponse, String>, phrase_id: u32) -> (r: Result<
    LyricLine,
    String,
>)
    ensures
        match parsed {
            Ok(ai) => r is Ok && r->Ok_0@ == ai_line(ai, phrase_id),
            Err(e) => r is Err && r->Err_0@ == "JSON parse: "@ + e@,
        },
{
    let ai = match parsed {
        Ok(ai) => ai,
        Err(e) => {
            return Err(json_failure(e.as_str()));
        },
    };
    let mut syllables: Vec<LyricSyllable> = Vec::new();
    for i in 0..ai.syllables.len()
        invariant
            syllables@.map_values(|s: LyricSyllable| s@) == Seq::new(
                i as nat,
                |k: int| ai_syllable(ai.syllables@[k], k),
            ),
    {
        let s = &ai.syllables[i];
        let ghost before = syllables@;
        let made = LyricSyllable {
            text: s.text.clone(),
            note_id: i as u32,
            word_index: s.word_index,
            stress: s.stress.clone(),
        };
        syllables.push(made);
        assert(made@ == ai_syllable(ai.syllables@[i as int], i as int));
        assert(syllables@.map_values(|s: LyricSyllable| s@) == before.map_values(
            |s: LyricSyllable| s@,
        ).push(made@));
        assert(syllables@.map_values(|s: LyricSyllable| s@) == Seq::new(
            (i + 1) as nat,
            |k: int| ai_syllable(ai.syllables@[k], k),
        ));
    }
    Ok(LyricLine { phrase_id, syllables, raw_text: ai.raw })
}

/// A phrase from an answer lacks nothing: without any detail it is four empty bars at
/// the given tempo and meter, and every voice counts from one.
pub proof fn answer_is_completed(ai: AiPhrase, tempo: u16, ts: TimeSignature)
    ensures
        ai.tempo is None ==> ai_phrase(ai, tempo, ts).tempo == tempo,
        ai.time_signature is None ==> ai_phrase(ai, tempo, ts).time_sig == ts,
        ai.bars is None ==> ai_phrase(ai, tempo, ts).bars == 4,
        ai.notes is None ==> ai_phrase(ai, tempo, ts).events.len() == 0,
        forall|i: int|
            0 <= i < ai_phrase(ai, tempo, ts).events.len() ==> (#[trigger] ai_phrase(
                ai,
                tempo,
                ts,
            ).events[i]).voice >= 1,
{
}

/// A phrase from an answer holds the answer's notes one by one: each with its pitch, at
/// its beats, as loud, in the voice and under the slur that it names; velocity 80 and the
/// first voice stand for what it does not name.
pub proof fn answer_keeps_its_notes(ai: AiPhrase, tempo: u16, ts: TimeSignature, i: int)
    requires
        ai.notes is Some,
        0 <= i < ai.notes->Some_0@.len(),
    ensures
        ({
            let n = ai.notes->Some_0@[i];
            let e = ai_phrase(ai, tempo, ts).events[i];
            &&& ai_phrase(ai, tempo, ts).events.len() == ai.notes->Some_0@.len()
            &&& e.pitch == n.pitch
            &&& e.start == beats_ticks(n.start) && e.duration == beats_ticks(n.dur)
            &&& n.vel matches Some(v) ==> e.velocity == v
            &&& n.vel is None ==> e.velocity == 80
            &&& n.voice matches Some(v) ==> e.voice == v || (v == 0 && e.voice == 1)
            &&& n.voice is None ==> e.voice == 1
            &&& e.slur_group == n.slur
            &&& e.channel == 0
        }),
{
}

/// What an answer names comes before what it is to be completed with: its tempo, its
/// meter and its bars where they can be read, its label and its key.
pub proof fn answer_comes_first(ai: AiPhrase, tempo: u16, ts: TimeSignature)
    ensures
        ({
            let p = ai_phrase(ai, tempo, ts);
            &&& ai.tempo matches Some(t) ==> p.tempo == t
            &&& ai.bars matches Some(b) ==> p.bars == b
            &&& ai.phrase_type matches Some(t) ==> p.label == t@
            &&& ai.phrase_type is None ==> p.label == "phrase"@
            &&& ai.time_signature matches Some(t) ==> (parsed_time_signature(
                t@,
            ) matches Some(x) ==> p.time_sig == x) && (parsed_time_signature(t@) is None
                ==> p.time_sig == ts)
            &&& ai.key matches Some(k) ==> p.key == ai_key(k@)
            &&& ai.key is None ==> p.key is None
            &&& p.lyrics.len() == 0
        }),
{
}

/// A key is named by its root and its mode with a space between them, and by its root
/// alone where it is major.
pub proof fn key_is_root_and_mode(root: Seq<char>, mode: Seq<char>)
    requires
        forall|i: int| 0 <= i < root.len() ==> (#[trigger] root[i]) != ' ',
    ensures
        ai_key(root + seq![' '] + mode) == parsed_scale(root, mode),
        ai_key(root) == parsed_scale(root, "major"@),
        ai_key(root) matches Some(s) ==> s.mode == crate::theory::scale::Mode::Major,
{
    let k = root + seq![' '] + mode;
    first_index_is_first(k, ' ');
    first_index_is_first(root, ' ');
    let i = first_index(k, ' ') as int;
    let n = root.len() as int;
    assert(k[n] == ' ');
    assert(i == n) by {
        if i < n {
            assert(k[i] == root[i]);
        }
    }
    assert(k.take(n) == root);
    assert(k.skip(n + 1) == mode);
    let j = first_index(root, ' ') as int;
    if j < root.len() {
        assert(root[j] != ' ');
    }
    reveal_strlit("major");
    let m = "major"@;
    assert(vstd::utf8::is_ascii_chars(m));
    assert(crate::text::ascii_lowered(m) == m);
    assert(crate::text::trimmed(m) == m);
}

/// The syllables of an answer go to the notes one by one, the first to the first, each
/// with its text, its word and its stress.
pub proof fn syllables_go_to_the_notes(ai: AiLyricResponse, phrase_id: u32, i: int)
    requires
        0 <= i < ai.syllables@.len() <= u32::MAX,
    ensures
        ({
            let l = ai_line(ai, phrase_id);
            let s = l.syllables[i];
            &&& l.phrase_id == phrase_id
            &&& l.raw_text == ai.raw@
            &&& l.syllables.len() == ai.syllables@.len()
            &&& s.note_id == i
            &&& s.text == ai.syllables@[i].text@
            &&& s.word_index == ai.syllables@[i].word_index
            &&& s.stress == ai.syllables@[i].stress@
        }),
{
}

} // verus!
