//! Laws of the session and of what the front end asks of it.
use crate::midi::file::MidiFile;
use crate::midi::writer::MidiWriter;
use crate::musicxml::renderer::MusicXmlRenderer;
use crate::text::decimal;
use crate::theory::phrase::{LyricLine, Phrase, PhraseView};
use crate::theory::pitch::PitchClass;
use crate::theory::rhythm::{beats_ticks, TimeSignature};
use crate::theory::scale::{mode_steps, scale_classes, Mode, Scale};
use crate::wasm::exports::{
    clear_session, ingest_phrase, is_diatonic, phrase_to_midi, phrase_to_musicxml, scale_pitches,
    set_key, set_tempo, set_time_signature, JsPhraseSummary,
};
use crate::wasm::parse::{
    parse_ai_lyric_line, parse_ai_phrase, parse_key, AiLyricResponse, AiNote, AiPhrase,
};
use crate::wasm::session::{Session, SessionView};
use vstd::prelude::*;

verus! {

/// Setting the tempo sets the tempo and nothing else.
pub proof fn tempo_is_set(bpm: u16)
    ensures
        forall|s: &mut Session| #[trigger]
            call_ensures(set_tempo, (s, bpm), ()) ==> {
                let (a, b) = ((*s)@, (*final(s))@);
                &&& b.tempo == bpm
                &&& b.phrases == a.phrases && b.next_id == a.next_id
                &&& b.key == a.key && b.time_sig == a.time_sig
            },
{
}

/// Setting the key sets the key that the root and the mode name, and nothing else; where
/// they name none, nothing changes.
pub proof fn key_is_set(root: &str, mode: &str, k: Option<Scale>)
    requires
        call_ensures(Scale::parse, (root, mode), k),
    ensures
        forall|s: &mut Session| #[trigger]
            call_ensures(set_key, (s, root, mode), ()) ==> {
                let (a, b) = ((*s)@, (*final(s))@);
                &&& k is Some ==> b.key == k
                &&& k is None ==> b.key == a.key
                &&& b.phrases == a.phrases && b.next_id == a.next_id
                &&& b.tempo == a.tempo && b.time_sig == a.time_sig
            },
{
}

/// Setting the meter sets the meter that the text names, and nothing else; where it names
/// none, nothing changes.
pub proof fn meter_is_set(sig: &str, t: Option<TimeSignature>)
    requires
        call_ensures(TimeSignature::parse, (sig,), t),
    ensures
        forall|s: &mut Session| #[trigger]
            call_ensures(set_time_signature, (s, sig), ()) ==> {
                let (a, b) = ((*s)@, (*final(s))@);
                &&& t matches Some(x) ==> b.time_sig == x
                &&& t is None ==> b.time_sig == a.time_sig
                &&& b.phrases == a.phrases && b.next_id == a.next_id
                &&& b.key == a.key && b.tempo == a.tempo
            },
{
}

/// A cleared session is as a new one: without phrases and key, at 120 beats a minute in
/// four quarters, and it numbers from one again.
pub proof fn cleared_session_is_new(fresh: Session)
    requires
        call_ensures(Session::default, (), fresh),
    ensures
        fresh@.phrases.dom().len() == 0,
        fresh@.next_id == 1,
        fresh@.key is None,
        fresh@.tempo == 120,
        fresh@.time_sig.numerator == 4 && fresh@.time_sig.denominator == 4,
        forall|s: &mut Session| #[trigger]
            call_ensures(clear_session, (s,), ()) ==> (*final(s))@ == fresh@,
{
}

/// Whether a session is another one with one more phrase, which has the number that was
/// next, and the session's key and tempo where it has none of its own.
pub open spec fn holds_one_more(a: SessionView, b: SessionView, p: PhraseView) -> bool {
    let q = b.phrases[a.next_id];
    &&& b.phrases.contains_key(a.next_id)
    &&& q.id == a.next_id
    &&& q.label == p.label && q.events == p.events && q.time_sig == p.time_sig
    &&& q.bars == p.bars && q.lyrics == p.lyrics
    &&& p.key is Some ==> q.key == p.key
    &&& p.key is None ==> q.key == a.key
    &&& p.tempo != 0 ==> q.tempo == p.tempo
    &&& p.tempo == 0 ==> q.tempo == a.tempo
    &&& b.next_id == a.next_id + 1
    &&& b.key == a.key && b.tempo == a.tempo && b.time_sig == a.time_sig
    &&& forall|id: u32| #[trigger]
        b.phrases.contains_key(id) ==> id == a.next_id || a.phrases.contains_key(id)
            && b.phrases[id] == a.phrases[id]
    &&& forall|id: u32| #[trigger] a.phrases.contains_key(id) ==> b.phrases.contains_key(id)
}

/// Adding a phrase to a session keeps it under the next number, completed, and keeps the
/// others.
pub proof fn added_phrase_is_kept(p: Phrase, id: u32)
    ensures
        forall|s: &mut Session| #[trigger]
            call_ensures(Session::add_phrase, (s, p), id) && (*s)@.next_id < u32::MAX ==> id
                == (*s)@.next_id && holds_one_more((*s)@, (*final(s))@, p@),
{
}

/// A phrase is found under its number exactly where the session holds one.
pub proof fn phrase_is_found(s: Session, id: u32, r: Option<&Phrase>)
    requires
        call_ensures(Session::get, (&s, id), r),
    ensures
        r is Some <==> s@.phrases.contains_key(id),
        r matches Some(p) ==> p@ == s@.phrases[id],
{
}

/// Lyrics are attached to the phrase with the number: it has that line alone, and keeps
/// everything else, as does the rest of the session. Where there is no such phrase, that is
/// said and nothing changes.
pub proof fn lyrics_are_attached(id: u32, line: LyricLine, r: Result<(), String>)
    ensures
        forall|s: &mut Session| #[trigger]
            call_ensures(Session::attach_lyrics, (s, id, line), r) ==> {
                let (a, b) = ((*s)@, (*final(s))@);
                let (p, q) = (a.phrases[id], b.phrases[id]);
                &&& r is Ok <==> a.phrases.contains_key(id)
                &&& r is Ok ==> q.lyrics.len() == 1 && q.lyrics[0] == line@ && q.events == p.events
                    && q.id == p.id && q.label == p.label && q.key == p.key && q.tempo == p.tempo
                    && q.time_sig == p.time_sig && q.bars == p.bars
                &&& forall|j: u32| #[trigger]
                    b.phrases.contains_key(j) <==> a.phrases.contains_key(j)
                &&& forall|j: u32| j != id ==> #[trigger] b.phrases[j] == a.phrases[j]
                &&& b.next_id == a.next_id && b.key == a.key && b.tempo == a.tempo && b.time_sig
                    == a.time_sig
                &&& r matches Err(e) ==> e@ == "phrase "@ + decimal(id as nat) + " not found"@ && b
                    == a
            },
{
    assert forall|s: &mut Session| #[trigger]
        call_ensures(Session::attach_lyrics, (s, id, line), r) && r is Ok implies {
        let (a, b) = ((*s)@, (*final(s))@);
        b.phrases.dom() == a.phrases.dom()
    } by {}
}

/// An answer that was read gives a phrase with its notes: the pitches and the beats, counted
/// in ticks, with velocity 80 and the first voice where it names none.
pub proof fn answer_gives_its_notes(
    ai: AiPhrase,
    tempo: u16,
    ts: TimeSignature,
    r: Result<Phrase, String>,
    i: int,
)
    requires
        call_ensures(parse_ai_phrase, (Ok(ai), tempo, &ts), r),
        ai.notes is Some,
        0 <= i < ai.notes->Some_0@.len(),
    ensures
        r matches Ok(p) && p@.events.len() == ai.notes->Some_0@.len() && {
            let n: AiNote = ai.notes->Some_0@[i];
            let e = p@.events[i];
            &&& e.pitch == n.pitch
            &&& e.start == beats_ticks(n.start) && e.duration == beats_ticks(n.dur)
            &&& n.vel matches Some(v) ==> e.velocity == v
            &&& n.vel is None ==> e.velocity == 80
            &&& n.voice matches Some(v) ==> e.voice == v || (v == 0 && e.voice == 1)
            &&& n.voice is None ==> e.voice == 1
            &&& e.slur_group == n.slur
            &&& e.channel == 0
        },
{
}

/// An answer's own tempo, meter, bars, name and key hold where it gives them; else those
/// that were given, four bars, and no key. A text that could not be read gives no phrase.
pub proof fn answer_holds_before_what_is_given(
    parsed: Result<AiPhrase, String>,
    tempo: u16,
    ts: TimeSignature,
    r: Result<Phrase, String>,
)
    requires
        call_ensures(parse_ai_phrase, (parsed, tempo, &ts), r),
    ensures
        parsed is Ok <==> r is Ok,
        r matches Err(e) ==> e@ == "JSON parse: "@ + parsed->Err_0@,
        parsed matches Ok(ai) ==> {
            let p = r->Ok_0@;
            &&& ai.tempo matches Some(t) ==> p.tempo == t
            &&& ai.tempo is None ==> p.tempo == tempo
            &&& ai.bars matches Some(b) ==> p.bars == b
            &&& ai.bars is None ==> p.bars == 4
            &&& ai.phrase_type matches Some(t) ==> p.label == t@
            &&& ai.phrase_type is None ==> p.label == "phrase"@
            &&& ai.time_signature is None ==> p.time_sig == ts
            &&& ai.key is None ==> p.key is None
            &&& ai.notes is None ==> p.events.len() == 0
            &&& p.lyrics.len() == 0
        },
{
}

/// The meter and the key of an answer are those that their texts name.
pub proof fn answer_names_meter_and_key(
    ai: AiPhrase,
    tempo: u16,
    ts: TimeSignature,
    r: Result<Phrase, String>,
    meter: &str,
    key: &str,
    m: Option<TimeSignature>,
    k: Option<Scale>,
)
    requires
        call_ensures(parse_ai_phrase, (Ok(ai), tempo, &ts), r),
        ai.time_signature matches Some(t) && t@ == meter@,
        ai.key matches Some(t) && t@ == key@,
        call_ensures(TimeSignature::parse, (meter,), m),
        call_ensures(parse_key, (key,), k),
    ensures
        r matches Ok(p) && p@.key == k && p@.time_sig == (match m {
            Some(x) => x,
            None => ts,
        }),
{
}

/// A text that names a root and a mode, with a space between them, names the scale of
/// both; one that names a root alone names its major scale.
pub proof fn key_text_names_the_scale(
    text: &str,
    root: &str,
    mode: &str,
    k: Option<Scale>,
    s: Option<Scale>,
)
    requires
        forall|i: int| 0 <= i < root@.len() ==> (#[trigger] root@[i]) != ' ',
        text@ == root@ + seq![' '] + mode@ || text@ == root@ && mode@ == "major"@,
        call_ensures(parse_key, (text,), k),
        call_ensures(Scale::parse, (root, mode), s),
    ensures
        k == s,
{
    crate::wasm::parse::key_is_root_and_mode(root@, mode@);
}

/// The syllables of an answer go to the notes one by one, and keep their words and stress.
pub proof fn answer_gives_its_syllables(
    ai: AiLyricResponse,
    phrase_id: u32,
    r: Result<LyricLine, String>,
    i: int,
)
    requires
        call_ensures(parse_ai_lyric_line, (Ok(ai), phrase_id), r),
        0 <= i < ai.syllables@.len() <= u32::MAX,
    ensures
        r matches Ok(l) && l@.phrase_id == phrase_id && l@.raw_text == ai.raw@
            && l@.syllables.len() == ai.syllables@.len() && l@.syllables[i].note_id == i
            && l@.syllables[i].text == ai.syllables@[i].text@ && l@.syllables[i].word_index
            == ai.syllables@[i].word_index && l@.syllables[i].stress
            == ai.syllables@[i].stress@,
{
}

/// What is taken in is the phrase that the answer describes, with the session's tempo and
/// meter to fall back on: the session keeps it, and the summary tells of it.
pub proof fn answer_is_taken_in(
    ai: AiPhrase,
    tempo: u16,
    ts: TimeSignature,
    p: Phrase,
    r: Result<JsPhraseSummary, String>,
)
    requires
        call_ensures(parse_ai_phrase, (Ok(ai), tempo, &ts), Ok(p)),
        p@.events.len() <= usize::MAX,
    ensures
        forall|s: &mut Session| #[trigger]
            call_ensures(ingest_phrase, (s, Ok(ai)), r) && (*s)@.next_id < u32::MAX && (*s)@.tempo
                == tempo && (*s)@.time_sig == ts ==> {
                &&& holds_one_more((*s)@, (*final(s))@, p@)
                &&& r matches Ok(x) && x@.id == (*s)@.next_id && x@.label == p@.label && x@.bars
                    == p@.bars && x@.tempo == p@.tempo && x@.note_count == p@.events.len()
            },
{
}

/// A phrase of the session is exported as the file that the writer makes of it, and as the
/// score that the renderer makes of it; one that is not there is said to be missing.
pub proof fn phrase_is_exported(
    s: Session,
    id: u32,
    title: &str,
    composer: &str,
    p: Phrase,
    f: MidiFile,
    bytes: Vec<u8>,
    text: String,
    midi: Result<Vec<u8>, String>,
    xml: Result<String, String>,
)
    requires
        call_ensures(phrase_to_midi, (&s, id), midi),
        call_ensures(phrase_to_musicxml, (&s, id, title, composer), xml),
        s@.phrases.contains_key(id) ==> p@ == s@.phrases[id] && call_ensures(
            MidiWriter::from_phrase,
            (&p,),
            f,
        ) && call_ensures(MidiWriter::to_bytes, (&f,), bytes) && call_ensures(
            MusicXmlRenderer::from_phrase,
            (&p, title, composer),
            text,
        ),
    ensures
        s@.phrases.contains_key(id) ==> midi is Ok && midi->Ok_0@ == bytes@ && xml is Ok
            && xml->Ok_0@ == text@,
        !s@.phrases.contains_key(id) ==> midi is Err && xml is Err && midi->Err_0@ == "phrase "@
            + decimal(id as nat) + " not found"@ && xml->Err_0@ == midi->Err_0@,
{
}

/// The pitches of a scale lie within the octave above middle C, one for every step of its
/// mode and as far above the root as the step says, up to octaves. They are all diatonic in
/// a session in that key. Without a key, every pitch is.
pub proof fn scale_is_diatonic_in_its_key(
    root: &str,
    mode: &str,
    k: Option<Scale>,
    steps: Vec<u8>,
    r: Vec<u8>,
    i: int,
    s: Session,
    diatonic: bool,
)
    requires
        call_ensures(Scale::parse, (root, mode), k),
        k matches Some(x) ==> call_ensures(Mode::intervals, (&x.mode,), steps),
        call_ensures(scale_pitches, (root, mode), r),
        0 <= i < r@.len(),
        s@.key == k || s@.key is None,
        call_ensures(is_diatonic, (&s, r@[i]), diatonic),
    ensures
        k is Some,
        r@.len() == steps@.len(),
        60 <= r@[i] < 72,
        (r@[i] - 60 - k->Some_0.root.0 - steps@[i]) % 12 == 0,
        diatonic,
{
    crate::wasm::exports::scale_lies_above_middle_c(root@, mode@, i);
    crate::wasm::exports::scale_pitches_are_diatonic(root@, mode@, i);
}

/// A pitch is diatonic exactly where its class is the key's root plus a step of its mode.
pub proof fn diatonic_pitches_are_the_keys(s: Session, key: Scale, midi: u8, r: bool)
    requires
        s@.key == Some(key),
        call_ensures(is_diatonic, (&s, midi), r),
    ensures
        r <==> exists|k: int|
            0 <= k < mode_steps(key.mode).len() && (key.root.0 + #[trigger] mode_steps(
                key.mode,
            )[k]) % 12 == midi % 12,
{
    let pc = PitchClass((midi % 12) as u8);
    if r {
        let k = choose|k: int| 0 <= k < scale_classes(key).len() && scale_classes(key)[k] == pc;
        assert((key.root.0 + mode_steps(key.mode)[k]) % 12 == midi % 12);
    }
    if exists|k: int|
        0 <= k < mode_steps(key.mode).len() && (key.root.0 + #[trigger] mode_steps(key.mode)[k])
            % 12 == midi % 12 {
        let k = choose|k: int|
            0 <= k < mode_steps(key.mode).len() && (key.root.0 + #[trigger] mode_steps(
                key.mode,
            )[k]) % 12 == midi % 12;
        assert(scale_classes(key)[k] == pc);
    }
}

} // verus!
