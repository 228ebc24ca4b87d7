//! What the front end asks of a session.
use crate::midi::writer::{
    file_bytes, has_track, phrase_file, phrases_file, phrases_view, writable, writable_events,
    MidiWriter,
};
use crate::musicxml::renderer::{score_text, MusicXmlRenderer};
use crate::musicxml::segments::can_be_cut;
use crate::theory::phrase::{scale_warnings, Phrase, PhraseView};
use crate::theory::pitch::PitchClass;
use crate::theory::rhythm::{parsed_time_signature, TimeSignature};
use crate::theory::scale::{mode_steps, parsed_scale, scale_classes, scale_fits, Scale};
use crate::theory::validation::{ValidationWarning, WarningView};
use crate::wasm::json::{json_numbers, json_strings, numbers_to_string, strings_to_string};
use crate::wasm::parse::{
    ai_line, ai_phrase, parse_ai_lyric_line, parse_ai_phrase, AiLyricResponse, AiPhrase,
};
use crate::wasm::session::{
    empty_session, not_found, phrase_not_found, session_wf, with_phrase, Session, SessionView,
};
use vstd::prelude::*;

verus! {

/// What the front end is told about a phrase that was taken in.
#[derive(Debug)]
pub struct JsPhraseSummary {
    pub id: u32,
    pub label: String,
    pub bars: u8,
    pub tempo: u16,
    pub note_count: usize,
    pub warnings: Vec<String>,
}

/// What a summary holds.
#[verifier::ext_equal]
pub struct SummaryView {
    pub id: u32,
    pub label: Seq<char>,
    pub bars: u8,
    pub tempo: u16,
    pub note_count: usize,
    pub warnings: Seq<Seq<char>>,
}

impl View for JsPhraseSummary {
    type V = SummaryView;

    open spec fn view(&self) -> SummaryView {
        SummaryView {
            id: self.id,
            label: self.label@,
            bars: self.bars,
            tempo: self.tempo,
            note_count: self.note_count,
            warnings: self.warnings@.map_values(|w: String| w@),
        }
    }
}

/// The summary of a phrase under a number, with the findings about it. The tempo is
/// the phrase's own.
pub open spec fn summary_of(id: u32, p: PhraseView) -> SummaryView {
    SummaryView {
        id,
        label: p.label,
        bars: p.bars,
        tempo: p.tempo,
        note_count: p.events.len() as usize,
        warnings: scale_warnings(p).map_values(|w: WarningView| w.message),
    }
}

impl JsPhraseSummary {
    pub fn id(&self) -> (r: u32)
        ensures
            r == self@.id,
    {
        self.id
    }

    pub fn label(&self) -> (r: String)
        ensures
            r@ == self@.label,
    {
        self.label.clone()
    }

    pub fn bars(&self) -> (r: u8)
        ensures
            r == self@.bars,
    {
        self.bars
    }

    pub fn tempo(&self) -> (r: u16)
        ensures
            r == self@.tempo,
    {
        self.tempo
    }

    pub fn note_count(&self) -> (r: usize)
        ensures
            r == self@.note_count,
    {
        self.note_count
    }

    /// The findings as a JSON array.
    pub fn warnings_json(&self) -> (r: String)
        ensures
            r@ == json_strings(self.warnings@),
    {
        strings_to_string(&self.warnings)
    }
}

pub fn set_tempo(session: &mut Session, bpm: u16)
    ensures
        final(session)@ == (SessionView { tempo: bpm, ..old(session)@ }),
{
    session.tempo = bpm;
}

/// Sets the key, where the names can be read.
pub fn set_key(session: &mut Session, root: &str, mode: &str)
    ensures
        final(session)@ == (match parsed_scale(root@, mode@) {
            Some(scale) => SessionView { key: Some(scale), ..old(session)@ },
            None => old(session)@,
        }),
        session_wf(old(session)@) ==> session_wf(final(session)@),
{
    if let Some(scale) = Scale::parse(root, mode) {
        session.key = Some(scale);
    }
}

/// Sets the meter, where it can be read.
pub fn set_time_signature(session: &mut Session, sig: &str)
    ensures
        final(session)@ == (match parsed_time_signature(sig@) {
            Some(ts) => SessionView { time_sig: ts, ..old(session)@ },
            None => old(session)@,
        }),
{
    if let Some(ts) = TimeSignature::parse(sig) {
        session.time_sig = ts;
    }
}

/// Takes in the phrase that an answer describes. `parsed` is what reading its JSON
/// gave, or why it could not be read.
pub fn ingest_phrase(session: &mut Session, parsed: Result<AiPhrase, String>) -> (r: Result<
    JsPhraseSummary,
    String,
>)
    requires
        old(session).next_id < u32::MAX,
    ensures
        match parsed {
            Ok(ai) => {
                let p = ai_phrase(ai, old(session)@.tempo, old(session)@.time_sig);
                &&& r is Ok
                &&& r->Ok_0@ == summary_of(old(session)@.next_id, p)
                &&& final(session)@ == with_phrase(old(session)@, p)
            },
            Err(e) => r is Err && r->Err_0@ == "JSON parse: "@ + e@ && final(session)@ == old(
                session,
            )@,
        },
        session_wf(old(session)@) ==> session_wf(final(session)@),
{
    let phrase = match parse_ai_phrase(parsed, session.tempo, &session.time_sig) {
        Ok(p) => p,
        Err(e) => {
            return Err(e);
        },
    };
    let ghost model = phrase@;
    let found = phrase.validate_against_scale();
    let mut warnings: Vec<String> = Vec::new();
    let ghost messages = found@.map_values(|w: ValidationWarning| w@.message);
    for i in 0..found.len()
        invariant
            messages == found@.map_values(|w: ValidationWarning| w@.message),
            warnings@.map_values(|w: String| w@) == messages.take(i as int),
    {
        let ghost before = warnings@;
        let m = found[i].message.clone();
        warnings.push(m);
        assert(warnings@.map_values(|w: String| w@) == before.map_values(|w: String| w@).push(m@));
        assert(messages.take(i + 1) == messages.take(i as int).push(messages[i as int]));
    }
    proof {
        assert(messages.take(messages.len() as int) == messages);
        assert(messages == scale_warnings(model).map_values(|w: WarningView| w.message)) by {
            let views = found@.map_values(|w: ValidationWarning| w@);
            assert(views == scale_warnings(model));
            assert(messages == views.map_values(|w: WarningView| w.message));
        }
    }
    let label = phrase.label.clone();
    let bars: u8 = phrase.bars;
    let tempo: u16 = phrase.tempo;
    let note_count: usize = phrase.events.len();
    let id = session.add_phrase(phrase);
    Ok(JsPhraseSummary { id, label, bars, tempo, note_count, warnings })
}

/// Lets the line that an answer holds be the lyrics of a phrase.
pub fn attach_lyrics(
    session: &mut Session,
    phrase_id: u32,
    parsed: Result<AiLyricResponse, String>,
) -> (r: Result<(), String>)
    ensures
        match parsed {
            Ok(ai) => if old(session)@.phrases.contains_key(phrase_id) {
                &&& r is Ok
                &&& final(session)@ == (SessionView {
                    phrases: old(session)@.phrases.insert(
                        phrase_id,
                        PhraseView {
                            lyrics: seq![ai_line(ai, phrase_id)],
                            ..old(session)@.phrases[phrase_id]
                        },
                    ),
                    ..old(session)@
                })
            } else {
                r is Err && r->Err_0@ == not_found(phrase_id) && final(session)@ == old(session)@
            },
            Err(e) => r is Err && r->Err_0@ == "JSON parse: "@ + e@ && final(session)@ == old(
                session,
            )@,
        },
        session_wf(old(session)@) ==> session_wf(final(session)@),
{
    match parse_ai_lyric_line(parsed, phrase_id) {
        Ok(line) => session.attach_lyrics(phrase_id, line),
        Err(e) => Err(e),
    }
}

/// Whether a phrase can be written as a file of its own.
pub open spec fn exportable(p: PhraseView) -> bool {
    has_track(p) && writable(phrase_file(p))
}

/// The bytes of a phrase's MIDI file.
pub fn phrase_to_midi(session: &Session, phrase_id: u32) -> (r: Result<Vec<u8>, String>)
    requires
        session@.phrases.contains_key(phrase_id) ==> exportable(session@.phrases[phrase_id]),
    ensures
        session@.phrases.contains_key(phrase_id) ==> r is Ok && r->Ok_0@ == file_bytes(
            phrase_file(session@.phrases[phrase_id]),
        ),
        !session@.phrases.contains_key(phrase_id) ==> r is Err && r->Err_0@ == not_found(
            phrase_id,
        ),
{
    match session.get(phrase_id) {
        Some(p) => Ok(MidiWriter::to_bytes(&MidiWriter::from_phrase(p))),
        None => Err(phrase_not_found(phrase_id)),
    }
}

/// Whether a phrase can be written as a file of its own.
pub fn is_exportable(p: &Phrase) -> (r: bool)
    ensures
        r == exportable(p@),
{
    MidiWriter::takes(p) && MidiWriter::fits(&MidiWriter::from_phrase(p))
}

proof fn lemma_all_writable(ps: Seq<PhraseView>)
    requires
        forall|i: int| 0 <= i < ps.len() ==> exportable(#[trigger] ps[i]),
    ensures
        writable(phrases_file(ps)),
{
    let tracks = phrases_file(ps).tracks;
    assert forall|i: int| 0 <= i < tracks.len() implies writable_events(
        (#[trigger] tracks[i]).events,
    ) by {
        if i > 0 {
            assert(exportable(ps[i - 1]));
            assert(phrase_file(ps[i - 1]).tracks[0] == tracks[i]);
        }
    }
}

/// The bytes of the MIDI file of some phrases, each on a track of its own.
pub fn phrases_to_midi(phrases: &Vec<Phrase>) -> (r: Vec<u8>)
    requires
        forall|i: int| 0 <= i < phrases@.len() ==> has_track((#[trigger] phrases@[i])@),
        writable(phrases_file(phrases_view(phrases@))),
    ensures
        r@ == file_bytes(phrases_file(phrases_view(phrases@))),
{
    MidiWriter::to_bytes(&MidiWriter::from_phrases(phrases.as_slice()))
}

/// Whether a row holds every number of a session's phrases once.
pub open spec fn lists_all(ids: Seq<u32>, s: SessionView) -> bool {
    ids.no_duplicates() && ids.to_set() == s.phrases.dom()
}

/// The phrases under some numbers.
pub open spec fn phrases_under(ids: Seq<u32>, s: SessionView) -> Seq<PhraseView> {
    ids.map_values(|id: u32| s.phrases[id])
}

/// The bytes of the MIDI file of all phrases, in no given order.
pub fn session_to_midi(session: &Session) -> (r: Vec<u8>)
    requires
        forall|id: u32| #[trigger]
            session@.phrases.contains_key(id) ==> exportable(session@.phrases[id]),
    ensures
        exists|ids: Seq<u32>| #[trigger]
            lists_all(ids, session@) && r@ == file_bytes(
                phrases_file(phrases_under(ids, session@)),
            ),
{
    let ids = session.ids();
    let mut phrases: Vec<Phrase> = Vec::new();
    for i in 0..ids.len()
        invariant
            lists_all(ids@, session@),
            phrases_view(phrases@) == phrases_under(ids@.take(i as int), session@),
    {
        let ghost before = phrases@;
        proof {
            assert(ids@.to_set().contains(ids@[i as int]));
        }
        if let Some(p) = session.get(ids[i]) {
            let q = p.clone();
            phrases.push(q);
            assert(phrases_view(phrases@) == phrases_view(before).push(q@));
            assert(ids@.take(i + 1) == ids@.take(i as int).push(ids@[i as int]));
            assert(phrases_under(ids@.take(i + 1), session@) == phrases_under(
                ids@.take(i as int),
                session@,
            ).push(session@.phrases[ids@[i as int]]));
        }
    }
    proof {
        assert(ids@.take(ids@.len() as int) == ids@);
        assert forall|i: int| 0 <= i < phrases@.len() implies has_track((#[trigger] phrases@[i])@) by {
            assert(phrases_view(phrases@)[i] == phrases@[i]@);
            assert(ids@.to_set().contains(ids@[i]));
            assert(session@.phrases.contains_key(ids@[i]));
        }
        assert forall|i: int| 0 <= i < phrases@.len() implies exportable(
            #[trigger] phrases_view(phrases@)[i],
        ) by {
            assert(ids@.to_set().contains(ids@[i]));
            assert(session@.phrases.contains_key(ids@[i]));
        }
        lemma_all_writable(phrases_view(phrases@));
    }
    phrases_to_midi(&phrases)
}

/// The MusicXML score of a phrase.
pub fn phrase_to_musicxml(session: &Session, phrase_id: u32, title: &str, composer: &str) -> (r:
    Result<String, String>)
    requires
        session@.phrases.contains_key(phrase_id) ==> can_be_cut(session@.phrases[phrase_id]),
    ensures
        session@.phrases.contains_key(phrase_id) ==> r is Ok && r->Ok_0@ == score_text(
            session@.phrases[phrase_id],
            title@,
            composer@,
        ),
        !session@.phrases.contains_key(phrase_id) ==> r is Err && r->Err_0@ == not_found(
            phrase_id,
        ),
{
    match session.get(phrase_id) {
        Some(p) => Ok(MusicXmlRenderer::from_phrase(p, title, composer)),
        None => Err(phrase_not_found(phrase_id)),
    }
}

/// The MIDI numbers of a scale in the octave of middle C, none where the names
/// cannot be read.
pub open spec fn scale_numbers(root: Seq<char>, mode: Seq<char>) -> Seq<u8> {
    match parsed_scale(root, mode) {
        Some(s) => scale_classes(s).map_values(|pc: PitchClass| (60 + pc.0) as u8),
        None => Seq::empty(),
    }
}

/// The pitches of a scale in the octave of middle C.
pub fn scale_pitches(root: &str, mode: &str) -> (r: Vec<u8>)
    ensures
        r@ == scale_numbers(root@, mode@),
{
    let mut out: Vec<u8> = Vec::new();
    if let Some(s) = Scale::parse(root, mode) {
        let pcs = s.pitch_classes();
        for i in 0..pcs.len()
            invariant
                pcs@ == scale_classes(s),
                out@ == pcs@.take(i as int).map_values(|pc: PitchClass| (60 + pc.0) as u8),
        {
            assert(pcs@[i as int].0 < 12);
            if let Some(p) = pcs[i].in_octave(4) {
                out.push(p.midi());
            }
            assert(pcs@.take(i + 1) == pcs@.take(i as int).push(pcs@[i as int]));
            assert(out@ == pcs@.take(i + 1).map_values(|pc: PitchClass| (60 + pc.0) as u8));
        }
        assert(pcs@.take(pcs@.len() as int) == pcs@);
    }
    out
}

/// Whether a pitch belongs to the session's key; without one every pitch does.
pub fn is_diatonic(session: &Session, midi_pitch: u8) -> (r: bool)
    requires
        session@.key matches Some(k) ==> scale_fits(k),
    ensures
        r == (match session@.key {
            Some(k) => scale_classes(k).contains(PitchClass((midi_pitch % 12) as u8)),
            None => true,
        }),
{
    match &session.key {
        Some(k) => k.contains(PitchClass(midi_pitch % 12)),
        None => true,
    }
}

/// The JSON array of some phrases' numbers.
pub fn ids_json(ids: &Vec<u32>) -> (r: String)
    ensures
        r@ == json_numbers(ids@),
{
    numbers_to_string(ids)
}

/// The numbers of the phrases as a JSON array, in no given order.
pub fn phrase_ids(session: &Session) -> (r: String)
    ensures
        exists|ids: Seq<u32>| #[trigger] lists_all(ids, session@) && r@ == json_numbers(ids),
{
    let ids = session.ids();
    assert(lists_all(ids@, session@));
    ids_json(&ids)
}

/// Forgets everything.
pub fn clear_session(session: &mut Session)
    ensures
        final(session)@ == empty_session(),
        session_wf(final(session)@),
{
    *session = Session::default();
}

/// A phrase that was taken in is the one that is exported: its file is written from
/// the answer's notes, with the session's key and tempo where it named none.
pub proof fn ingested_phrase_is_exported(s: SessionView, ai: AiPhrase)
    ensures
        ({
            let p = ai_phrase(ai, s.tempo, s.time_sig);
            let t = with_phrase(s, p);
            &&& t.phrases.contains_key(summary_of(s.next_id, p).id)
            &&& t.phrases[s.next_id].events == p.events
            &&& phrase_file(t.phrases[s.next_id]) == phrase_file(
                crate::wasm::session::kept_phrase(s, p),
            )
        }),
{
}

/// Every pitch of the session's scale is diatonic to it.
pub proof fn scale_pitches_are_diatonic(root: Seq<char>, mode: Seq<char>, i: int)
    requires
        0 <= i < scale_numbers(root, mode).len(),
    ensures
        parsed_scale(root, mode) is Some,
        scale_classes(parsed_scale(root, mode)->Some_0).contains(
            PitchClass((scale_numbers(root, mode)[i] % 12) as u8),
        ),
{
    let s = parsed_scale(root, mode)->Some_0;
    let pc = scale_classes(s)[i];
    assert(pc.0 < 12);
    assert(PitchClass((scale_numbers(root, mode)[i] % 12) as u8) == pc);
}

/// The pitches of a scale lie in the octave that middle C opens, one for every degree:
/// each as far above C as the scale's class is.
pub proof fn scale_lies_above_middle_c(root: Seq<char>, mode: Seq<char>, i: int)
    ensures
        parsed_scale(root, mode) is None ==> scale_numbers(root, mode).len() == 0,
        parsed_scale(root, mode) matches Some(s) ==> {
            &&& scale_numbers(root, mode).len() == mode_steps(s.mode).len()
            &&& 0 <= i < mode_steps(s.mode).len() ==> 60 <= scale_numbers(root, mode)[i] < 72 && (
            scale_numbers(root, mode)[i] - 60 - s.root.0 - mode_steps(s.mode)[i]) % 12 == 0
        },
{
    if let Some(s) = parsed_scale(root, mode) {
        if 0 <= i < mode_steps(s.mode).len() {
            let c = scale_classes(s)[i];
            assert(c.0 == (s.root.0 + mode_steps(s.mode)[i]) % 12);
        }
    }
}

/// What the front end is told of a phrase is the phrase's: its number, name, bars, tempo
/// and how many notes it has, and the words of each finding about it.
pub proof fn summary_tells_the_phrase(id: u32, p: PhraseView)
    requires
        p.events.len() <= usize::MAX,
    ensures
        ({
            let s = summary_of(id, p);
            &&& s.id == id && s.label == p.label && s.bars == p.bars && s.tempo == p.tempo
            &&& s.note_count == p.events.len()
            &&& s.warnings.len() == scale_warnings(p).len()
            &&& forall|i: int|
                0 <= i < s.warnings.len() ==> (#[trigger] s.warnings[i]) == scale_warnings(
                    p,
                )[i].message
        }),
{
}

/// The file of a session holds the track of every phrase, as its own file does, once,
/// behind the one that sets the tempo.
pub proof fn session_file_holds_every_phrase(s: SessionView, ids: Seq<u32>, i: int)
    requires
        lists_all(ids, s),
        0 <= i < ids.len(),
    ensures
        ({
            let f = phrases_file(phrases_under(ids, s));
            &&& f.tracks.len() == ids.len() + 1
            &&& s.phrases.contains_key(ids[i])
            &&& f.tracks[i + 1] == phrase_file(s.phrases[ids[i]]).tracks[0]
            &&& forall|id: u32| #[trigger] s.phrases.contains_key(id) ==> ids.contains(id)
        }),
{
    assert(ids.to_set().contains(ids[i]));
    assert forall|id: u32| #[trigger] s.phrases.contains_key(id) implies ids.contains(id) by {
        assert(ids.to_set().contains(id));
    }
}

} // verus!
