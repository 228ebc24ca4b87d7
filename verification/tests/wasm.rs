use cadenza::midi::reader::MidiReader;
use cadenza::theory::pitch::PitchClass;
use cadenza::theory::rhythm::TimeSignature;
use cadenza::theory::scale::{Mode, Scale};
use cadenza::wasm::exports::{
    attach_lyrics, clear_session, ids_json, ingest_phrase, is_diatonic, is_exportable, phrase_ids,
    phrase_to_midi, phrase_to_musicxml, phrases_to_midi, scale_pitches, session_to_midi, set_key,
    set_tempo, set_time_signature, JsPhraseSummary,
};
use cadenza::wasm::parse::{
    parse_ai_lyric_line, parse_ai_phrase, parse_key, AiLyricResponse, AiLyricSyllable, AiNote,
    AiPhrase,
};
use cadenza::wasm::session::Session;

fn note(pitch: u8, start: f64, dur: f64) -> AiNote {
    AiNote {
        pitch,
        start: start.to_bits(),
        dur: dur.to_bits(),
        vel: None,
        voice: None,
        slur: None,
    }
}

fn bare() -> AiPhrase {
    AiPhrase {
        phrase_type: None,
        summary: None,
        key: None,
        tempo: None,
        time_signature: None,
        bars: None,
        notes: None,
    }
}

fn melody() -> AiPhrase {
    AiPhrase {
        phrase_type: Some("melody".into()),
        summary: Some("a line".into()),
        key: Some("D dorian".into()),
        tempo: Some(90),
        time_signature: Some("3/4".into()),
        bars: Some(2),
        notes: Some(vec![
            note(62, 0.0, 1.0),
            AiNote { vel: Some(100), voice: Some(0), slur: Some(2), ..note(63, 1.0, 0.5) },
        ]),
    }
}

#[test]
fn answers_become_phrases() {
    let p = parse_ai_phrase(Ok(melody()), 120, &TimeSignature::four_four()).expect("phrase");
    assert_eq!(p.label, "melody");
    assert_eq!(p.tempo, 90);
    assert_eq!(p.time_sig, TimeSignature::three_four());
    assert_eq!(p.key, Some(Scale::new(PitchClass(2), Mode::Dorian)));
    assert_eq!(p.bars, 2);
    assert_eq!(p.events.len(), 2);
    assert_eq!((p.events[0].start, p.events[0].duration, p.events[0].velocity), (0, 480, 80));
    assert_eq!((p.events[1].start, p.events[1].duration, p.events[1].velocity), (480, 240, 100));
    assert_eq!((p.events[0].voice, p.events[1].voice), (1, 1));
    assert_eq!((p.events[0].slur_group, p.events[1].slur_group), (None, Some(2)));
}

#[test]
fn bare_answers_are_completed() {
    let mut ai = bare();
    ai.time_signature = Some("waltz".into());
    let p = parse_ai_phrase(Ok(ai), 77, &TimeSignature::six_eight()).expect("phrase");
    assert_eq!(p.label, "phrase");
    assert_eq!((p.tempo, p.bars, p.events.len()), (77, 4, 0));
    assert_eq!(p.time_sig, TimeSignature::six_eight());
    assert_eq!(p.key, None);
    let e = parse_ai_phrase(Err("eof".into()), 77, &TimeSignature::six_eight());
    assert_eq!(e.err().as_deref(), Some("JSON parse: eof"));
}

#[test]
fn keys_are_read_with_and_without_a_mode() {
    assert_eq!(parse_key("G"), Some(Scale::new(PitchClass(7), Mode::Major)));
    assert_eq!(parse_key("A harmonic minor"), Some(Scale::new(PitchClass(9), Mode::HarmonicMinor)));
    assert_eq!(parse_key("A  minor"), Some(Scale::new(PitchClass(9), Mode::NaturalMinor)));
    assert_eq!(parse_key(" A minor"), None);
    assert_eq!(parse_key("Q"), None);
}

fn lyrics() -> AiLyricResponse {
    AiLyricResponse {
        syllables: vec![
            AiLyricSyllable { text: "la".into(), word_index: 0, stress: "strong".into() },
            AiLyricSyllable { text: "di".into(), word_index: 1, stress: "weak".into() },
        ],
        raw: "la di".into(),
    }
}

#[test]
fn lyric_answers_become_lines() {
    let line = parse_ai_lyric_line(Ok(lyrics()), 5).expect("line");
    assert_eq!(line.phrase_id, 5);
    assert_eq!(line.raw_text, "la di");
    let seen: Vec<(u32, &str, i32, &str)> = line
        .syllables
        .iter()
        .map(|s| (s.note_id, s.text.as_str(), s.word_index, s.stress.as_str()))
        .collect();
    assert_eq!(seen, vec![(0, "la", 0, "strong"), (1, "di", 1, "weak")]);
    assert_eq!(
        parse_ai_lyric_line(Err("bad".into()), 5).err().as_deref(),
        Some("JSON parse: bad"),
    );
}

#[test]
fn phrases_are_taken_in_and_numbered() {
    let mut s = Session::default();
    let summary = ingest_phrase(&mut s, Ok(melody())).expect("summary");
    assert_eq!(summary.id(), 1);
    assert_eq!(summary.label(), "melody");
    assert_eq!((summary.bars(), summary.tempo(), summary.note_count()), (2, 90, 2));
    assert_eq!(summary.warnings_json(), "[\"pitch D# (tick 480) outside D scale\"]");
    let second = ingest_phrase(&mut s, Ok(bare())).expect("summary");
    assert_eq!(second.id(), 2);
    assert_eq!(second.warnings_json(), "[]");
    assert_eq!(ingest_phrase(&mut s, Err("x".into())).err().as_deref(), Some("JSON parse: x"));
    assert_eq!(s.phrases.len(), 2);
    assert_eq!(s.get(1).map(|p| p.id), Some(1));
    assert!(s.get(3).is_none());
}

#[test]
fn session_fills_what_a_phrase_lacks() {
    let mut s = Session::default();
    set_tempo(&mut s, 140);
    set_key(&mut s, "F#", "lydian");
    set_key(&mut s, "nothing", "lydian");
    set_time_signature(&mut s, "6/8");
    set_time_signature(&mut s, "six eight");
    let mut ai = bare();
    ai.tempo = Some(0);
    let summary = ingest_phrase(&mut s, Ok(ai)).expect("summary");
    assert_eq!(summary.tempo(), 0);
    let p = s.get(1).expect("phrase");
    assert_eq!(p.tempo, 140);
    assert_eq!(p.key, Some(Scale::new(PitchClass(6), Mode::Lydian)));
    assert_eq!(p.time_sig, TimeSignature::six_eight());
}

#[test]
fn warnings_are_escaped_as_json() {
    let summary = JsPhraseSummary {
        id: 1,
        label: String::new(),
        bars: 0,
        tempo: 0,
        note_count: 0,
        warnings: vec!["a\"b\\c".into(), "\n\t\u{8}\u{c}\r\u{1}\u{1f}\u{7f}\u{e9}".into()],
    };
    assert_eq!(
        summary.warnings_json(),
        "[\"a\\\"b\\\\c\",\"\\n\\t\\b\\f\\r\\u0001\\u001f\u{7f}\u{e9}\"]",
    );
    assert_eq!(ids_json(&vec![]), "[]");
    assert_eq!(ids_json(&vec![1, 20, 4_294_967_295]), "[1,20,4294967295]");
}

#[test]
fn phrases_are_exported() {
    let mut s = Session::default();
    ingest_phrase(&mut s, Ok(melody())).expect("summary");
    assert!(is_exportable(s.get(1).expect("phrase")));
    let bytes = phrase_to_midi(&s, 1).expect("bytes");
    let file = MidiReader::parse(&bytes).expect("parse");
    assert_eq!(file.tracks.len(), 1);
    assert_eq!(phrase_to_midi(&s, 9).err().as_deref(), Some("phrase 9 not found"));
    let xml = phrase_to_musicxml(&s, 1, "T", "C").expect("xml");
    assert!(xml.contains("<work-title>T</work-title>"));
    assert_eq!(
        phrase_to_musicxml(&s, 9, "T", "C").err().as_deref(),
        Some("phrase 9 not found"),
    );
    ingest_phrase(&mut s, Ok(melody())).expect("summary");
    let all = session_to_midi(&s);
    assert_eq!(MidiReader::parse(&all).expect("parse").tracks.len(), 3);
    let (one, two) = (s.get(1).expect("one").clone(), s.get(2).expect("two").clone());
    assert_eq!(all, phrases_to_midi(&vec![one, two]));
    let ids = phrase_ids(&s);
    assert!(ids == "[1,2]" || ids == "[2,1]", "{ids}");
}

#[test]
fn lyrics_are_attached_to_phrases() {
    let mut s = Session::default();
    ingest_phrase(&mut s, Ok(melody())).expect("summary");
    assert_eq!(attach_lyrics(&mut s, 1, Ok(lyrics())), Ok(()));
    let xml = phrase_to_musicxml(&s, 1, "T", "C").expect("xml");
    assert!(xml.contains("<text>la</text>"));
    assert_eq!(
        attach_lyrics(&mut s, 2, Ok(lyrics())).err().as_deref(),
        Some("phrase 2 not found"),
    );
    assert_eq!(attach_lyrics(&mut s, 1, Err("x".into())).err().as_deref(), Some("JSON parse: x"));
    assert_eq!(s.get(1).expect("phrase").lyrics.len(), 1);
}

#[test]
fn theory_questions_are_answered() {
    assert_eq!(scale_pitches("C", "major"), vec![60, 62, 64, 65, 67, 69, 71]);
    assert_eq!(scale_pitches("A", "minor"), vec![69, 71, 60, 62, 64, 65, 67]);
    assert!(scale_pitches("A", "nothing").is_empty());
    let mut s = Session::default();
    assert!(is_diatonic(&s, 61));
    set_key(&mut s, "C", "major");
    assert!(!is_diatonic(&s, 61));
    assert!(is_diatonic(&s, 72));
    ingest_phrase(&mut s, Ok(bare())).expect("summary");
    clear_session(&mut s);
    assert_eq!((s.phrases.len(), s.next_id, s.tempo), (0, 1, 120));
    assert_eq!(s.key, None);
    assert_eq!(phrase_ids(&s), "[]");
}
