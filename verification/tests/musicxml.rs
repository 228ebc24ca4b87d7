use cadenza::musicxml::renderer::{esc, midi_to_step, ticks_to_type, MusicXmlRenderer};
use cadenza::musicxml::segments::build_segments;
use cadenza::theory::phrase::{LyricLine, LyricSyllable, Phrase};
use cadenza::theory::pitch::PitchClass;
use cadenza::theory::rhythm::{NoteEvent, TimeSignature};
use cadenza::theory::scale::{Mode, Scale};

fn ev(pitch: u8, start: u32, duration: u32, voice: u8, slur: Option<u8>) -> NoteEvent {
    NoteEvent { pitch, start, duration, velocity: 90, channel: 0, voice, slur_group: slur }
}

fn make_phrase(events: Vec<NoteEvent>, bars: u8) -> Phrase {
    let mut p = Phrase::new(0, "test", TimeSignature::four_four(), 120);
    p.bars = bars;
    p.events = events;
    p
}

#[test]
fn note_crossing_barline_is_split_and_tied() {
    let p = make_phrase(vec![ev(60, 1440, 960, 1, None)], 2);
    let xml = MusicXmlRenderer::from_phrase(&p, "t", "c");

    assert_eq!(xml.matches("<step>C</step>").count(), 2);
    assert!(xml.contains("<tie type=\"start\"/>"));
    assert!(xml.contains("<tie type=\"stop\"/>"));
    assert!(xml.contains("<tied type=\"start\"/>"));
    assert!(xml.contains("<tied type=\"stop\"/>"));

    let quarters = xml.matches("<duration>480</duration>").count();
    assert!(quarters >= 2, "expected at least two 480-tick segments, got xml:\n{xml}");

    let start_pos = xml.find("<tie type=\"start\"/>").unwrap();
    let stop_pos = xml.find("<tie type=\"stop\"/>").unwrap();
    assert!(start_pos < stop_pos);
}

#[test]
fn two_voices_in_one_measure_use_backup() {
    let p = make_phrase(vec![ev(60, 0, 1920, 1, None), ev(64, 0, 1920, 2, None)], 1);
    let xml = MusicXmlRenderer::from_phrase(&p, "t", "c");

    assert!(xml.contains("<voice>1</voice>"));
    assert!(xml.contains("<voice>2</voice>"));
    assert_eq!(xml.matches("<backup><duration>1920</duration></backup>").count(), 1);
    let backup_pos = xml.find("<backup>").unwrap();
    let v1_pos = xml.find("<voice>1</voice>").unwrap();
    let v2_pos = xml.find("<voice>2</voice>").unwrap();
    assert!(v1_pos < backup_pos);
    assert!(v2_pos > backup_pos);
}

#[test]
fn lyric_line_emits_syllabic_kinds_in_order() {
    let mut p = make_phrase(
        vec![
            ev(60, 0, 480, 1, None),
            ev(62, 480, 480, 1, None),
            ev(64, 960, 480, 1, None),
            ev(65, 1440, 480, 1, None),
        ],
        1,
    );
    p.lyrics.push(LyricLine {
        phrase_id: 0,
        raw_text: "Hello world !".into(),
        syllables: vec![
            LyricSyllable { text: "Hel".into(), note_id: 0, word_index: 0, stress: "strong".into() },
            LyricSyllable { text: "lo".into(), note_id: 1, word_index: 0, stress: "weak".into() },
            LyricSyllable { text: "world".into(), note_id: 2, word_index: 1, stress: "strong".into() },
            LyricSyllable { text: "!".into(), note_id: 3, word_index: 2, stress: "unstressed".into() },
        ],
    });

    let xml = MusicXmlRenderer::from_phrase(&p, "t", "c");
    let begin = xml.find("<syllabic>begin</syllabic>").expect("begin");
    let end = xml.find("<syllabic>end</syllabic>").expect("end");
    let single1 = xml.find("<syllabic>single</syllabic>").expect("single1");
    let single2 = xml.rfind("<syllabic>single</syllabic>").unwrap();
    assert!(begin < end);
    assert!(end < single1);
    assert!(single1 < single2);
    assert!(xml.contains("<text>Hel</text>"));
    assert!(xml.contains("<text>lo</text>"));
    assert!(xml.contains("<text>world</text>"));
}

#[test]
fn lyric_skips_padding_rest_syllables() {
    let mut p = make_phrase(vec![ev(60, 0, 480, 1, None), ev(62, 480, 480, 1, None)], 1);
    p.lyrics.push(LyricLine {
        phrase_id: 0,
        raw_text: "hi".into(),
        syllables: vec![
            LyricSyllable { text: "hi".into(), note_id: 0, word_index: 0, stress: "strong".into() },
            LyricSyllable { text: "".into(), note_id: 1, word_index: -1, stress: "unstressed".into() },
        ],
    });
    let xml = MusicXmlRenderer::from_phrase(&p, "t", "c");
    assert_eq!(xml.matches("<lyric").count(), 1);
    assert!(xml.contains("<text>hi</text>"));
}

#[test]
fn slur_run_emits_start_and_stop_only_at_endpoints() {
    let p = make_phrase(
        vec![
            ev(60, 0, 480, 1, Some(1)),
            ev(62, 480, 480, 1, Some(1)),
            ev(64, 960, 480, 1, Some(1)),
            ev(65, 1440, 480, 1, None),
        ],
        1,
    );
    let xml = MusicXmlRenderer::from_phrase(&p, "t", "c");
    assert_eq!(xml.matches("<slur type=\"start\"").count(), 1);
    assert_eq!(xml.matches("<slur type=\"stop\"").count(), 1);
}

#[test]
fn empty_score_is_written_exactly() {
    let mut p = make_phrase(vec![], 1);
    p.key = Some(Scale::new(PitchClass(7), Mode::Lydian));
    p.label = "a<b".into();
    let xml = MusicXmlRenderer::from_phrase(&p, "T & t", "C");
    assert_eq!(
        xml,
        "<?xml version=\"1.0\" encoding=\"UTF-8\"?>\n\
         <!DOCTYPE score-partwise PUBLIC \"-//Recordare//DTD MusicXML 4.0 Partwise//EN\" \"http://www.musicxml.org/dtds/partwise.dtd\">\n\
         <score-partwise version=\"4.0\">\n\
         \x20 <work><work-title>T &amp; t</work-title></work>\n\
         \x20 <identification><creator type=\"composer\">C</creator></identification>\n\
         \x20 <part-list>\n    <score-part id=\"P1\">\n\
         \x20     <part-name>a&lt;b</part-name>\n\
         \x20   </score-part>\n  </part-list>\n  <part id=\"P1\">\n\
         \x20   <measure number=\"1\">\n\
         \x20     <attributes>\n        <divisions>480</divisions>\n\
         \x20       <key><fifths>1</fifths><mode>major</mode></key>\n\
         \x20       <time><beats>4</beats><beat-type>4</beat-type></time>\n\
         \x20       <clef><sign>G</sign><line>2</line></clef>\n      </attributes>\n\
         \x20     <direction placement=\"above\"><direction-type><metronome><beat-unit>quarter</beat-unit><per-minute>120</per-minute></metronome></direction-type><sound tempo=\"120\"/></direction>\n\
         \x20     <note><rest measure=\"yes\"/><duration>1920</duration><type>whole</type></note>\n\
         \x20   </measure>\n  </part>\n</score-partwise>\n",
    );
}

#[test]
fn voice_is_padded_to_its_bar() {
    let p = make_phrase(vec![ev(61, 240, 480, 1, None)], 1);
    let xml = MusicXmlRenderer::from_phrase(&p, "t", "c");
    assert!(xml.contains(
        "      <note><rest/><duration>240</duration><voice>1</voice><type>eighth</type></note>\n"
    ));
    assert!(xml.contains(
        "      <note><rest/><duration>1200</duration><voice>1</voice><type>quarter</type></note>\n"
    ));
    assert!(xml.contains(
        "      <note>\n        <pitch>\n          <step>C</step>\n          <alter>1</alter>\n          <octave>4</octave>\n        </pitch>\n        <duration>480</duration>\n        <voice>1</voice>\n        <type>quarter</type>\n      </note>\n"
    ));
}

#[test]
fn pieces_of_a_long_note_meet_at_the_bars() {
    let p = make_phrase(vec![ev(60, 1000, 4000, 0, None)], 3);
    let segs = build_segments(&p);
    let parts: Vec<(u32, u32, bool, bool)> =
        segs.iter().map(|s| (s.start, s.duration, s.tie_start, s.tie_stop)).collect();
    assert_eq!(
        parts,
        vec![(1000, 920, true, false), (1920, 1920, true, true), (3840, 1160, false, true)],
    );
    assert!(segs.iter().all(|s| s.voice == 1));
}

#[test]
fn texts_steps_and_types() {
    assert_eq!(esc("<a href=\"x\">&'"), "&lt;a href=&quot;x&quot;&gt;&amp;&apos;");
    assert_eq!(midi_to_step(60), ("C", 4, 0));
    assert_eq!(midi_to_step(70), ("A", 4, 1));
    assert_eq!(ticks_to_type(1920), "whole");
    assert_eq!(ticks_to_type(160), "quarter");
    assert_eq!(ticks_to_type(77), "quarter");
}

#[test]
fn only_phrases_that_can_be_cut_are_taken() {
    assert!(MusicXmlRenderer::takes(&make_phrase(vec![ev(60, 0, 480, 1, None)], 1)));
    assert!(!MusicXmlRenderer::takes(&make_phrase(vec![ev(60, u32::MAX, 480, 1, None)], 1)));
    let mut p = make_phrase(vec![ev(60, 0, 480, 1, None)], 1);
    p.time_sig = TimeSignature { numerator: 0, denominator: 4 };
    assert!(!MusicXmlRenderer::takes(&p));
}
