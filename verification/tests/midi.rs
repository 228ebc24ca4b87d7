use cadenza::midi::error::MidiError;
use cadenza::midi::file::{
    MidiEvent, MidiFile, MidiFormat, MidiHeader, MidiMessage, MidiTrack,
};
use cadenza::midi::reader::MidiReader;
use cadenza::midi::writer::MidiWriter;
use cadenza::theory::phrase::Phrase;
use cadenza::theory::pitch::PitchClass;
use cadenza::theory::rhythm::{NoteEvent, TimeSignature};
use cadenza::theory::scale::{Mode, Scale};

fn ev(pitch: u8, start: u32, duration: u32) -> NoteEvent {
    NoteEvent { pitch, start, duration, velocity: 90, channel: 1, voice: 1, slur_group: None }
}

fn short_phrase() -> Phrase {
    let mut p = Phrase::new(3, "riff", TimeSignature::six_eight(), 100);
    p.key = Some(Scale::new(PitchClass(1), Mode::NaturalMinor));
    p.events = vec![ev(64, 240, 240), ev(60, 0, 240)];
    p
}

#[test]
fn lengths_read_back_and_are_as_short_as_can_be() {
    let lengths: [(u32, Vec<u8>); 8] = [
        (0, vec![0x00]),
        (0x7F, vec![0x7F]),
        (0x80, vec![0x81, 0x00]),
        (0x3FFF, vec![0xFF, 0x7F]),
        (0x4000, vec![0x81, 0x80, 0x00]),
        (0x1F_FFFF, vec![0xFF, 0xFF, 0x7F]),
        (0x20_0000, vec![0x81, 0x80, 0x80, 0x00]),
        (0xFFF_FFFF, vec![0xFF, 0xFF, 0xFF, 0x7F]),
    ];
    let mut all = Vec::new();
    for (length, bytes) in &lengths {
        let mut out = Vec::new();
        MidiWriter::write_var_len(&mut out, *length);
        assert_eq!(&out, bytes);
        all.extend(out);
    }
    let mut reader = MidiReader::new(&all);
    for (length, _) in &lengths {
        assert_eq!(reader.read_var_len().ok(), Some(*length));
    }
    assert!(matches!(reader.read_var_len(), Err(MidiError::UnexpectedEof)));
    assert!(matches!(
        MidiReader::new(&[0x80, 0x80, 0x80, 0x80, 0x00]).read_var_len(),
        Err(MidiError::VarLenOverflow)
    ));
}

fn file_of(events: Vec<MidiEvent>) -> MidiFile {
    MidiFile {
        header: MidiHeader { format: MidiFormat::SingleTrack, ticks_per_quarter: 480 },
        tracks: vec![MidiTrack { name: None, events }],
    }
}

fn at(delta: u32, message: MidiMessage) -> MidiEvent {
    MidiEvent { delta, message }
}

#[test]
fn phrase_file_is_written_byte_for_byte() {
    let bytes = MidiWriter::to_bytes(&MidiWriter::from_phrase(&short_phrase()));
    let mut expected: Vec<u8> = Vec::new();
    expected.extend(b"MThd");
    expected.extend([0, 0, 0, 6, 0, 0, 0, 1, 0x01, 0xE0]);
    let mut track: Vec<u8> = Vec::new();
    track.extend([0, 0xFF, 0x51, 3, 0x09, 0x27, 0xC0]);
    track.extend([0, 0xFF, 0x58, 4, 6, 3, 24, 8]);
    track.extend([0, 0xFF, 0x03, 15]);
    track.extend(b"C# NaturalMinor");
    track.extend([0, 0x91, 60, 90]);
    track.extend([0x81, 0x70, 0x91, 64, 90]);
    track.extend([0, 0x81, 60, 0]);
    track.extend([0x81, 0x70, 0x81, 64, 0]);
    track.extend([0, 0xFF, 0x2F, 0]);
    expected.extend(b"MTrk");
    expected.extend((track.len() as u32).to_be_bytes());
    expected.extend(track);
    assert_eq!(bytes, expected);
}

#[test]
fn several_phrases_follow_a_tempo_track() {
    let file = MidiWriter::from_phrases(&[short_phrase(), short_phrase()]);
    assert_eq!(file.header.format, MidiFormat::MultiTrack);
    assert_eq!(file.tracks.len(), 3);
    assert_eq!(file.tracks[0].name.as_deref(), Some("Tempo"));
    assert!(matches!(file.tracks[0].events[0].message, MidiMessage::Tempo(600_000)));
    assert_eq!(file.tracks[1].name.as_deref(), Some("riff"));
    assert!(MidiWriter::from_phrases(&[]).tracks.is_empty());
}

#[test]
fn what_is_written_is_read_back() {
    let file = file_of(vec![
        at(0, MidiMessage::TrackName("Gr\u{00FC}n".into())),
        at(127, MidiMessage::NoteOn { channel: 2, pitch: 60, velocity: 100 }),
        at(128, MidiMessage::NoteOff { channel: 2, pitch: 60, velocity: 1 }),
        at(16_383, MidiMessage::ProgramChange { channel: 15, program: 7 }),
        at(16_384, MidiMessage::ControlChange { channel: 0, controller: 64, value: 127 }),
        at(2_097_152, MidiMessage::PitchBend { channel: 3, value: -8192 }),
        at(0x0FFF_FFFF, MidiMessage::PitchBend { channel: 3, value: 8191 }),
        at(0, MidiMessage::Tempo(500_000)),
        at(0, MidiMessage::TimeSignature { numerator: 7, denominator: 16, clocks: 24, notated_32nds: 8 }),
        at(0, MidiMessage::KeySignature { sharps_flats: -3, minor: true }),
        at(0, MidiMessage::EndOfTrack),
    ]);
    let bytes = MidiWriter::to_bytes(&file);
    let back = MidiReader::parse(&bytes).expect("parse");
    assert_eq!(back.header.format, MidiFormat::SingleTrack);
    assert_eq!(back.header.ticks_per_quarter, 480);
    assert_eq!(back.tracks.len(), 1);
    assert_eq!(back.tracks[0].name.as_deref(), Some("Gr\u{00FC}n"));
    assert_eq!(format!("{:?}", back.tracks[0].events), format!("{:?}", file.tracks[0].events));
}

#[test]
fn phrase_survives_its_own_file() {
    let file = MidiWriter::from_phrase(&short_phrase());
    let back = MidiReader::parse(&MidiWriter::to_bytes(&file)).expect("parse");
    assert_eq!(format!("{:?}", back.tracks[0].events), format!("{:?}", file.tracks[0].events));
}

#[test]
fn system_exclusive_bytes_are_written_with_their_length() {
    let bytes = MidiWriter::to_bytes(&file_of(vec![at(5, MidiMessage::SysEx(vec![1, 2, 3]))]));
    assert_eq!(bytes[22..], [5, 0xF0, 3, 1, 2, 3, 0xF7]);
}

fn header(format: u8, tracks: u8) -> Vec<u8> {
    let mut v = b"MThd".to_vec();
    v.extend([0, 0, 0, 6, 0, format, 0, tracks, 0, 96]);
    v
}

fn one_track(body: &[u8]) -> Vec<u8> {
    let mut v = header(0, 1);
    v.extend(b"MTrk");
    v.extend((body.len() as u32).to_be_bytes());
    v.extend(body);
    v
}

#[test]
fn unreadable_files_are_refused() {
    assert_eq!(MidiReader::parse(b"RIFFxxxx").err(), Some(MidiError::InvalidHeader));
    assert_eq!(MidiReader::parse(b"MT").err(), Some(MidiError::UnexpectedEof));
    assert_eq!(MidiReader::parse(&header(9, 0)).err(), Some(MidiError::UnsupportedFormat(9)));
    let mut no_track = header(1, 1);
    no_track.extend(b"XTrk\0\0\0\0");
    assert_eq!(MidiReader::parse(&no_track).err(), Some(MidiError::InvalidTrack(18)));
    assert_eq!(MidiReader::parse(&header(1, 1)).err(), Some(MidiError::UnexpectedEof));
    let long_delta = one_track(&[0x81, 0x81, 0x81, 0x81, 0x01, 0x90, 60, 64]);
    assert_eq!(MidiReader::parse(&long_delta).err(), Some(MidiError::VarLenOverflow));
}

#[test]
fn errors_are_worded() {
    assert_eq!(MidiError::InvalidHeader.message(), "invalid MIDI header chunk");
    assert_eq!(MidiError::InvalidTrack(18).message(), "invalid track chunk at offset 18");
    assert_eq!(MidiError::UnexpectedEof.message(), "unexpected end of data");
    assert_eq!(MidiError::UnsupportedFormat(9).message(), "unsupported MIDI format 9");
    assert_eq!(MidiError::VarLenOverflow.message(), "variable-length encoding overflow");
}

#[test]
fn running_status_is_understood_and_other_events_are_skipped() {
    let bytes = one_track(&[
        0, 0x90, 60, 64, // note on
        10, 62, 65, // running status
        0, 0xFF, 0x01, 2, b'h', b'i', // text, skipped
        5, 0x80, 60, 0,
    ]);
    let file = MidiReader::parse(&bytes).expect("parse");
    let events = &file.tracks[0].events;
    assert_eq!(events.len(), 3);
    assert!(matches!(
        events[1],
        MidiEvent { delta: 10, message: MidiMessage::NoteOn { channel: 0, pitch: 62, velocity: 65 } }
    ));
    assert!(matches!(
        events[2],
        MidiEvent { delta: 5, message: MidiMessage::NoteOff { channel: 0, pitch: 60, velocity: 0 } }
    ));
}

#[test]
fn broken_names_are_read_with_replacements() {
    let bytes = one_track(&[0, 0xFF, 0x03, 3, b'a', 0xFF, b'b']);
    let file = MidiReader::parse(&bytes).expect("parse");
    assert_eq!(file.tracks[0].name.as_deref(), Some("a\u{FFFD}b"));
}

#[test]
fn short_payloads_are_noticed() {
    let bytes = one_track(&[0, 0xFF, 0x51, 2, 7, 8]);
    assert!(MidiReader::checked_parse(&bytes).is_none());
    let fine = one_track(&[0, 0xFF, 0x51, 3, 7, 8, 9]);
    assert!(matches!(MidiReader::checked_parse(&fine), Some(Ok(_))));
}

#[test]
fn only_files_that_fit_are_written() {
    assert!(MidiWriter::fits(&file_of(vec![at(0x0FFF_FFFF, MidiMessage::EndOfTrack)])));
    assert!(!MidiWriter::fits(&file_of(vec![at(0x1000_0000, MidiMessage::EndOfTrack)])));
    assert!(!MidiWriter::fits(&file_of(vec![at(
        0,
        MidiMessage::PitchBend { channel: 0, value: 30_000 }
    )])));
    assert!(MidiWriter::takes(&short_phrase()));
    let mut p = short_phrase();
    p.tempo = 0;
    assert!(!MidiWriter::takes(&p));
    p = short_phrase();
    p.events.push(ev(60, u32::MAX, 1));
    assert!(!MidiWriter::takes(&p));
}
