//! The contents of a MIDI file.
use vstd::prelude::*;

verus! {

#[derive(Debug, Clone, Copy, PartialEq, Eq, Structural)]
pub enum MidiFormat {
    SingleTrack,
    MultiTrack,
    MultiPattern,
}

#[derive(Debug, Clone, Copy, PartialEq, Eq, Structural)]
pub struct MidiHeader {
    pub format: MidiFormat,
    pub ticks_per_quarter: u16,
}

#[derive(Debug)]
pub struct MidiEvent {
    pub delta: u32,
    pub message: MidiMessage,
}

#[allow(inconsistent_fields)]
#[derive(Debug)]
pub enum MidiMessage {
    NoteOn { channel: u8, pitch: u8, velocity: u8 },
    NoteOff { channel: u8, pitch: u8, velocity: u8 },
    ProgramChange { channel: u8, program: u8 },
    ControlChange { channel: u8, controller: u8, value: u8 },
    PitchBend { channel: u8, value: i16 },
    /// Microseconds per quarter note.
    Tempo(u32),
    TimeSignature { numerator: u8, denominator: u8, clocks: u8, notated_32nds: u8 },
    KeySignature { sharps_flats: i8, minor: bool },
    TrackName(String),
    EndOfTrack,
    SysEx(Vec<u8>),
}

#[derive(Debug)]
pub struct MidiTrack {
    pub name: Option<String>,
    pub events: Vec<MidiEvent>,
}

#[derive(Debug)]
pub struct MidiFile {
    pub header: MidiHeader,
    pub tracks: Vec<MidiTrack>,
}

/// What a message says. A track's name is `N`: its text, or the bytes that
/// stand for it in a file.
#[allow(inconsistent_fields)]
#[verifier::ext_equal]
pub enum Message<N> {
    NoteOn { channel: u8, pitch: u8, velocity: u8 },
    NoteOff { channel: u8, pitch: u8, velocity: u8 },
    ProgramChange { channel: u8, program: u8 },
    ControlChange { channel: u8, controller: u8, value: u8 },
    PitchBend { channel: u8, value: i16 },
    Tempo(u32),
    TimeSignature { numerator: u8, denominator: u8, clocks: u8, notated_32nds: u8 },
    KeySignature { sharps_flats: i8, minor: bool },
    TrackName(N),
    EndOfTrack,
    SysEx(Seq<u8>),
}

/// An event, after `delta` ticks.
#[verifier::ext_equal]
pub struct Event<N> {
    pub delta: u32,
    pub message: Message<N>,
}

/// A track's name and events.
#[verifier::ext_equal]
pub struct TrackView {
    pub name: Option<Seq<char>>,
    pub events: Seq<Event<Seq<char>>>,
}

/// A file's header and tracks.
#[verifier::ext_equal]
pub struct FileView {
    pub header: MidiHeader,
    pub tracks: Seq<TrackView>,
}

impl View for MidiMessage {
    type V = Message<Seq<char>>;

    open spec fn view(&self) -> Message<Seq<char>> {
        match *self {
            MidiMessage::NoteOn { channel, pitch, velocity } => Message::NoteOn {
                channel,
                pitch,
                velocity,
            },
            MidiMessage::NoteOff { channel, pitch, velocity } => Message::NoteOff {
                channel,
                pitch,
                velocity,
            },
            MidiMessage::ProgramChange { channel, program } => Message::ProgramChange {
                channel,
                program,
            },
            MidiMessage::ControlChange { channel, controller, value } => Message::ControlChange {
                channel,
                controller,
                value,
            },
            MidiMessage::PitchBend { channel, value } => Message::PitchBend { channel, value },
            MidiMessage::Tempo(m) => Message::Tempo(m),
            MidiMessage::TimeSignature {
                numerator,
                denominator,
                clocks,
                notated_32nds,
            } => Message::TimeSignature { numerator, denominator, clocks, notated_32nds },
            MidiMessage::KeySignature { sharps_flats, minor } => Message::KeySignature {
                sharps_flats,
                minor,
            },
            MidiMessage::TrackName(name) => Message::TrackName(name@),
            MidiMessage::EndOfTrack => Message::EndOfTrack,
            MidiMessage::SysEx(data) => Message::SysEx(data@),
        }
    }
}

impl View for MidiEvent {
    type V = Event<Seq<char>>;

    open spec fn view(&self) -> Event<Seq<char>> {
        Event { delta: self.delta, message: self.message@ }
    }
}

/// The events' contents.
pub open spec fn events_view(events: Seq<MidiEvent>) -> Seq<Event<Seq<char>>> {
    events.map_values(|e: MidiEvent| e@)
}

/// The text of an optional string.
pub open spec fn optional_text(name: Option<String>) -> Option<Seq<char>> {
    match name {
        Some(s) => Some(s@),
        None => None,
    }
}

impl View for MidiTrack {
    type V = TrackView;

    open spec fn view(&self) -> TrackView {
        TrackView { name: optional_text(self.name), events: events_view(self.events@) }
    }
}

/// The tracks' contents.
pub open spec fn tracks_view(tracks: Seq<MidiTrack>) -> Seq<TrackView> {
    tracks.map_values(|t: MidiTrack| t@)
}

impl View for MidiFile {
    type V = FileView;

    open spec fn view(&self) -> FileView {
        FileView { header: self.header, tracks: tracks_view(self.tracks@) }
    }
}

impl MidiTrack {
    /// An empty track with a name.
    pub fn new(name: &str) -> (r: Self)
        ensures
            r@ == (TrackView { name: Some(name@), events: Seq::empty() }),
    {
        let r = Self { name: Some(name.to_owned()), events: Vec::new() };
        assert(r@.events == Seq::<Event<Seq<char>>>::empty());
        r
    }
}

/// Appending an event appends its contents.
pub broadcast proof fn events_view_push(events: Seq<MidiEvent>, e: MidiEvent)
    ensures
        #[trigger] events_view(events.push(e)) == events_view(events).push(e@),
{
    assert(events_view(events.push(e)) == events_view(events).push(e@));
}

/// Appending a track appends its contents.
pub broadcast proof fn tracks_view_push(tracks: Seq<MidiTrack>, t: MidiTrack)
    ensures
        #[trigger] tracks_view(tracks.push(t)) == tracks_view(tracks).push(t@),
{
    assert(tracks_view(tracks.push(t)) == tracks_view(tracks).push(t@));
}

} // verus!
