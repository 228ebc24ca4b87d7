//! Writing MIDI files, and turning phrases into them.
use crate::midi::file::{
    events_view, events_view_push, tracks_view, tracks_view_push, Event, FileView, Message,
    MidiEvent, MidiFile, MidiFormat, MidiHeader, MidiMessage, MidiTrack, TrackView,
};
use crate::sorting::{sorted, stable_sort, Keyed};
use crate::theory::phrase::{ends_fit, Phrase, PhraseView};
use crate::theory::pitch::class_name;
use crate::theory::rhythm::NoteEvent;
use crate::theory::scale::{mode_identifier, Scale};
use vstd::arithmetic::power2::pow2;
use vstd::prelude::*;
use vstd::string::*;
use vstd::utf8::encode_utf8;

verus! {

/// The leading groups of a number in groups of seven bits, each with its high
/// bit set.
pub open spec fn leading_groups(n: nat) -> Seq<u8>
    decreases n,
{
    if n == 0 {
        Seq::empty()
    } else {
        leading_groups(n / 128).push((n % 128 + 128) as u8)
    }
}

/// A number in groups of seven bits, most significant first. All but the last
/// byte have their high bit set.
pub open spec fn var_len_bytes(n: nat) -> Seq<u8> {
    leading_groups(n / 128).push((n % 128) as u8)
}

/// The two bytes of a number, most significant first.
pub open spec fn be16(n: nat) -> Seq<u8> {
    seq![(n / 256 % 256) as u8, (n % 256) as u8]
}

/// The four bytes of a number, most significant first.
pub open spec fn be32(n: nat) -> Seq<u8> {
    seq![
        (n / 0x100_0000 % 256) as u8,
        (n / 0x1_0000 % 256) as u8,
        (n / 256 % 256) as u8,
        (n % 256) as u8,
    ]
}

/// The exponent of the greatest power of two that is no greater than `n`; 0 for 0.
pub open spec fn floor_log2(n: nat) -> nat
    decreases n,
{
    if n < 2 {
        0
    } else {
        1 + floor_log2(n / 2)
    }
}

/// A message with its name encoded as UTF-8.
pub open spec fn encoded_message(m: Message<Seq<char>>) -> Message<Seq<u8>> {
    match m {
        Message::NoteOn { channel, pitch, velocity } => Message::NoteOn {
            channel,
            pitch,
            velocity,
        },
        Message::NoteOff { channel, pitch, velocity } => Message::NoteOff {
            channel,
            pitch,
            velocity,
        },
        Message::ProgramChange { channel, program } => Message::ProgramChange { channel, program },
        Message::ControlChange { channel, controller, value } => Message::ControlChange {
            channel,
            controller,
            value,
        },
        Message::PitchBend { channel, value } => Message::PitchBend { channel, value },
        Message::Tempo(m) => Message::Tempo(m),
        Message::TimeSignature { numerator, denominator, clocks, notated_32nds } =>
            Message::TimeSignature { numerator, denominator, clocks, notated_32nds },
        Message::KeySignature { sharps_flats, minor } => Message::KeySignature {
            sharps_flats,
            minor,
        },
        Message::TrackName(s) => Message::TrackName(encode_utf8(s)),
        Message::EndOfTrack => Message::EndOfTrack,
        Message::SysEx(d) => Message::SysEx(d),
    }
}

pub open spec fn encoded_event(e: Event<Seq<char>>) -> Event<Seq<u8>> {
    Event { delta: e.delta, message: encoded_message(e.message) }
}

/// A length as the file states it, in 32 bits.
pub open spec fn length32(n: nat) -> nat {
    n % 0x1_0000_0000
}

/// The bytes of a message. Channels are stated in four bits, pitch bends in
/// fourteen, tempi in twenty-four, and a time signature's unit by its logarithm.
pub open spec fn message_bytes(m: Message<Seq<u8>>) -> Seq<u8> {
    match m {
        Message::NoteOn { channel, pitch, velocity } => seq![
            (0x90 + channel % 16) as u8,
            pitch,
            velocity,
        ],
        Message::NoteOff { channel, pitch, velocity } => seq![
            (0x80 + channel % 16) as u8,
            pitch,
            velocity,
        ],
        Message::ProgramChange { channel, program } => seq![(0xC0 + channel % 16) as u8, program],
        Message::ControlChange { channel, controller, value } => seq![
            (0xB0 + channel % 16) as u8,
            controller,
            value,
        ],
        Message::PitchBend { channel, value } => seq![
            (0xE0 + channel % 16) as u8,
            ((value + 8192) % 128) as u8,
            ((value + 8192) / 128 % 128) as u8,
        ],
        Message::Tempo(m) => seq![
            0xFFu8,
            0x51,
            0x03,
            (m as nat / 0x1_0000 % 256) as u8,
            (m as nat / 256 % 256) as u8,
            (m as nat % 256) as u8,
        ],
        Message::TimeSignature { numerator, denominator, clocks, notated_32nds } => seq![
            0xFFu8,
            0x58,
            0x04,
            numerator,
            floor_log2(denominator as nat) as u8,
            clocks,
            notated_32nds,
        ],
        Message::KeySignature { sharps_flats, minor } => seq![
            0xFFu8,
            0x59,
            0x02,
            (sharps_flats as int % 256) as u8,
            if minor {
                1u8
            } else {
                0u8
            },
        ],
        Message::TrackName(name) => seq![0xFFu8, 0x03] + var_len_bytes(length32(name.len())) + name,
        Message::EndOfTrack => seq![0xFFu8, 0x2F, 0x00],
        Message::SysEx(data) => seq![0xF0u8] + var_len_bytes(length32(data.len())) + data
            + seq![0xF7u8],
    }
}

/// The bytes of an event.
pub open spec fn event_bytes(e: Event<Seq<u8>>) -> Seq<u8> {
    var_len_bytes(e.delta as nat) + message_bytes(e.message)
}

/// The bytes of a row of events.
pub open spec fn events_bytes(events: Seq<Event<Seq<char>>>) -> Seq<u8>
    decreases events.len(),
{
    if events.len() == 0 {
        Seq::empty()
    } else {
        events_bytes(events.drop_last()) + event_bytes(encoded_event(events.last()))
    }
}

/// The bytes of a track chunk.
pub open spec fn track_bytes(t: TrackView) -> Seq<u8> {
    let body = events_bytes(t.events);
    seq![0x4Du8, 0x54, 0x72, 0x6B] + be32(length32(body.len())) + body
}

/// The bytes of a row of track chunks.
pub open spec fn tracks_bytes(ts: Seq<TrackView>) -> Seq<u8>
    decreases ts.len(),
{
    if ts.len() == 0 {
        Seq::empty()
    } else {
        tracks_bytes(ts.drop_last()) + track_bytes(ts.last())
    }
}

/// The number of a format.
pub open spec fn format_number(f: MidiFormat) -> nat {
    match f {
        MidiFormat::SingleTrack => 0,
        MidiFormat::MultiTrack => 1,
        MidiFormat::MultiPattern => 2,
    }
}

/// The bytes of the header chunk.
pub open spec fn header_bytes(h: MidiHeader, tracks: nat) -> Seq<u8> {
    seq![0x4Du8, 0x54, 0x68, 0x64, 0, 0, 0, 6] + be16(format_number(h.format)) + be16(
        tracks % 65536,
    ) + be16(h.ticks_per_quarter as nat)
}

/// The bytes of a file.
pub open spec fn file_bytes(f: FileView) -> Seq<u8> {
    header_bytes(f.header, f.tracks.len()) + tracks_bytes(f.tracks)
}

/// Whether a number fits in four groups of seven bits.
pub open spec fn fits_var_len(n: nat) -> bool {
    n < 0x1000_0000
}

/// Whether a message can be written.
pub open spec fn writable_message(m: Message<Seq<u8>>) -> bool {
    match m {
        Message::PitchBend { channel, value } => value <= 24575,
        Message::TrackName(name) => fits_var_len(length32(name.len())),
        Message::SysEx(data) => fits_var_len(length32(data.len())),
        _ => true,
    }
}

/// Whether every event of a row can be written.
pub open spec fn writable_events(events: Seq<Event<Seq<char>>>) -> bool {
    forall|i: int|
        0 <= i < events.len() ==> fits_var_len((#[trigger] events[i]).delta as nat)
            && writable_message(encoded_message(events[i].message))
}

/// Whether a file can be written.
pub open spec fn writable(f: FileView) -> bool {
    forall|i: int| 0 <= i < f.tracks.len() ==> writable_events((#[trigger] f.tracks[i]).events)
}

/// A note's beginning or end at its tick.
#[derive(Clone, Copy, PartialEq, Eq, Structural)]
pub struct NoteEdge {
    pub tick: u32,
    pub on: bool,
    pub channel: u8,
    pub pitch: u8,
    pub velocity: u8,
}

/// Note edges are ordered by their ticks.
impl Keyed for NoteEdge {
    open spec fn key(&self) -> int {
        self.tick as int
    }

    fn sort_key(&self) -> (k: u64) {
        self.tick as u64
    }
}

/// The edge at which a note begins.
pub open spec fn opening(ev: NoteEvent) -> NoteEdge {
    NoteEdge {
        tick: ev.start,
        on: true,
        channel: ev.channel,
        pitch: ev.pitch,
        velocity: ev.velocity,
    }
}

/// The edge at which a note ends.
pub open spec fn closing(ev: NoteEvent) -> NoteEdge {
    NoteEdge {
        tick: (ev.start + ev.duration) as u32,
        on: false,
        channel: ev.channel,
        pitch: ev.pitch,
        velocity: 0,
    }
}

/// The edges of a row of notes, each note's beginning before its end.
pub open spec fn note_edges(events: Seq<NoteEvent>) -> Seq<NoteEdge>
    decreases events.len(),
{
    if events.len() == 0 {
        Seq::empty()
    } else {
        note_edges(events.drop_last()).push(opening(events.last())).push(closing(events.last()))
    }
}

/// The message of a note edge.
pub open spec fn edge_message(e: NoteEdge) -> Message<Seq<char>> {
    if e.on {
        Message::NoteOn { channel: e.channel, pitch: e.pitch, velocity: e.velocity }
    } else {
        Message::NoteOff { channel: e.channel, pitch: e.pitch, velocity: e.velocity }
    }
}

/// The event of the `i`th edge, timed from the edge before it.
pub open spec fn edge_event(edges: Seq<NoteEdge>, i: int) -> Event<Seq<char>> {
    let last = if i == 0 {
        0int
    } else {
        edges[i - 1].tick as int
    };
    Event {
        delta: (if edges[i].tick >= last {
            edges[i].tick - last
        } else {
            0
        }) as u32,
        message: edge_message(edges[i]),
    }
}

/// The events of a row of edges.
pub open spec fn edge_events(edges: Seq<NoteEdge>) -> Seq<Event<Seq<char>>> {
    Seq::new(edges.len(), |i: int| edge_event(edges, i))
}

/// The name under which a key is written into a track.
pub open spec fn key_name(s: Scale) -> Seq<char> {
    class_name(s.root.0 as int % 12) + " "@ + mode_identifier(s.mode)
}

/// The events in front of a phrase's notes: tempo, time signature and key.
pub open spec fn opening_events(p: PhraseView) -> Seq<Event<Seq<char>>> {
    let fixed = seq![
        Event { delta: 0, message: Message::Tempo((60_000_000int / p.tempo as int) as u32) },
        Event {
            delta: 0,
            message: Message::TimeSignature {
                numerator: p.time_sig.numerator,
                denominator: p.time_sig.denominator,
                clocks: 24,
                notated_32nds: 8,
            },
        },
    ];
    match p.key {
        Some(s) => fixed.push(Event { delta: 0, message: Message::TrackName(key_name(s)) }),
        None => fixed,
    }
}

/// The event that closes a track.
pub open spec fn end_event() -> Event<Seq<char>> {
    Event { delta: 0, message: Message::EndOfTrack }
}

/// The track of a phrase.
pub open spec fn phrase_track(p: PhraseView) -> TrackView {
    TrackView {
        name: Some(p.label),
        events: (opening_events(p) + edge_events(sorted(note_edges(p.events)))).push(end_event()),
    }
}

/// The single-track file of a phrase.
pub open spec fn phrase_file(p: PhraseView) -> FileView {
    FileView {
        header: MidiHeader { format: MidiFormat::SingleTrack, ticks_per_quarter: 480 },
        tracks: seq![phrase_track(p)],
    }
}

/// The track that sets the tempo of several phrases.
pub open spec fn tempo_track(tempo: u16) -> TrackView {
    TrackView {
        name: Some("Tempo"@),
        events: seq![
            Event { delta: 0, message: Message::Tempo((60_000_000int / tempo as int) as u32) },
            end_event(),
        ],
    }
}

/// The file of several phrases: the first one's tempo, then a track for each.
pub open spec fn phrases_file(ps: Seq<PhraseView>) -> FileView {
    FileView {
        header: MidiHeader { format: MidiFormat::MultiTrack, ticks_per_quarter: 480 },
        tracks: if ps.len() == 0 {
            Seq::empty()
        } else {
            seq![tempo_track(ps[0].tempo)] + ps.map_values(|p: PhraseView| phrase_track(p))
        },
    }
}

/// Whether a phrase can be turned into a file: it has a tempo, and its notes'
/// ends can be counted.
pub open spec fn has_track(p: PhraseView) -> bool {
    p.tempo != 0 && ends_fit(p.events)
}

/// The contents of some phrases.
pub open spec fn phrases_view(ps: Seq<Phrase>) -> Seq<PhraseView> {
    ps.map_values(|p: Phrase| p@)
}

proof fn lemma_push_all(a: Seq<u8>, b: Seq<u8>, c: Seq<u8>)
    ensures
        (a + b) + c == a + (b + c),
{
    assert((a + b) + c == a + (b + c));
}

pub struct MidiWriter;

impl MidiWriter {
    pub const TICKS_PER_QUARTER: u16 = 480;

    /// Appends bytes.
    fn extend(out: &mut Vec<u8>, bytes: &[u8])
        ensures
            final(out)@ == old(out)@ + bytes@,
    {
        for i in 0..bytes.len()
            invariant
                out@ == old(out)@ + bytes@.take(i as int),
        {
            out.push(bytes[i]);
            assert(old(out)@ + bytes@.take(i + 1) == (old(out)@ + bytes@.take(i as int)).push(
                bytes@[i as int],
            ));
        }
        assert(bytes@.take(bytes@.len() as int) == bytes@);
    }

    fn write_be16(out: &mut Vec<u8>, n: u16)
        ensures
            final(out)@ == old(out)@ + be16(n as nat),
    {
        out.push((n / 256) as u8);
        out.push((n % 256) as u8);
        assert(out@ == old(out)@ + be16(n as nat));
    }

    fn write_be32(out: &mut Vec<u8>, n: u32)
        ensures
            final(out)@ == old(out)@ + be32(n as nat),
    {
        out.push((n / 0x100_0000) as u8);
        out.push((n / 0x1_0000 % 256) as u8);
        out.push((n / 256 % 256) as u8);
        out.push((n % 256) as u8);
        assert(out@ == old(out)@ + be32(n as nat));
    }

    /// Appends a length: seven bits to a byte, the highest first, in as few bytes as it
    /// takes.
    pub fn write_var_len(out: &mut Vec<u8>, val: u32)
        requires
            fits_var_len(val as nat),
        ensures
            final(out)@ == old(out)@ + var_len_bytes(val as nat),
    {
        proof {
            reveal_with_fuel(leading_groups, 4);
        }
        if val >= 0x20_0000 {
            out.push((val / 0x20_0000 % 128 + 128) as u8);
        }
        if val >= 0x4000 {
            out.push((val / 0x4000 % 128 + 128) as u8);
        }
        if val >= 0x80 {
            out.push((val / 0x80 % 128 + 128) as u8);
        }
        out.push((val % 128) as u8);
        assert(out@ == old(out)@ + var_len_bytes(val as nat));
    }

    /// The exponent of the greatest power of two that is no greater.
    fn log2_byte(n: u8) -> (r: u8)
        ensures
            r as nat == floor_log2(n as nat),
    {
        let mut left: u8 = n;
        let mut e: u8 = 0;
        while left >= 2
            invariant
                floor_log2(n as nat) == e + floor_log2(left as nat),
                e + left <= n,
            decreases left,
        {
            left = left / 2;
            e = e + 1;
        }
        e
    }

    fn encode_message(out: &mut Vec<u8>, msg: &MidiMessage)
        requires
            writable_message(encoded_message(msg@)),
        ensures
            final(out)@ == old(out)@ + message_bytes(encoded_message(msg@)),
    {
        match msg {
            MidiMessage::NoteOn { channel, pitch, velocity } => {
                out.push(0x90 + *channel % 16);
                out.push(*pitch);
                out.push(*velocity);
            },
            MidiMessage::NoteOff { channel, pitch, velocity } => {
                out.push(0x80 + *channel % 16);
                out.push(*pitch);
                out.push(*velocity);
            },
            MidiMessage::ProgramChange { channel, program } => {
                out.push(0xC0 + *channel % 16);
                out.push(*program);
            },
            MidiMessage::ControlChange { channel, controller, value } => {
                out.push(0xB0 + *channel % 16);
                out.push(*controller);
                out.push(*value);
            },
            MidiMessage::PitchBend { channel, value } => {
                let v: u32 = (*value as i32 + 8192 + 65536) as u32;
                out.push(0xE0 + *channel % 16);
                out.push((v % 128) as u8);
                out.push((v / 128 % 128) as u8);
            },
            MidiMessage::Tempo(m) => {
                out.push(0xFF);
                out.push(0x51);
                out.push(0x03);
                out.push((*m / 0x1_0000 % 256) as u8);
                out.push((*m / 256 % 256) as u8);
                out.push((*m % 256) as u8);
            },
            MidiMessage::TimeSignature { numerator, denominator, clocks, notated_32nds } => {
                out.push(0xFF);
                out.push(0x58);
                out.push(0x04);
                out.push(*numerator);
                out.push(Self::log2_byte(*denominator));
                out.push(*clocks);
                out.push(*notated_32nds);
            },
            MidiMessage::KeySignature { sharps_flats, minor } => {
                out.push(0xFF);
                out.push(0x59);
                out.push(0x02);
                out.push(
                    if *sharps_flats < 0 {
                        (*sharps_flats as i16 + 256) as u8
                    } else {
                        *sharps_flats as u8
                    },
                );
                out.push(
                    if *minor {
                        1
                    } else {
                        0
                    },
                );
            },
            MidiMessage::TrackName(name) => {
                out.push(0xFF);
                out.push(0x03);
                let bytes = name.as_str().as_bytes();
                let ghost front = out@;
                Self::write_var_len(out, (bytes.len() as u64 % 0x1_0000_0000) as u32);
                Self::extend(out, bytes);
                assert(front == old(out)@ + seq![0xFFu8, 0x03]);
            },
            MidiMessage::EndOfTrack => {
                out.push(0xFF);
                out.push(0x2F);
                out.push(0x00);
            },
            MidiMessage::SysEx(data) => {
                out.push(0xF0);
                let ghost front = out@;
                Self::write_var_len(out, (data.len() as u64 % 0x1_0000_0000) as u32);
                Self::extend(out, data.as_slice());
                out.push(0xF7);
                assert(front == old(out)@ + seq![0xF0u8]);
            },
        }
        assert(out@ == old(out)@ + message_bytes(encoded_message(msg@)));
    }

    fn encode_track(track: &MidiTrack) -> (r: Vec<u8>)
        requires
            writable_events(track@.events),
        ensures
            r@ == events_bytes(track@.events),
    {
        let mut out: Vec<u8> = Vec::new();
        let ghost events = track@.events;
        assert(events.take(0) == Seq::<Event<Seq<char>>>::empty());
        for i in 0..track.events.len()
            invariant
                events == events_view(track.events@),
                writable_events(events),
                out@ == events_bytes(events.take(i as int)),
        {
            let ghost before = out@;
            let ev = &track.events[i];
            assert(events[i as int] == ev@);
            assert(events.take(i + 1).drop_last() == events.take(i as int));
            Self::write_var_len(&mut out, ev.delta);
            Self::encode_message(&mut out, &ev.message);
            proof {
                lemma_push_all(
                    before,
                    var_len_bytes(ev.delta as nat),
                    message_bytes(encoded_message(ev.message@)),
                );
            }
        }
        assert(events.take(events.len() as int) == events);
        out
    }

    /// The bytes of a file.
    pub fn to_bytes(file: &MidiFile) -> (r: Vec<u8>)
        requires
            writable(file@),
        ensures
            r@ == file_bytes(file@),
    {
        let mut out: Vec<u8> = Vec::new();
        Self::extend(&mut out, &[0x4D, 0x54, 0x68, 0x64, 0, 0, 0, 6]);
        let number: u16 = match file.header.format {
            MidiFormat::SingleTrack => 0,
            MidiFormat::MultiTrack => 1,
            MidiFormat::MultiPattern => 2,
        };
        Self::write_be16(&mut out, number);
        Self::write_be16(&mut out, (file.tracks.len() as u64 % 65536) as u16);
        Self::write_be16(&mut out, file.header.ticks_per_quarter);
        let ghost front = out@;
        let ghost tracks = file@.tracks;
        assert(front == header_bytes(file.header, tracks.len()));
        assert(tracks.take(0) == Seq::<TrackView>::empty());
        assert(front == front + tracks_bytes(tracks.take(0)));
        for i in 0..file.tracks.len()
            invariant
                tracks == tracks_view(file.tracks@),
                writable(file@),
                tracks == file@.tracks,
                out@ == front + tracks_bytes(tracks.take(i as int)),
        {
            let ghost before = out@;
            let track = &file.tracks[i];
            assert(tracks[i as int] == track@);
            let body = Self::encode_track(track);
            Self::extend(&mut out, &[0x4D, 0x54, 0x72, 0x6B]);
            Self::write_be32(&mut out, (body.len() as u64 % 0x1_0000_0000) as u32);
            Self::extend(&mut out, &body);
            proof {
                assert(tracks.take(i + 1).drop_last() == tracks.take(i as int));
                assert(out@ == before + track_bytes(track@));
                lemma_push_all(front, tracks_bytes(tracks.take(i as int)), track_bytes(track@));
            }
        }
        assert(tracks.take(tracks.len() as int) == tracks);
        out
    }

    /// Appends an event.
    fn add(events: &mut Vec<MidiEvent>, delta: u32, message: MidiMessage)
        ensures
            events_view(final(events)@) == events_view(old(events)@).push(
                Event { delta, message: message@ },
            ),
    {
        broadcast use events_view_push;

        events.push(MidiEvent { delta, message });
    }

    /// The track of a phrase.
    fn track_of(phrase: &Phrase) -> (r: MidiTrack)
        requires
            has_track(phrase@),
        ensures
            r@ == phrase_track(phrase@),
    {
        let micros: u32 = 60_000_000u32 / phrase.tempo as u32;
        let mut events: Vec<MidiEvent> = Vec::new();
        assert(events_view(events@) == Seq::<Event<Seq<char>>>::empty());
        Self::add(&mut events, 0, MidiMessage::Tempo(micros));
        Self::add(
            &mut events,
            0,
            MidiMessage::TimeSignature {
                numerator: phrase.time_sig.numerator,
                denominator: phrase.time_sig.denominator,
                clocks: 24,
                notated_32nds: 8,
            },
        );
        if let Some(key) = &phrase.key {
            let mut name = key.root.name().to_owned();
            name.append(" ");
            name.append(key.mode.identifier());
            Self::add(&mut events, 0, MidiMessage::TrackName(name));
        }
        let ghost front = opening_events(phrase@);
        assert(events_view(events@) == front);

        let mut edges: Vec<NoteEdge> = Vec::new();
        assert(phrase.events@.take(0) == Seq::<NoteEvent>::empty());
        for i in 0..phrase.events.len()
            invariant
                ends_fit(phrase.events@),
                edges@ == note_edges(phrase.events@.take(i as int)),
        {
            let ev = phrase.events[i];
            assert(phrase.events@.take(i + 1).drop_last() == phrase.events@.take(i as int));
            edges.push(
                NoteEdge {
                    tick: ev.start,
                    on: true,
                    channel: ev.channel,
                    pitch: ev.pitch,
                    velocity: ev.velocity,
                },
            );
            edges.push(
                NoteEdge {
                    tick: ev.start + ev.duration,
                    on: false,
                    channel: ev.channel,
                    pitch: ev.pitch,
                    velocity: 0,
                },
            );
        }
        assert(phrase.events@.take(phrase.events@.len() as int) == phrase.events@);
        let edges = stable_sort(edges);
        let ghost model = edge_events(edges@);
        assert(front + model.take(0) == front);
        let mut last: u32 = 0;
        for i in 0..edges.len()
            invariant
                model == edge_events(edges@),
                last as int == (if i == 0 {
                    0int
                } else {
                    edges@[i - 1].tick as int
                }),
                events_view(events@) == front + model.take(i as int),
        {
            let e = edges[i];
            let message = if e.on {
                MidiMessage::NoteOn { channel: e.channel, pitch: e.pitch, velocity: e.velocity }
            } else {
                MidiMessage::NoteOff { channel: e.channel, pitch: e.pitch, velocity: e.velocity }
            };
            Self::add(&mut events, e.tick.saturating_sub(last), message);
            last = e.tick;
            assert(events_view(events@) == front + model.take(i + 1));
        }
        assert(model.take(model.len() as int) == model);
        Self::add(&mut events, 0, MidiMessage::EndOfTrack);
        MidiTrack { name: Some(phrase.label.clone()), events }
    }

    /// Whether a phrase can be turned into a file.
    pub fn takes(phrase: &Phrase) -> (r: bool)
        ensures
            r == has_track(phrase@),
    {
        if phrase.tempo == 0 {
            return false;
        }
        for i in 0..phrase.events.len()
            invariant
                forall|k: int|
                    0 <= k < i ==> (#[trigger] phrase.events@[k]).start
                        + phrase.events@[k].duration <= u32::MAX,
        {
            let ev = phrase.events[i];
            if ev.start > u32::MAX - ev.duration {
                assert(phrase.events@[i as int].start + phrase.events@[i as int].duration
                    > u32::MAX);
                return false;
            }
        }
        true
    }

    /// Whether a message can be written.
    fn message_fits(msg: &MidiMessage) -> (r: bool)
        ensures
            r == writable_message(encoded_message(msg@)),
    {
        match msg {
            MidiMessage::PitchBend { value, .. } => *value <= 24575,
            MidiMessage::TrackName(name) => {
                (name.as_str().as_bytes().len() as u64 % 0x1_0000_0000) < 0x1000_0000
            },
            MidiMessage::SysEx(data) => (data.len() as u64 % 0x1_0000_0000) < 0x1000_0000,
            _ => true,
        }
    }

    /// Whether a file can be written: its delta times, names and payloads are not
    /// too long.
    pub fn fits(file: &MidiFile) -> (r: bool)
        ensures
            r == writable(file@),
    {
        for i in 0..file.tracks.len()
            invariant
                forall|k: int| 0 <= k < i ==> writable_events((#[trigger] file@.tracks[k]).events),
        {
            let track = &file.tracks[i];
            let ghost events = file@.tracks[i as int].events;
            assert(events == events_view(track.events@));
            for j in 0..track.events.len()
                invariant
                    events == events_view(track.events@),
                    i < file.tracks@.len(),
                    events == file@.tracks[i as int].events,
                    forall|k: int|
                        0 <= k < j ==> fits_var_len((#[trigger] events[k]).delta as nat)
                            && writable_message(encoded_message(events[k].message)),
            {
                let ev = &track.events[j];
                assert(events[j as int] == ev@);
                if ev.delta >= 0x1000_0000 || !Self::message_fits(&ev.message) {
                    assert(!writable_events(events));
                    assert(!writable(file@));
                    return false;
                }
            }
        }
        true
    }

    /// The single-track file of a phrase.
    pub fn from_phrase(phrase: &Phrase) -> (r: MidiFile)
        requires
            has_track(phrase@),
        ensures
            r@ == phrase_file(phrase@),
    {
        broadcast use tracks_view_push;

        let mut tracks: Vec<MidiTrack> = Vec::new();
        tracks.push(Self::track_of(phrase));
        let r = MidiFile {
            header: MidiHeader {
                format: MidiFormat::SingleTrack,
                ticks_per_quarter: Self::TICKS_PER_QUARTER,
            },
            tracks,
        };
        assert(r@.tracks == seq![phrase_track(phrase@)]);
        r
    }

    /// The file of several phrases: the first one's tempo, then a track for each.
    pub fn from_phrases(phrases: &[Phrase]) -> (r: MidiFile)
        requires
            forall|i: int| 0 <= i < phrases@.len() ==> has_track((#[trigger] phrases@[i])@),
        ensures
            r@ == phrases_file(phrases_view(phrases@)),
    {
        broadcast use tracks_view_push;

        let header = MidiHeader {
            format: MidiFormat::MultiTrack,
            ticks_per_quarter: Self::TICKS_PER_QUARTER,
        };
        let mut tracks: Vec<MidiTrack> = Vec::new();
        assert(tracks_view(tracks@) == Seq::<TrackView>::empty());
        if phrases.len() == 0 {
            return MidiFile { header, tracks };
        }
        assert(has_track(phrases@[0]@));
        let micros: u32 = 60_000_000u32 / phrases[0].tempo as u32;
        let mut events: Vec<MidiEvent> = Vec::new();
        assert(events_view(events@) == Seq::<Event<Seq<char>>>::empty());
        Self::add(&mut events, 0, MidiMessage::Tempo(micros));
        Self::add(&mut events, 0, MidiMessage::EndOfTrack);
        assert(events_view(events@) == tempo_track(phrases[0].tempo).events);
        tracks.push(MidiTrack { name: Some("Tempo".to_owned()), events });
        let ghost model = phrases_file(phrases_view(phrases@)).tracks;
        assert(model.len() == phrases@.len() + 1);
        assert(tracks_view(tracks@) == model.take(1));
        for i in 0..phrases.len()
            invariant
                forall|i: int| 0 <= i < phrases@.len() ==> has_track((#[trigger] phrases@[i])@),
                phrases@.len() > 0,
                model == phrases_file(phrases_view(phrases@)).tracks,
                model.len() == phrases@.len() + 1,
                tracks_view(tracks@) == model.take(i + 1),
        {
            assert(has_track(phrases@[i as int]@));
            let t = Self::track_of(&phrases[i]);
            let ghost before = tracks@;
            tracks.push(t);
            assert(model[i + 1] == phrase_track(phrases@[i as int]@));
            assert(tracks_view(tracks@) == tracks_view(before).push(t@));
            assert(model.take(i + 1).push(t@) == model.take(i + 2));
        }
        assert(model.take(model.len() as int) == model);
        MidiFile { header, tracks }
    }
}

/// The microseconds that an event lets a quarter last, where it sets the tempo.
pub open spec fn micros_of(e: Event<Seq<char>>) -> Option<int> {
    match e.message {
        Message::Tempo(m) => Some(m as int),
        _ => None,
    }
}

/// A phrase's track opens with its tempo: as many quarters of the microseconds that it
/// states as the phrase has beats per minute last a minute, to within one microsecond a
/// quarter. A faster phrase never gets longer quarters. The file of several phrases
/// opens with the first one's tempo in the same way.
pub proof fn tempo_lasts_a_minute(p: PhraseView, q: PhraseView)
    requires
        p.tempo != 0,
        q.tempo != 0,
    ensures
        ({
            let a = phrase_track(p).events[0];
            let b = phrase_track(q).events[0];
            &&& phrase_track(p).events.len() > 0 && a.delta == 0
            &&& micros_of(a) matches Some(m) && m * p.tempo <= 60_000_000 < (m + 1) * p.tempo
            &&& p.tempo <= q.tempo ==> (micros_of(b) matches Some(n) && micros_of(a)->Some_0 >= n)
            &&& phrases_file(seq![p]).tracks.len() == 2
            &&& phrases_file(seq![p]).tracks[0] == tempo_track(p.tempo)
            &&& tempo_track(p.tempo).events.len() == 2
            &&& tempo_track(p.tempo).events[0] == a
            &&& tempo_track(p.tempo).events[1] == phrase_track(p).events.last()
        }),
{
    let (t, u) = (p.tempo as int, q.tempo as int);
    let (m, n) = (60_000_000int / t, 60_000_000int / u);
    vstd::arithmetic::div_mod::lemma_fundamental_div_mod(60_000_000, t);
    assert(0 <= m <= 60_000_000) by (nonlinear_arith)
        requires
            t >= 1,
            m == 60_000_000int / t,
    ;
    assert(0 <= n <= 60_000_000) by (nonlinear_arith)
        requires
            u >= 1,
            n == 60_000_000int / u,
    ;
    assert(t * m == m * t) by (nonlinear_arith);
    assert((m + 1) * t == m * t + t) by (nonlinear_arith);
    if t <= u {
        vstd::arithmetic::div_mod::lemma_div_is_ordered_by_denominator(60_000_000, t, u);
    }
    assert(phrase_track(p).events[0] == opening_events(p)[0]);
    assert(phrase_track(q).events[0] == opening_events(q)[0]);
}

/// The ticks that have passed after the first `n` events.
pub open spec fn elapsed(events: Seq<Event<Seq<char>>>, n: int) -> int
    decreases n,
{
    if n <= 0 {
        0
    } else {
        elapsed(events, n - 1) + events[n - 1].delta
    }
}

/// The messages of the events from `a` up to `b`, each at its tick from the start.
pub open spec fn timed_messages(events: Seq<Event<Seq<char>>>, a: int, b: int) -> Seq<
    (int, Message<Seq<char>>),
> {
    Seq::new((b - a) as nat, |k: int| (elapsed(events, a + k + 1), events[a + k].message))
}

/// Whether two messages begin and end a note: at its start, and when its duration has
/// passed.
pub open spec fn plays_note(
    on: (int, Message<Seq<char>>),
    off: (int, Message<Seq<char>>),
    ev: NoteEvent,
) -> bool {
    &&& on.0 == ev.start
    &&& on.1 matches Message::NoteOn { channel, pitch, velocity } && channel == ev.channel && pitch
        == ev.pitch && velocity == ev.velocity
    &&& off.0 == ev.start + ev.duration
    &&& off.1 matches Message::NoteOff { channel, pitch, velocity } && channel == ev.channel && pitch
        == ev.pitch && velocity == 0
}

proof fn lemma_elapsed_front(events: Seq<Event<Seq<char>>>, n: int)
    requires
        0 <= n <= events.len(),
        forall|i: int| 0 <= i < n ==> (#[trigger] events[i]).delta == 0,
    ensures
        elapsed(events, n) == 0,
    decreases n,
{
    if n > 0 {
        lemma_elapsed_front(events, n - 1);
        assert(events[n - 1].delta == 0);
    }
}

proof fn lemma_elapsed_edges(
    events: Seq<Event<Seq<char>>>,
    a: int,
    edges: Seq<NoteEdge>,
    i: int,
)
    requires
        0 <= a,
        a + edges.len() <= events.len(),
        elapsed(events, a) == 0,
        forall|k: int| 0 <= k < edges.len() ==> events[a + k] == #[trigger] edge_event(edges, k),
        forall|j: int, k: int|
            0 <= j < k < edges.len() ==> (#[trigger] edges[j]).tick <= (#[trigger] edges[k]).tick,
        0 <= i < edges.len(),
    ensures
        elapsed(events, a + i + 1) == edges[i].tick,
    decreases i,
{
    assert(events[a + i] == edge_event(edges, i));
    if i > 0 {
        lemma_elapsed_edges(events, a, edges, i - 1);
        assert(edges[i - 1].tick <= edges[i].tick);
    }
}

proof fn lemma_edge_pairs(events: Seq<NoteEvent>, i: int)
    requires
        0 <= i < events.len(),
    ensures
        note_edges(events).len() == 2 * events.len(),
        note_edges(events)[2 * i] == opening(events[i]),
        note_edges(events)[2 * i + 1] == closing(events[i]),
    decreases events.len(),
{
    let init = events.drop_last();
    if i < events.len() - 1 {
        lemma_edge_pairs(init, i);
        assert(init[i] == events[i]);
    } else if init.len() > 0 {
        lemma_edge_pairs(init, 0);
    } else {
        assert(note_edges(init) == Seq::<NoteEdge>::empty());
    }
}

/// A phrase's track plays its notes: behind the tempo, the meter and the key, which all
/// stand at tick zero, it holds for every note a message that begins it at its start and
/// one that ends it when its duration has passed, and no others; then it ends. Its name
/// is the phrase's, and it counts as many ticks to a quarter as notes do.
pub proof fn track_plays_its_notes(p: PhraseView)
    requires
        has_track(p),
    ensures
        ({
            let t = phrase_track(p);
            let a: int = if p.key is Some {
                3
            } else {
                2
            };
            let n = p.events.len() as int;
            &&& t.name == Some(p.label)
            &&& t.events.len() == a + 2 * n + 1
            &&& forall|i: int| 0 <= i < a ==> (#[trigger] t.events[i]).delta == 0
            &&& t.events[1].message matches Message::TimeSignature {
                numerator,
                denominator,
                clocks,
                notated_32nds,
            } && numerator == p.time_sig.numerator && denominator == p.time_sig.denominator
                && clocks == 24 && notated_32nds == 8
            &&& p.key matches Some(key) ==> t.events[2].message == Message::TrackName(
                class_name(key.root.0 as int % 12) + " "@ + mode_identifier(key.mode),
            )
            &&& exists|edges: Seq<(int, Message<Seq<char>>)>|
                edges.len() == 2 * n && (forall|i: int|
                    0 <= i < n ==> plays_note(
                        edges[2 * i],
                        edges[2 * i + 1],
                        #[trigger] p.events[i],
                    )) && #[trigger] edges.to_multiset() == timed_messages(
                    t.events,
                    a,
                    a + 2 * n,
                ).to_multiset()
            &&& t.events.last().message == Message::<Seq<char>>::EndOfTrack
            &&& t.events.last().delta == 0
            &&& phrase_file(p).tracks == seq![t]
            &&& phrase_file(p).header.ticks_per_quarter == 480
            &&& phrase_file(p).header.format == MidiFormat::SingleTrack
        }),
{
    let t = phrase_track(p);
    let a = opening_events(p).len() as int;
    let n = p.events.len() as int;
    let pairs = note_edges(p.events);
    let edges = sorted(pairs);
    crate::sorting::sorted_is_ordered(pairs);
    if n > 0 {
        lemma_edge_pairs(p.events, 0);
    }
    assert(pairs.len() == 2 * n);
    assert forall|i: int| 0 <= i < a implies (#[trigger] t.events[i]).delta == 0 by {
        assert(t.events[i] == opening_events(p)[i]);
    }
    lemma_elapsed_front(t.events, a);
    assert forall|k: int| 0 <= k < edges.len() implies t.events[a + k] == #[trigger] edge_event(
        edges,
        k,
    ) by {
        assert(t.events[a + k] == edge_events(edges)[k]);
    }
    assert forall|j: int, k: int| 0 <= j < k < edges.len() implies (#[trigger] edges[j]).tick <= (
    #[trigger] edges[k]).tick by {
        assert(edges[j].key() <= edges[k].key());
    }
    let f = |e: NoteEdge| (e.tick as int, edge_message(e));
    let timed = timed_messages(t.events, a, a + 2 * n);
    assert(timed == edges.map_values(f)) by {
        assert forall|i: int| 0 <= i < edges.len() implies timed[i] == edges.map_values(f)[i] by {
            lemma_elapsed_edges(t.events, a, edges, i);
            assert(t.events[a + i] == edge_event(edges, i));
        }
    }
    crate::sorting::mapping_keeps_arrangement(pairs, edges, f);
    let plain = pairs.map_values(f);
    assert forall|i: int| 0 <= i < n implies plays_note(
        plain[2 * i],
        plain[2 * i + 1],
        #[trigger] p.events[i],
    ) by {
        lemma_edge_pairs(p.events, i);
        assert(p.events[i].start + p.events[i].duration <= u32::MAX);
    }
    assert(plain.to_multiset() == timed.to_multiset());
    assert(t.events[1] == opening_events(p)[1]);
    assert(p.key is Some ==> t.events[2] == opening_events(p)[2]);
}

/// The file of several phrases holds the track of each, as its own file does, behind one
/// that sets the first one's tempo; they sound together.
pub proof fn tracks_of_phrases_are_their_own(ps: Seq<PhraseView>, i: int)
    requires
        0 <= i < ps.len(),
    ensures
        phrases_file(ps).header.format == MidiFormat::MultiTrack,
        phrases_file(ps).header.ticks_per_quarter == phrase_file(ps[i]).header.ticks_per_quarter,
        phrases_file(ps).tracks.len() == ps.len() + 1,
        phrases_file(ps).tracks[i + 1] == phrase_file(ps[i]).tracks[0],
        phrases_file(ps).tracks[0] == phrases_file(seq![ps[0]]).tracks[0],
        phrases_file(Seq::empty()).tracks.len() == 0,
{
}

/// Numbers stand in a file with their most significant byte first.
pub proof fn bytes_come_highest_first(n: nat)
    ensures
        be16(n).len() == 2,
        n < 0x1_0000 ==> be16(n)[0] * 256 + be16(n)[1] == n,
        be32(n).len() == 4,
        n < 0x1_0000_0000 ==> ((be32(n)[0] * 256 + be32(n)[1]) * 256 + be32(n)[2]) * 256
            + be32(n)[3] == n,
{
}

/// The number that groups of seven bits come to, most significant first.
pub open spec fn groups_value(s: Seq<u8>) -> nat
    decreases s.len(),
{
    if s.len() == 0 {
        0
    } else {
        groups_value(s.drop_last()) * 128 + (s.last() % 128) as nat
    }
}

proof fn lemma_leading_groups(n: nat)
    ensures
        groups_value(leading_groups(n)) == n,
        forall|i: int| 0 <= i < leading_groups(n).len() ==> (#[trigger] leading_groups(n)[i]) >= 128,
        n > 0 ==> leading_groups(n).len() > 0 && leading_groups(n)[0] > 128,
    decreases n,
{
    if n > 0 {
        let s = leading_groups(n / 128);
        lemma_leading_groups(n / 128);
        let b = (n % 128 + 128) as u8;
        assert(s.push(b).drop_last() == s);
        assert forall|i: int| 0 <= i < leading_groups(n).len() implies (#[trigger] leading_groups(
            n,
        )[i]) >= 128 by {
            if i < s.len() {
                assert(leading_groups(n)[i] == s[i]);
            }
        }
        if n / 128 > 0 {
            assert(leading_groups(n)[0] == s[0]);
        }
    }
}

/// A length stands in groups of seven bits that come to it. All bytes but the last have
/// their high bit set, and the first one holds something unless it is alone.
pub proof fn length_stands_in_groups(n: nat)
    ensures
        var_len_bytes(n).len() > 0,
        groups_value(var_len_bytes(n)) == n,
        var_len_bytes(n).last() < 128,
        forall|i: int|
            0 <= i < var_len_bytes(n).len() - 1 ==> (#[trigger] var_len_bytes(n)[i]) >= 128,
        n >= 128 ==> var_len_bytes(n).len() > 1 && var_len_bytes(n)[0] > 128,
{
    let s = leading_groups(n / 128);
    lemma_leading_groups(n / 128);
    assert(var_len_bytes(n).drop_last() == s);
    assert forall|i: int| 0 <= i < var_len_bytes(n).len() - 1 implies (#[trigger] var_len_bytes(
        n,
    )[i]) >= 128 by {
        assert(var_len_bytes(n)[i] == s[i]);
    }
    if n / 128 > 0 {
        assert(var_len_bytes(n)[0] == s[0]);
    }
}

/// The message of a channel stands under its kind in the high half of its first byte and
/// its channel in the low one, with its data in the order of the standard: the key and
/// the velocity, the program, the controller and its value, and the fourteen bits of a
/// bend, the low seven first, where the middle stands for no bend.
pub proof fn channel_messages_follow_the_standard(m: Message<Seq<u8>>)
    ensures
        ({
            let b = message_bytes(m);
            &&& m matches Message::NoteOff { channel, pitch, velocity } ==> b.len() == 3 && b[0] / 16
                == 0x8 && b[0] % 16 == channel % 16 && b[1] == pitch && b[2] == velocity
            &&& m matches Message::NoteOn { channel, pitch, velocity } ==> b.len() == 3 && b[0] / 16
                == 0x9 && b[0] % 16 == channel % 16 && b[1] == pitch && b[2] == velocity
            &&& m matches Message::ControlChange { channel, controller, value } ==> b.len() == 3
                && b[0] / 16 == 0xB && b[0] % 16 == channel % 16 && b[1] == controller && b[2]
                == value
            &&& m matches Message::ProgramChange { channel, program } ==> b.len() == 2 && b[0] / 16
                == 0xC && b[0] % 16 == channel % 16 && b[1] == program
            &&& m matches Message::PitchBend { channel, value } ==> b.len() == 3 && b[0] / 16 == 0xE
                && b[0] % 16 == channel % 16 && b[1] < 128 && b[2] < 128 && (-8192 <= value <= 8191
                ==> b[2] * 128 + b[1] - 8192 == value)
        }),
{
}

/// A message about the file stands behind its mark, its kind and the length of what it
/// says: the microseconds of a quarter in three bytes, most significant first; a meter
/// with its unit as a power of two; a key; a name; or nothing, at the end of a track.
pub proof fn file_messages_follow_the_standard(m: Message<Seq<u8>>)
    ensures
        ({
            let b = message_bytes(m);
            &&& m matches Message::Tempo(micros) ==> b.len() == 6 && b[0] == 0xFF && b[1] == 0x51
                && b[2] == 3 && (micros < 0x100_0000 ==> (b[3] * 256 + b[4]) * 256 + b[5] == micros)
            &&& m matches Message::TimeSignature { numerator, denominator, clocks, notated_32nds }
                ==> b.len() == 7 && b[0] == 0xFF && b[1] == 0x58 && b[2] == 4 && b[3] == numerator
                && b[5] == clocks && b[6] == notated_32nds && (denominator > 0 ==> pow2(b[4] as nat)
                <= denominator < 2 * pow2(b[4] as nat))
            &&& m matches Message::KeySignature { sharps_flats, minor } ==> b.len() == 5 && b[0]
                == 0xFF && b[1] == 0x59 && b[2] == 2 && (b[3] == sharps_flats || b[3] - 256
                == sharps_flats) && (b[4] == 1 <==> minor) && b[4] <= 1
            &&& m matches Message::TrackName(name) ==> name.len() < 0x1_0000_0000 ==> b
                == seq![0xFFu8, 0x03] + var_len_bytes(name.len()) + name
            &&& m matches Message::EndOfTrack ==> b == seq![0xFFu8, 0x2F, 0]
            &&& m matches Message::SysEx(data) ==> data.len() < 0x1_0000_0000 ==> b == seq![0xF0u8]
                + var_len_bytes(data.len()) + data + seq![0xF7u8]
        }),
{
    if let Message::TimeSignature { numerator, denominator, clocks, notated_32nds } = m {
        if denominator > 0 {
            lemma_floor_log2(denominator as nat);
            lemma_log2_small(denominator as nat);
        }
    }
}

proof fn lemma_floor_log2(n: nat)
    requires
        n > 0,
    ensures
        pow2(floor_log2(n)) <= n < 2 * pow2(floor_log2(n)),
    decreases n,
{
    if n >= 2 {
        lemma_floor_log2(n / 2);
        vstd::arithmetic::power2::lemma_pow2_unfold(floor_log2(n));
    } else {
        vstd::arithmetic::power2::lemma2_to64();
    }
}

proof fn lemma_log2_small(n: nat)
    ensures
        floor_log2(n) <= n,
    decreases n,
{
    if n >= 2 {
        lemma_log2_small(n / 2);
    }
}

/// A file opens with its head: the mark `MThd`, six bytes that follow, the number of its
/// format, how many tracks it has and how many ticks to a quarter. Every track stands
/// behind the mark `MTrk` and its length, and every event behind the ticks since the one
/// before it.
pub proof fn chunks_follow_the_standard(f: FileView, t: TrackView, e: Event<Seq<u8>>)
    ensures
        ({
            let h = header_bytes(f.header, f.tracks.len());
            &&& h.len() == 14 && h.subrange(0, 4) == seq!['M' as u8, 'T' as u8, 'h' as u8, 'd' as u8]
            &&& h.subrange(4, 8) == be32(6)
            &&& h.subrange(8, 10) == be16(
                match f.header.format {
                    MidiFormat::SingleTrack => 0nat,
                    MidiFormat::MultiTrack => 1nat,
                    MidiFormat::MultiPattern => 2nat,
                },
            )
            &&& f.tracks.len() < 0x1_0000 ==> h.subrange(10, 12) == be16(f.tracks.len())
            &&& h.subrange(12, 14) == be16(f.header.ticks_per_quarter as nat)
        }),
        file_bytes(f) == header_bytes(f.header, f.tracks.len()) + tracks_bytes(f.tracks),
        tracks_bytes(f.tracks.push(t)) == tracks_bytes(f.tracks) + track_bytes(t),
        tracks_bytes(Seq::empty()) == Seq::<u8>::empty(),
        events_bytes(t.events).len() < 0x1_0000_0000 ==> track_bytes(t) == seq![
            'M' as u8,
            'T' as u8,
            'r' as u8,
            'k' as u8,
        ] + be32(events_bytes(t.events).len()) + events_bytes(t.events),
        event_bytes(e) == var_len_bytes(e.delta as nat) + message_bytes(e.message),
{
    assert(f.tracks.push(t).drop_last() == f.tracks);
    let h = header_bytes(f.header, f.tracks.len());
    assert(h.subrange(0, 4) == seq!['M' as u8, 'T' as u8, 'h' as u8, 'd' as u8]);
    assert(h.subrange(4, 8) == be32(6));
    assert(h.subrange(8, 10) == be16(format_number(f.header.format)));
    assert(h.subrange(10, 12) == be16(f.tracks.len() % 65536));
    assert(h.subrange(12, 14) == be16(f.header.ticks_per_quarter as nat));
}

/// The edges of one more note stand behind the others, its beginning before its end; those
/// at one tick keep this order.
pub proof fn edges_follow_the_notes(events: Seq<NoteEvent>, ev: NoteEvent, tick: int)
    requires
        ev.start + ev.duration <= u32::MAX,
    ensures
        ({
            let (a, b) = (note_edges(events), note_edges(events.push(ev)));
            let (on, off) = (b[a.len() as int], b[a.len() as int + 1]);
            &&& b.len() == a.len() + 2
            &&& b.take(a.len() as int) == a
            &&& on.on && on.tick == ev.start && on.velocity == ev.velocity
            &&& !off.on && off.tick == ev.start + ev.duration && off.velocity == 0
            &&& on.pitch == ev.pitch && off.pitch == ev.pitch
            &&& on.channel == ev.channel && off.channel == ev.channel
        }),
        crate::sorting::with_key(sorted(note_edges(events)), tick) == crate::sorting::with_key(
            note_edges(events),
            tick,
        ),
        note_edges(Seq::empty()).len() == 0,
{
    assert(events.push(ev).drop_last() == events);
    crate::sorting::sorted_is_stable(note_edges(events), tick);
}

/// The track of the tempo is called by that.
pub proof fn tempo_track_has_its_name(tempo: u16)
    ensures
        tempo_track(tempo).name == Some("Tempo"@),
{
}

} // verus!
