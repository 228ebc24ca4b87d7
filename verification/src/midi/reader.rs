//! Reading MIDI files.
use crate::midi::error::MidiError;
use crate::midi::file::{
    events_view, events_view_push, optional_text, tracks_view, tracks_view_push, Event, FileView,
    Message, MidiEvent, MidiFile, MidiFormat, MidiHeader, MidiMessage, MidiTrack, TrackView,
};
use crate::text::{from_utf8_lossy, text_of};
use vstd::prelude::*;
use vstd::slice::slice_subrange;

verus! {

/// What reading comes to: a value, an error of the file, or a meta event whose
/// payload is too short for its kind (or whose time signature no byte holds).
#[verifier::ext_equal]
pub enum Scan<T> {
    Got(T),
    Fail(MidiError),
    ShortPayload,
}

/// A track as it stands in a file, its names as bytes.
#[verifier::ext_equal]
pub struct RawTrack {
    pub events: Seq<Event<Seq<u8>>>,
}

/// A file's header and tracks, their names as bytes.
#[verifier::ext_equal]
pub struct RawFile {
    pub header: MidiHeader,
    pub tracks: Seq<RawTrack>,
}

/// Reads a number in groups of seven bits, most significant first, in at most
/// `left` bytes. All but the last byte have their high bit set. Gives the
/// number and the position behind it.
pub open spec fn read_var_len(data: Seq<u8>, pos: nat, acc: nat, left: nat) -> Scan<(nat, nat)>
    decreases left,
{
    if left == 0 {
        Scan::Fail(MidiError::VarLenOverflow)
    } else if pos >= data.len() {
        Scan::Fail(MidiError::UnexpectedEof)
    } else {
        let b = data[pos as int];
        let value = acc * 128 + (b % 128) as nat;
        if b < 128 {
            Scan::Got((value, pos + 1))
        } else {
            read_var_len(data, pos + 1, value, (left - 1) as nat)
        }
    }
}

/// The value of a pitch bend from its two data bytes.
pub open spec fn bend_value(low: u8, high: u8) -> i16 {
    ((((high as u16) << 7u16) | (low as u16)) - 8192) as i16
}

/// The signed number that a byte holds in two's complement.
pub open spec fn as_signed(b: u8) -> i8 {
    (if b < 128 {
        b as int
    } else {
        b as int - 256
    }) as i8
}

/// The power of two with a small exponent.
pub open spec fn power_of_two(e: nat) -> nat
    decreases e,
{
    if e == 0 {
        1
    } else {
        2 * power_of_two((e - 1) as nat)
    }
}

/// The message of a meta event of a kind with a payload; `None` for kinds that
/// are passed over.
pub open spec fn meta_message(kind: u8, b: Seq<u8>) -> Scan<Option<Message<Seq<u8>>>> {
    if kind == 0x03 {
        Scan::Got(Some(Message::TrackName(b)))
    } else if kind == 0x2F {
        Scan::Got(Some(Message::EndOfTrack))
    } else if kind == 0x51 {
        if b.len() < 3 {
            Scan::ShortPayload
        } else {
            Scan::Got(Some(Message::Tempo((b[0] * 65536 + b[1] * 256 + b[2]) as u32)))
        }
    } else if kind == 0x58 {
        if b.len() < 4 || b[1] > 7 {
            Scan::ShortPayload
        } else {
            Scan::Got(
                Some(
                    Message::TimeSignature {
                        numerator: b[0],
                        denominator: power_of_two(b[1] as nat) as u8,
                        clocks: b[2],
                        notated_32nds: b[3],
                    },
                ),
            )
        }
    } else if kind == 0x59 {
        if b.len() < 2 {
            Scan::ShortPayload
        } else {
            Scan::Got(
                Some(Message::KeySignature { sharps_flats: as_signed(b[0]), minor: b[1] != 0 }),
            )
        }
    } else {
        Scan::Got(None)
    }
}

/// Reads a meta event behind its first byte. Gives the message and the
/// position behind it.
pub open spec fn read_meta(data: Seq<u8>, pos: nat, first: u8) -> Scan<
    (Option<Message<Seq<u8>>>, nat),
> {
    if first == 0xFF && pos >= data.len() {
        Scan::Fail(MidiError::UnexpectedEof)
    } else {
        let kind = if first == 0xFF {
            data[pos as int]
        } else {
            first
        };
        let p = if first == 0xFF {
            pos + 1
        } else {
            pos
        };
        match read_var_len(data, p, 0, 4) {
            Scan::Fail(e) => Scan::Fail(e),
            Scan::ShortPayload => Scan::ShortPayload,
            Scan::Got((n, q)) => if q + n > data.len() {
                Scan::Fail(MidiError::UnexpectedEof)
            } else {
                match meta_message(kind, data.subrange(q as int, (q + n) as int)) {
                    Scan::Fail(e) => Scan::Fail(e),
                    Scan::ShortPayload => Scan::ShortPayload,
                    Scan::Got(m) => Scan::Got((m, q + n)),
                }
            },
        }
    }
}

/// The message of a channel event with two data bytes.
pub open spec fn channel_message(status: u8, d1: u8, d2: u8) -> Message<Seq<u8>> {
    let channel = (status % 16) as u8;
    if status / 16 == 0x8 {
        Message::NoteOff { channel, pitch: d1, velocity: d2 }
    } else if status / 16 == 0x9 {
        Message::NoteOn { channel, pitch: d1, velocity: d2 }
    } else if status / 16 == 0xB {
        Message::ControlChange { channel, controller: d1, value: d2 }
    } else {
        Message::PitchBend { channel, value: bend_value(d1, d2) }
    }
}

/// Reads a channel event behind its first byte, under a status. Gives the
/// message, `None` for statuses that are passed over, and the position behind.
pub open spec fn read_channel(data: Seq<u8>, pos: nat, first: u8, status: u8) -> Scan<
    (Option<Message<Seq<u8>>>, nat),
> {
    if first >= 128 && pos >= data.len() {
        Scan::Fail(MidiError::UnexpectedEof)
    } else {
        let d1 = if first >= 128 {
            data[pos as int]
        } else {
            first
        };
        let p = if first >= 128 {
            pos + 1
        } else {
            pos
        };
        let kind = status / 16;
        if kind == 0xC {
            Scan::Got(
                (Some(Message::ProgramChange { channel: (status % 16) as u8, program: d1 }), p),
            )
        } else if kind == 0x8 || kind == 0x9 || kind == 0xB || kind == 0xE {
            if p >= data.len() {
                Scan::Fail(MidiError::UnexpectedEof)
            } else {
                Scan::Got((Some(channel_message(status, d1, data[p as int])), p + 1))
            }
        } else {
            Scan::Got((None, p))
        }
    }
}

/// What reading one event gives: the event, unless it is passed over, the
/// status that later events run on, and the position behind it.
#[verifier::ext_equal]
pub struct EventStep {
    pub event: Option<Event<Seq<u8>>>,
    pub status: u8,
    pub pos: nat,
}

/// Reads one event, under the running status `running`.
pub open spec fn read_event(data: Seq<u8>, pos: nat, running: u8) -> Scan<EventStep> {
    match read_var_len(data, pos, 0, 4) {
        Scan::Fail(e) => Scan::Fail(e),
        Scan::ShortPayload => Scan::ShortPayload,
        Scan::Got((delta, p)) => if p >= data.len() {
            Scan::Fail(MidiError::UnexpectedEof)
        } else {
            let first = data[p as int];
            let status = if first >= 128 {
                first
            } else {
                running
            };
            let body = if status == 0xFF {
                read_meta(data, p + 1, first)
            } else {
                read_channel(data, p + 1, first, status)
            };
            match body {
                Scan::Fail(e) => Scan::Fail(e),
                Scan::ShortPayload => Scan::ShortPayload,
                Scan::Got((None, q)) => Scan::Got(EventStep { event: None, status, pos: q }),
                Scan::Got((Some(message), q)) => Scan::Got(
                    EventStep {
                        event: Some(Event { delta: delta as u32, message }),
                        status,
                        pos: q,
                    },
                ),
            }
        },
    }
}

proof fn lemma_var_len_advances(data: Seq<u8>, pos: nat, acc: nat, left: nat)
    ensures
        read_var_len(data, pos, acc, left) !is ShortPayload,
        read_var_len(data, pos, acc, left) matches Scan::Got((v, p)) ==> pos < p <= data.len(),
    decreases left,
{
    if left > 0 && pos < data.len() && data[pos as int] >= 128 {
        lemma_var_len_advances(
            data,
            pos + 1,
            acc * 128 + (data[pos as int] % 128) as nat,
            (left - 1) as nat,
        );
    }
}

proof fn lemma_var_len_bound(data: Seq<u8>, pos: nat)
    ensures
        read_var_len(data, pos, 0, 4) matches Scan::Got((v, p)) ==> v < 0x1000_0000 && p <= pos + 4,
{
    reveal_with_fuel(read_var_len, 5);
}

/// Reading an event moves the position forward, within the data.
pub proof fn lemma_event_advances(data: Seq<u8>, pos: nat, running: u8)
    ensures
        read_event(data, pos, running) matches Scan::Got(step) ==> pos < step.pos <= data.len(),
{
    lemma_var_len_advances(data, pos, 0, 4);
    if let Scan::Got((delta, p)) = read_var_len(data, pos, 0, 4) {
        lemma_var_len_advances(data, p + 1, 0, 4);
        lemma_var_len_advances(data, p + 2, 0, 4);
    }
}

/// Reads events until the position reaches `end`. Gives the events and the
/// position behind the last.
pub open spec fn read_events(data: Seq<u8>, pos: nat, end: nat, running: u8) -> Scan<
    (Seq<Event<Seq<u8>>>, nat),
>
    decreases data.len() - pos,
{
    if pos >= end {
        Scan::Got((Seq::empty(), pos))
    } else {
        match read_event(data, pos, running) {
            Scan::Fail(e) => Scan::Fail(e),
            Scan::ShortPayload => Scan::ShortPayload,
            Scan::Got(step) => {
                proof {
                    lemma_event_advances(data, pos, running);
                }
                match read_events(data, step.pos, end, step.status) {
                    Scan::Fail(e) => Scan::Fail(e),
                    Scan::ShortPayload => Scan::ShortPayload,
                    Scan::Got((rest, p)) => match step.event {
                        None => Scan::Got((rest, p)),
                        Some(e) => Scan::Got((seq![e] + rest, p)),
                    },
                }
            },
        }
    }
}

/// Four ASCII letters at a position.
pub open spec fn tag_at(data: Seq<u8>, pos: int, a: u8, b: u8, c: u8, d: u8) -> bool {
    data[pos] == a && data[pos + 1] == b && data[pos + 2] == c && data[pos + 3] == d
}

/// The two bytes at a position as a number, most significant first.
pub open spec fn be16_at(data: Seq<u8>, pos: int) -> nat {
    (data[pos] * 256 + data[pos + 1]) as nat
}

/// The four bytes at a position as a number, most significant first.
pub open spec fn be32_at(data: Seq<u8>, pos: int) -> nat {
    (data[pos] * 0x100_0000 + data[pos + 1] * 0x1_0000 + data[pos + 2] * 256 + data[pos + 3]) as nat
}

/// Reads one track chunk. Gives the track and the position behind it.
pub open spec fn read_track(data: Seq<u8>, pos: nat) -> Scan<(RawTrack, nat)> {
    if pos + 4 > data.len() {
        Scan::Fail(MidiError::UnexpectedEof)
    } else if !tag_at(data, pos as int, 0x4D, 0x54, 0x72, 0x6B) {
        Scan::Fail(MidiError::InvalidTrack((pos + 4) as usize))
    } else if pos + 8 > data.len() {
        Scan::Fail(MidiError::UnexpectedEof)
    } else {
        match read_events(data, pos + 8, pos + 8 + be32_at(data, pos as int + 4), 0) {
            Scan::Fail(e) => Scan::Fail(e),
            Scan::ShortPayload => Scan::ShortPayload,
            Scan::Got((events, p)) => Scan::Got((RawTrack { events }, p)),
        }
    }
}

/// Reads `n` track chunks.
pub open spec fn read_tracks(data: Seq<u8>, pos: nat, n: nat) -> Scan<Seq<RawTrack>>
    decreases n,
{
    if n == 0 {
        Scan::Got(Seq::empty())
    } else {
        match read_track(data, pos) {
            Scan::Fail(e) => Scan::Fail(e),
            Scan::ShortPayload => Scan::ShortPayload,
            Scan::Got((t, p)) => match read_tracks(data, p, (n - 1) as nat) {
                Scan::Fail(e) => Scan::Fail(e),
                Scan::ShortPayload => Scan::ShortPayload,
                Scan::Got(rest) => Scan::Got(seq![t] + rest),
            },
        }
    }
}

/// The format with a number.
pub open spec fn format_of(n: nat) -> Option<MidiFormat> {
    if n == 0 {
        Some(MidiFormat::SingleTrack)
    } else if n == 1 {
        Some(MidiFormat::MultiTrack)
    } else if n == 2 {
        Some(MidiFormat::MultiPattern)
    } else {
        None
    }
}

/// Reads a whole file. The length in the header is passed over.
pub open spec fn read_file(data: Seq<u8>) -> Scan<RawFile> {
    if data.len() < 4 {
        Scan::Fail(MidiError::UnexpectedEof)
    } else if !tag_at(data, 0, 0x4D, 0x54, 0x68, 0x64) {
        Scan::Fail(MidiError::InvalidHeader)
    } else if data.len() < 10 {
        Scan::Fail(MidiError::UnexpectedEof)
    } else {
        match format_of(be16_at(data, 8)) {
            None => Scan::Fail(MidiError::UnsupportedFormat(be16_at(data, 8) as u16)),
            Some(format) => if data.len() < 14 {
                Scan::Fail(MidiError::UnexpectedEof)
            } else {
                match read_tracks(data, 14, be16_at(data, 10)) {
                    Scan::Fail(e) => Scan::Fail(e),
                    Scan::ShortPayload => Scan::ShortPayload,
                    Scan::Got(tracks) => Scan::Got(
                        RawFile {
                            header: MidiHeader {
                                format,
                                ticks_per_quarter: be16_at(data, 12) as u16,
                            },
                            tracks,
                        },
                    ),
                }
            },
        }
    }
}

/// A message with its name decoded to text.
pub open spec fn decoded_message(m: Message<Seq<u8>>) -> Message<Seq<char>> {
    match m {
        Message::NoteOn { channel, pitch, velocity } => Message::NoteOn {
            channel,
            pitch,
            velocity,
        },
        Message::NoteOff { channel, pitch, velocity } => Message::NoteOff {
            channel,
            pitch,
            velocity,
        },
        Message::ProgramChange { channel, program } => Message::ProgramChange { channel, program },
        Message::ControlChange { channel, controller, value } => Message::ControlChange {
            channel,
            controller,
            value,
        },
        Message::PitchBend { channel, value } => Message::PitchBend { channel, value },
        Message::Tempo(m) => Message::Tempo(m),
        Message::TimeSignature { numerator, denominator, clocks, notated_32nds } =>
            Message::TimeSignature { numerator, denominator, clocks, notated_32nds },
        Message::KeySignature { sharps_flats, minor } => Message::KeySignature {
            sharps_flats,
            minor,
        },
        Message::TrackName(b) => Message::TrackName(text_of(b)),
        Message::EndOfTrack => Message::EndOfTrack,
        Message::SysEx(d) => Message::SysEx(d),
    }
}

pub open spec fn decoded_event(e: Event<Seq<u8>>) -> Event<Seq<char>> {
    Event { delta: e.delta, message: decoded_message(e.message) }
}

pub open spec fn decoded_events(events: Seq<Event<Seq<u8>>>) -> Seq<Event<Seq<char>>> {
    events.map_values(|e: Event<Seq<u8>>| decoded_event(e))
}

/// The name in the last track-name event.
pub open spec fn last_name<N>(events: Seq<Event<N>>) -> Option<N>
    decreases events.len(),
{
    if events.len() == 0 {
        None
    } else {
        match events.last().message {
            Message::TrackName(name) => Some(name),
            _ => last_name(events.drop_last()),
        }
    }
}

/// A track with its names decoded; it is called by its last name.
pub open spec fn decoded_track(t: RawTrack) -> TrackView {
    TrackView { name: last_name(decoded_events(t.events)), events: decoded_events(t.events) }
}

pub open spec fn decoded_tracks(ts: Seq<RawTrack>) -> Seq<TrackView> {
    ts.map_values(|t: RawTrack| decoded_track(t))
}

/// A file with its names decoded.
pub open spec fn decoded_file(f: RawFile) -> FileView {
    FileView { header: f.header, tracks: decoded_tracks(f.tracks) }
}

/// Whether what was read is what reading comes to.
pub open spec fn outcome_matches(r: Result<MidiFile, MidiError>, s: Scan<RawFile>) -> bool {
    match s {
        Scan::Got(f) => r is Ok && r->Ok_0@ == decoded_file(f),
        Scan::Fail(e) => r == Err::<MidiFile, MidiError>(e),
        Scan::ShortPayload => false,
    }
}

/// Why reading stopped.
#[derive(Clone, Copy)]
enum Stop {
    Broken(MidiError),
    Short,
}

/// What a stop says, for a value of any kind.
spec fn stopped<T>(s: Stop) -> Scan<T> {
    match s {
        Stop::Broken(e) => Scan::Fail(e),
        Stop::Short => Scan::ShortPayload,
    }
}

/// A position in the bytes of a file.
pub struct MidiReader<'a> {
    data: &'a [u8],
    pos: usize,
}

impl<'a> MidiReader<'a> {
    /// The bytes that are read.
    pub closed spec fn bytes_view(&self) -> Seq<u8> {
        self.data@
    }

    /// How many of them have been read.
    pub closed spec fn position(&self) -> nat {
        self.pos as nat
    }

    /// Whether the position lies within the bytes.
    pub closed spec fn wf(&self) -> bool {
        self.pos <= self.data@.len()
    }

    pub fn new(data: &'a [u8]) -> (r: Self)
        ensures
            r.wf(),
            r.bytes_view() == data@,
            r.position() == 0,
    {
        Self { data, pos: 0 }
    }

    fn u8(&mut self) -> (r: Result<u8, MidiError>)
        requires
            old(self).wf(),
        ensures
            final(self).wf(),
            final(self).data == old(self).data,
            old(self).pos < old(self).data@.len() ==> r == Ok::<u8, MidiError>(
                old(self).data@[old(self).pos as int],
            ) && final(self).pos == old(self).pos + 1,
            old(self).pos >= old(self).data@.len() ==> r == Err::<u8, MidiError>(
                MidiError::UnexpectedEof,
            ) && final(self).pos == old(self).pos,
    {
        if self.pos < self.data.len() {
            let b = self.data[self.pos];
            self.pos = self.pos + 1;
            Ok(b)
        } else {
            Err(MidiError::UnexpectedEof)
        }
    }

    fn u16(&mut self) -> (r: Result<u16, MidiError>)
        requires
            old(self).wf(),
        ensures
            final(self).wf(),
            final(self).data == old(self).data,
            old(self).pos + 2 <= old(self).data@.len() ==> r is Ok && r->Ok_0 as nat == be16_at(
                old(self).data@,
                old(self).pos as int,
            ) && final(self).pos == old(self).pos + 2,
            old(self).pos + 2 > old(self).data@.len() ==> r == Err::<u16, MidiError>(
                MidiError::UnexpectedEof,
            ),
    {
        let a: u16 = match self.u8() {
            Ok(b) => b as u16,
            Err(e) => {
                return Err(e);
            },
        };
        let b: u16 = match self.u8() {
            Ok(b) => b as u16,
            Err(e) => {
                return Err(e);
            },
        };
        Ok(a * 256 + b)
    }

    fn u32(&mut self) -> (r: Result<u32, MidiError>)
        requires
            old(self).wf(),
        ensures
            final(self).wf(),
            final(self).data == old(self).data,
            old(self).pos + 4 <= old(self).data@.len() ==> r is Ok && r->Ok_0 as nat == be32_at(
                old(self).data@,
                old(self).pos as int,
            ) && final(self).pos == old(self).pos + 4,
            old(self).pos + 4 > old(self).data@.len() ==> r == Err::<u32, MidiError>(
                MidiError::UnexpectedEof,
            ),
    {
        let a: u32 = match self.u16() {
            Ok(b) => b as u32,
            Err(e) => {
                return Err(e);
            },
        };
        let b: u32 = match self.u16() {
            Ok(b) => b as u32,
            Err(e) => {
                return Err(e);
            },
        };
        Ok(a * 65536 + b)
    }

    /// The length that follows: seven bits from each of up to four bytes, the highest
    /// first, of which all but the last have the eighth bit set.
    pub fn read_var_len(&mut self) -> (r: Result<u32, MidiError>)
        requires
            old(self).wf(),
        ensures
            final(self).wf(),
            final(self).bytes_view() == old(self).bytes_view(),
            match read_var_len(old(self).bytes_view(), old(self).position(), 0, 4) {
                Scan::Got((v, p)) => r is Ok && r->Ok_0 as nat == v && final(self).position() == p
                    && v < 0x1000_0000,
                Scan::Fail(e) => r == Err::<u32, MidiError>(e),
                Scan::ShortPayload => false,
            },
    {
        let ghost start = self.pos as nat;
        let mut val: u32 = 0;
        let mut left: u8 = 4;
        proof {
            lemma_var_len_bound(self.data@, start);
        }
        while left > 0
            invariant
                self.wf(),
                self.data == old(self).data,
                left <= 4,
                left == 4 ==> val == 0,
                left == 3 ==> val < 128,
                left == 2 ==> val < 16384,
                left == 1 ==> val < 2097152,
                read_var_len(self.data@, start, 0, 4) == read_var_len(
                    self.data@,
                    self.pos as nat,
                    val as nat,
                    left as nat,
                ),
                read_var_len(self.data@, start, 0, 4) matches Scan::Got((v, p)) ==> v < 0x1000_0000,
                start == old(self).pos,
            decreases left,
        {
            let b: u8 = match self.u8() {
                Ok(b) => b,
                Err(e) => {
                    return Err(e);
                },
            };
            val = val * 128 + (b % 128) as u32;
            left = left - 1;
            if b < 128 {
                return Ok(val);
            }
        }
        Err(MidiError::VarLenOverflow)
    }

    fn bytes(&mut self, n: usize) -> (r: Result<&'a [u8], MidiError>)
        requires
            old(self).wf(),
        ensures
            final(self).wf(),
            final(self).data == old(self).data,
            old(self).pos + n <= old(self).data@.len() ==> r is Ok && r->Ok_0@ == old(
                self,
            ).data@.subrange(old(self).pos as int, old(self).pos + n) && final(self).pos == old(
                self,
            ).pos + n,
            old(self).pos + n > old(self).data@.len() ==> r == Err::<&'a [u8], MidiError>(
                MidiError::UnexpectedEof,
            ),
    {
        if n > self.data.len() - self.pos {
            return Err(MidiError::UnexpectedEof);
        }
        let s = slice_subrange(self.data, self.pos, self.pos + n);
        self.pos = self.pos + n;
        Ok(s)
    }

    /// Reads the payload of a meta event.
    fn meta(kind: u8, b: &[u8]) -> (r: Result<Option<MidiMessage>, Stop>)
        ensures
            match meta_message(kind, b@) {
                Scan::Got(None) => r is Ok && r->Ok_0 is None,
                Scan::Got(Some(m)) => r is Ok && r->Ok_0 is Some && r->Ok_0->Some_0@
                    == decoded_message(m),
                other => r is Err && stopped::<Option<Message<Seq<u8>>>>(r->Err_0) == other,
            },
    {
        match kind {
            0x03 => Ok(Some(MidiMessage::TrackName(from_utf8_lossy(b)))),
            0x2F => Ok(Some(MidiMessage::EndOfTrack)),
            0x51 => {
                if b.len() < 3 {
                    return Err(Stop::Short);
                }
                Ok(
                    Some(
                        MidiMessage::Tempo(b[0] as u32 * 65536 + b[1] as u32 * 256 + b[2] as u32),
                    ),
                )
            },
            0x58 => {
                if b.len() < 4 || b[1] > 7 {
                    return Err(Stop::Short);
                }
                let mut denominator: u8 = 1;
                let e: u8 = b[1];
                proof {
                    reveal_with_fuel(power_of_two, 8);
                }
                for i in 0..e
                    invariant
                        e <= 7,
                        denominator as nat == power_of_two(i as nat),
                        denominator <= 128,
                        i == 0 ==> denominator == 1,
                        i <= 7,
                        i == 7 ==> denominator == 128,
                        i == 6 ==> denominator == 64,
                        i == 5 ==> denominator == 32,
                        i == 4 ==> denominator == 16,
                        i == 3 ==> denominator == 8,
                        i == 2 ==> denominator == 4,
                        i == 1 ==> denominator == 2,
                {
                    denominator = denominator * 2;
                }
                Ok(
                    Some(
                        MidiMessage::TimeSignature {
                            numerator: b[0],
                            denominator,
                            clocks: b[2],
                            notated_32nds: b[3],
                        },
                    ),
                )
            },
            0x59 => {
                if b.len() < 2 {
                    return Err(Stop::Short);
                }
                let s: i8 = if b[0] < 128 {
                    b[0] as i8
                } else {
                    (b[0] as i16 - 256) as i8
                };
                Ok(Some(MidiMessage::KeySignature { sharps_flats: s, minor: b[1] != 0 }))
            },
            _ => Ok(None),
        }
    }

    /// Reads a meta event behind its first byte.
    fn meta_event(&mut self, first: u8) -> (r: Result<Option<MidiMessage>, Stop>)
        requires
            old(self).wf(),
        ensures
            final(self).wf(),
            final(self).data == old(self).data,
            match read_meta(old(self).data@, old(self).pos as nat, first) {
                Scan::Got((None, p)) => r is Ok && r->Ok_0 is None && final(self).pos as nat == p,
                Scan::Got((Some(m), p)) => r is Ok && r->Ok_0 is Some && r->Ok_0->Some_0@
                    == decoded_message(m) && final(self).pos as nat == p,
                other => r is Err && stopped::<(Option<Message<Seq<u8>>>, nat)>(r->Err_0) == other,
            },
    {
        let kind: u8 = if first == 0xFF {
            match self.u8() {
                Ok(b) => b,
                Err(e) => {
                    return Err(Stop::Broken(e));
                },
            }
        } else {
            first
        };
        let n: u32 = match self.read_var_len() {
            Ok(n) => n,
            Err(e) => {
                return Err(Stop::Broken(e));
            },
        };
        match self.bytes(n as usize) {
            Ok(b) => Self::meta(kind, b),
            Err(e) => Err(Stop::Broken(e)),
        }
    }

    /// Reads a channel event behind its first byte.
    fn channel_event(&mut self, first: u8, status: u8) -> (r: Result<Option<MidiMessage>, Stop>)
        requires
            old(self).wf(),
        ensures
            final(self).wf(),
            final(self).data == old(self).data,
            match read_channel(old(self).data@, old(self).pos as nat, first, status) {
                Scan::Got((None, p)) => r is Ok && r->Ok_0 is None && final(self).pos as nat == p,
                Scan::Got((Some(m), p)) => r is Ok && r->Ok_0 is Some && r->Ok_0->Some_0@
                    == decoded_message(m) && final(self).pos as nat == p,
                other => r is Err && stopped::<(Option<Message<Seq<u8>>>, nat)>(r->Err_0) == other,
            },
    {
        let d1: u8 = if first >= 128 {
            match self.u8() {
                Ok(b) => b,
                Err(e) => {
                    return Err(Stop::Broken(e));
                },
            }
        } else {
            first
        };
        let channel: u8 = status % 16;
        let kind: u8 = status / 16;
        if kind == 0xC {
            return Ok(Some(MidiMessage::ProgramChange { channel, program: d1 }));
        }
        if !(kind == 0x8 || kind == 0x9 || kind == 0xB || kind == 0xE) {
            return Ok(None);
        }
        let d2: u8 = match self.u8() {
            Ok(b) => b,
            Err(e) => {
                return Err(Stop::Broken(e));
            },
        };
        if kind == 0x8 {
            Ok(Some(MidiMessage::NoteOff { channel, pitch: d1, velocity: d2 }))
        } else if kind == 0x9 {
            Ok(Some(MidiMessage::NoteOn { channel, pitch: d1, velocity: d2 }))
        } else if kind == 0xB {
            Ok(Some(MidiMessage::ControlChange { channel, controller: d1, value: d2 }))
        } else {
            let bits: u16 = ((d2 as u16) << 7) | (d1 as u16);
            assert(bits <= 0x7FFF) by (bit_vector)
                requires
                    bits == ((d2 as u16) << 7u16) | (d1 as u16),
            ;
            Ok(Some(MidiMessage::PitchBend { channel, value: bits as i16 - 8192 }))
        }
    }

    /// Reads the events up to `end`.
    fn parse_track(&mut self, end: u128) -> (r: Result<MidiTrack, Stop>)
        requires
            old(self).wf(),
        ensures
            final(self).wf(),
            final(self).data == old(self).data,
            match read_events(old(self).data@, old(self).pos as nat, end as nat, 0) {
                Scan::Got((events, p)) => r is Ok && r->Ok_0@ == decoded_track(RawTrack { events })
                    && final(self).pos as nat == p,
                other => r is Err && stopped::<(Seq<Event<Seq<u8>>>, nat)>(r->Err_0) == other,
            },
    {
        broadcast use events_view_push;

        let ghost start = self.pos as nat;
        let ghost data = self.data@;
        let mut events: Vec<MidiEvent> = Vec::new();
        let mut running: u8 = 0;
        let mut name: Option<String> = None;
        let ghost mut raw: Seq<Event<Seq<u8>>> = Seq::empty();
        assert(decoded_events(raw) == events_view(events@));
        while (self.pos as u128) < end
            invariant
                self.wf(),
                self.data == old(self).data,
                data == self.data@,
                events_view(events@) == decoded_events(raw),
                optional_text(name) == last_name(decoded_events(raw)),
                read_events(data, start, end as nat, 0) == prefixed(
                    raw,
                    read_events(data, self.pos as nat, end as nat, running),
                ),
                start == old(self).pos,
            decreases data.len() - self.pos,
        {
            let ghost at = self.pos as nat;
            let ghost before = raw;
            proof {
                lemma_event_advances(data, at, running);
            }
            let ghost from = running;
            let delta: u32 = match self.read_var_len() {
                Ok(n) => n,
                Err(e) => {
                    return Err(Stop::Broken(e));
                },
            };
            let first: u8 = match self.u8() {
                Ok(b) => b,
                Err(e) => {
                    return Err(Stop::Broken(e));
                },
            };
            if first >= 128 {
                running = first;
            }
            let body = if running == 0xFF {
                self.meta_event(first)
            } else {
                self.channel_event(first, running)
            };
            match body {
                Err(s) => {
                    return Err(s);
                },
                Ok(None) => {
                    proof {
                        lemma_prefixed_none(
                            read_events(data, self.pos as nat, end as nat, running),
                        );
                    }
                },
                Ok(Some(message)) => {
                    let ghost ev = read_event(data, at, from)->Got_0.event->Some_0;
                    proof {
                        lemma_prefixed_push(
                            before,
                            ev,
                            read_events(data, self.pos as nat, end as nat, running),
                        );
                        raw = before.push(ev);
                        assert(decoded_events(raw) == decoded_events(before).push(
                            decoded_event(ev),
                        ));
                        assert(decoded_events(raw).drop_last() == decoded_events(before));
                    }
                    match &message {
                        MidiMessage::TrackName(s) => {
                            name = Some(s.clone());
                        },
                        _ => {},
                    }
                    events.push(MidiEvent { delta, message });
                },
            }
        }
        proof {
            lemma_prefixed_end(raw, self.pos as nat);
        }
        Ok(MidiTrack { name, events })
    }

    /// Reads a file. Gives `None` where a meta event's payload is too short for
    /// its kind, or a time signature's unit does not fit in a byte.
    pub fn checked_parse(data: &'a [u8]) -> (r: Option<Result<MidiFile, MidiError>>)
        ensures
            r is None <==> read_file(data@) is ShortPayload,
            r matches Some(res) ==> outcome_matches(res, read_file(data@)),
    {
        broadcast use tracks_view_push;

        let mut r = Self::new(data);
        match r.bytes(4) {
            Ok(tag) => {
                if !(tag[0] == 0x4D && tag[1] == 0x54 && tag[2] == 0x68 && tag[3] == 0x64) {
                    return Some(Err(MidiError::InvalidHeader));
                }
            },
            Err(e) => {
                return Some(Err(e));
            },
        }
        match r.u32() {
            Ok(_) => {},
            Err(e) => {
                return Some(Err(e));
            },
        }
        let format = match r.u16() {
            Ok(f) => {
                if f == 0 {
                    MidiFormat::SingleTrack
                } else if f == 1 {
                    MidiFormat::MultiTrack
                } else if f == 2 {
                    MidiFormat::MultiPattern
                } else {
                    return Some(Err(MidiError::UnsupportedFormat(f)));
                }
            },
            Err(e) => {
                return Some(Err(e));
            },
        };
        let ntracks: u16 = match r.u16() {
            Ok(n) => n,
            Err(e) => {
                return Some(Err(e));
            },
        };
        let ticks_per_quarter: u16 = match r.u16() {
            Ok(n) => n,
            Err(e) => {
                return Some(Err(e));
            },
        };
        let header = MidiHeader { format, ticks_per_quarter };
        let mut tracks: Vec<MidiTrack> = Vec::new();
        let ghost mut raw: Seq<RawTrack> = Seq::empty();
        assert(tracks_view(tracks@) == decoded_tracks(raw));
        let mut left: u16 = ntracks;
        proof {
            assert(prefixed_tracks(raw, read_tracks(data@, 14, ntracks as nat)) == read_tracks(
                data@,
                14,
                ntracks as nat,
            )) by {
                lemma_prefixed_tracks_none(read_tracks(data@, 14, ntracks as nat));
            }
        }
        while left > 0
            invariant
                r.wf(),
                r.data@ == data@,
                data@.len() >= 14,
                tag_at(data@, 0, 0x4D, 0x54, 0x68, 0x64),
                ntracks as nat == be16_at(data@, 10),
                format_of(be16_at(data@, 8)) == Some(header.format),
                header.ticks_per_quarter as nat == be16_at(data@, 12),
                tracks_view(tracks@) == decoded_tracks(raw),
                read_tracks(data@, 14, ntracks as nat) == prefixed_tracks(
                    raw,
                    read_tracks(data@, r.pos as nat, left as nat),
                ),
            decreases left,
        {
            let ghost at = r.pos as nat;
            let ghost before = raw;
            match r.bytes(4) {
                Ok(tag) => {
                    if !(tag[0] == 0x4D && tag[1] == 0x54 && tag[2] == 0x72 && tag[3] == 0x6B) {
                        return Some(Err(MidiError::InvalidTrack(r.pos)));
                    }
                },
                Err(e) => {
                    return Some(Err(e));
                },
            }
            let len: u32 = match r.u32() {
                Ok(n) => n,
                Err(e) => {
                    return Some(Err(e));
                },
            };
            let end: u128 = r.pos as u128 + len as u128;
            match r.parse_track(end) {
                Ok(t) => {
                    let ghost rt = read_track(data@, at)->Got_0.0;
                    proof {
                        lemma_prefixed_tracks_push(
                            before,
                            rt,
                            read_tracks(data@, r.pos as nat, (left - 1) as nat),
                        );
                        raw = before.push(rt);
                        assert(decoded_tracks(raw) == decoded_tracks(before).push(
                            decoded_track(rt),
                        ));
                    }
                    tracks.push(t);
                },
                Err(Stop::Broken(e)) => {
                    return Some(Err(e));
                },
                Err(Stop::Short) => {
                    return None;
                },
            }
            left = left - 1;
        }
        proof {
            lemma_prefixed_tracks_end(raw);
        }
        Some(Ok(MidiFile { header, tracks }))
    }

    /// Reads a file in which every meta event has the payload of its kind.
    pub fn parse(data: &'a [u8]) -> (r: Result<MidiFile, MidiError>)
        requires
            read_file(data@) !is ShortPayload,
        ensures
            outcome_matches(r, read_file(data@)),
    {
        match Self::checked_parse(data) {
            Some(r) => r,
            None => Err(MidiError::UnexpectedEof),
        }
    }
}

/// Events read earlier, in front of what reading on comes to.
spec fn prefixed(front: Seq<Event<Seq<u8>>>, rest: Scan<(Seq<Event<Seq<u8>>>, nat)>) -> Scan<
    (Seq<Event<Seq<u8>>>, nat),
> {
    match rest {
        Scan::Got((events, p)) => Scan::Got((front + events, p)),
        other => other,
    }
}

proof fn lemma_prefixed_none(rest: Scan<(Seq<Event<Seq<u8>>>, nat)>)
    ensures
        prefixed(Seq::empty(), rest) == rest,
{
    if let Scan::Got((events, p)) = rest {
        assert(Seq::<Event<Seq<u8>>>::empty() + events == events);
    }
}

proof fn lemma_prefixed_push(
    front: Seq<Event<Seq<u8>>>,
    e: Event<Seq<u8>>,
    rest: Scan<(Seq<Event<Seq<u8>>>, nat)>,
)
    ensures
        prefixed(front.push(e), rest) == prefixed(front, prefixed(seq![e], rest)),
{
    if let Scan::Got((events, p)) = rest {
        assert(front.push(e) + events == front + (seq![e] + events));
    }
}

proof fn lemma_prefixed_end(front: Seq<Event<Seq<u8>>>, p: nat)
    ensures
        prefixed(front, Scan::Got((Seq::empty(), p))) == Scan::Got((front, p)),
{
    assert(front + Seq::<Event<Seq<u8>>>::empty() == front);
}

/// Tracks read earlier, in front of what reading on comes to.
spec fn prefixed_tracks(front: Seq<RawTrack>, rest: Scan<Seq<RawTrack>>) -> Scan<Seq<RawTrack>> {
    match rest {
        Scan::Got(tracks) => Scan::Got(front + tracks),
        other => other,
    }
}

proof fn lemma_prefixed_tracks_none(rest: Scan<Seq<RawTrack>>)
    ensures
        prefixed_tracks(Seq::empty(), rest) == rest,
{
    if let Scan::Got(tracks) = rest {
        assert(Seq::<RawTrack>::empty() + tracks == tracks);
    }
}

proof fn lemma_prefixed_tracks_push(
    front: Seq<RawTrack>,
    t: RawTrack,
    rest: Scan<Seq<RawTrack>>,
)
    ensures
        prefixed_tracks(front.push(t), rest) == prefixed_tracks(
            front,
            prefixed_tracks(seq![t], rest),
        ),
{
    if let Scan::Got(tracks) = rest {
        assert(front.push(t) + tracks == front + (seq![t] + tracks));
    }
}

proof fn lemma_prefixed_tracks_end(front: Seq<RawTrack>)
    ensures
        prefixed_tracks(front, Scan::Got(Seq::empty())) == Scan::Got(front),
{
    assert(front + Seq::<RawTrack>::empty() == front);
}

/// A head that is none is refused: too few bytes, another mark than `MThd`, or a format
/// that there is not, which the error names. What is read has the format and the ticks to
/// a quarter that its head states, and as many tracks.
pub proof fn broken_heads_are_refused(data: Seq<u8>)
    ensures
        data.len() < 4 ==> read_file(data) == Scan::<RawFile>::Fail(MidiError::UnexpectedEof),
        data.len() >= 4 && data.take(4) != seq!['M' as u8, 'T' as u8, 'h' as u8, 'd' as u8]
            ==> read_file(data) == Scan::<RawFile>::Fail(MidiError::InvalidHeader),
        data.len() >= 4 && data.take(4) == seq!['M' as u8, 'T' as u8, 'h' as u8, 'd' as u8] ==> {
            &&& data.len() < 10 ==> read_file(data) == Scan::<RawFile>::Fail(
                MidiError::UnexpectedEof,
            )
            &&& data.len() >= 10 && data[8] * 256 + data[9] > 2 ==> read_file(data)
                == Scan::<RawFile>::Fail(
                MidiError::UnsupportedFormat((data[8] * 256 + data[9]) as u16),
            )
        },
        read_file(data) matches Scan::Got(f) ==> {
            &&& data.len() >= 14
            &&& f.tracks.len() == data[10] * 256 + data[11]
            &&& f.header.ticks_per_quarter == data[12] * 256 + data[13]
            &&& data[8] == 0 && (data[9] == 0 <==> f.header.format == MidiFormat::SingleTrack) && (
            data[9] == 1 <==> f.header.format == MidiFormat::MultiTrack)
        },
{
    if data.len() >= 4 {
        let t = data.take(4);
        assert(t[0] == data[0] && t[1] == data[1] && t[2] == data[2] && t[3] == data[3]);
        if tag_at(data, 0, 0x4D, 0x54, 0x68, 0x64) {
            assert(t == seq!['M' as u8, 'T' as u8, 'h' as u8, 'd' as u8]);
        }
    }
    if data.len() >= 14 {
        lemma_tracks_counted(data, 14, be16_at(data, 10));
    }
}

proof fn lemma_tracks_counted(data: Seq<u8>, pos: nat, n: nat)
    ensures
        read_tracks(data, pos, n) matches Scan::Got(ts) ==> ts.len() == n,
    decreases n,
{
    if n > 0 {
        if let Scan::Got((t, p)) = read_track(data, pos) {
            lemma_tracks_counted(data, p, (n - 1) as nat);
        }
    }
}

/// What stands where a track should and does not begin with `MTrk` is refused, and the
/// error names the place behind it.
pub proof fn broken_tracks_are_refused(data: Seq<u8>, pos: nat)
    requires
        pos + 4 <= data.len() <= usize::MAX,
        data.subrange(pos as int, pos as int + 4) != seq!['M' as u8, 'T' as u8, 'r' as u8, 'k' as u8],
    ensures
        read_track(data, pos) matches Scan::Fail(MidiError::InvalidTrack(at)) && at == pos + 4,
{
    let t = data.subrange(pos as int, pos as int + 4);
    assert(t[0] == data[pos as int] && t[1] == data[pos as int + 1] && t[2] == data[pos as int + 2] && t[3]
        == data[pos as int + 3]);
    if tag_at(data, pos as int, 0x4D, 0x54, 0x72, 0x6B) {
        assert(t == seq!['M' as u8, 'T' as u8, 'r' as u8, 'k' as u8]);
    }
}

/// A status that runs on reads as if it stood there: a message of a channel is read alike
/// behind its status and under the same one from before.
pub proof fn running_status_reads_alike(data: Seq<u8>, pos: nat, status: u8)
    requires
        0x80 <= status < 0xF0,
        pos < data.len(),
        data[pos as int] < 0x80,
    ensures
        read_channel(data, pos, status, status) == read_channel(
            data,
            pos + 1,
            data[pos as int],
            status,
        ),
{
}

/// A message of a channel is read from its status and its data: the kind from the high
/// half of the status, the channel from the low one. It takes two bytes of data, a
/// program one, and what is none of them is passed over.
pub proof fn channel_data_is_read(data: Seq<u8>, pos: nat, status: u8)
    requires
        0x80 <= status,
        pos + 1 < data.len(),
    ensures
        ({
            let (a, b) = (data[pos as int], data[pos as int + 1]);
            let channel = (status % 16) as u8;
            let r = read_channel(data, pos, status, status);
            &&& status / 16 == 0x8 ==> (r matches Scan::Got((Some(m), p)) && p == pos + 2 && (
            m matches Message::NoteOff { channel: c, pitch, velocity } && c == channel && pitch == a
                && velocity == b))
            &&& status / 16 == 0x9 ==> (r matches Scan::Got((Some(m), p)) && p == pos + 2 && (
            m matches Message::NoteOn { channel: c, pitch, velocity } && c == channel && pitch == a
                && velocity == b))
            &&& status / 16 == 0xB ==> (r matches Scan::Got((Some(m), p)) && p == pos + 2 && (
            m matches Message::ControlChange { channel: c, controller, value } && c == channel
                && controller == a && value == b))
            &&& status / 16 == 0xC ==> (r matches Scan::Got((Some(m), p)) && p == pos + 1 && (
            m matches Message::ProgramChange { channel: c, program } && c == channel && program
                == a))
            &&& status / 16 == 0xE ==> (r matches Scan::Got((Some(m), p)) && p == pos + 2 && (
            m matches Message::PitchBend { channel: c, value } && c == channel && (a < 128 && b
                < 128 ==> value == b * 128 + a - 8192)))
            &&& status / 16 == 0xA || status / 16 == 0xD || status / 16 == 0xF ==> (
            r matches Scan::Got((None, p)) && p == pos + 1)
        }),
{
    let (a, b) = (data[pos as int], data[pos as int + 1]);
    if a < 128 && b < 128 {
        assert((((b as u16) << 7u16) | (a as u16)) == b * 128 + a) by (bit_vector)
            requires
                a < 128,
                b < 128,
        ;
    }
}

/// A message about the file is read from its kind and what it says; kinds that mean
/// nothing here are passed over, and one that says too little for its kind is short.
pub proof fn file_data_is_read(kind: u8, b: Seq<u8>)
    ensures
        ({
            let r = meta_message(kind, b);
            &&& kind == 0x03 ==> (r matches Scan::Got(Some(Message::TrackName(n))) && n == b)
            &&& kind == 0x2F ==> (r matches Scan::Got(Some(m)) && m is EndOfTrack)
            &&& kind == 0x51 ==> if b.len() < 3 {
                r is ShortPayload
            } else {
                r matches Scan::Got(Some(Message::Tempo(m))) && m == (b[0] * 256 + b[1]) * 256
                    + b[2]
            }
            &&& kind == 0x58 && b.len() >= 4 && b[1] <= 7 ==> (r matches Scan::Got(Some(m)) && (
            m matches Message::TimeSignature { numerator, denominator, clocks, notated_32nds }
                && numerator == b[0] && denominator == vstd::arithmetic::power2::pow2(b[1] as nat)
                && clocks == b[2] && notated_32nds == b[3]))
            &&& kind == 0x58 && (b.len() < 4 || b[1] > 7) ==> r is ShortPayload
            &&& kind == 0x59 ==> if b.len() < 2 {
                r is ShortPayload
            } else {
                r matches Scan::Got(Some(m)) && (m matches Message::KeySignature {
                    sharps_flats,
                    minor,
                } && (sharps_flats == b[0] || sharps_flats == b[0] - 256) && (minor <==> b[1] != 0))
            }
            &&& kind != 0x03 && kind != 0x2F && kind != 0x51 && kind != 0x58 && kind != 0x59 ==> (
            r matches Scan::Got(m) && m is None)
        }),
{
    if kind == 0x58 && b.len() >= 4 && b[1] <= 7 {
        lemma_power_of_two(b[1] as nat);
        vstd::arithmetic::power2::lemma2_to64();
    }
}

proof fn lemma_power_of_two(e: nat)
    ensures
        power_of_two(e) == vstd::arithmetic::power2::pow2(e),
    decreases e,
{
    if e == 0 {
        vstd::arithmetic::power2::lemma2_to64();
    } else {
        lemma_power_of_two((e - 1) as nat);
        vstd::arithmetic::power2::lemma_pow2_unfold(e);
    }
}

/// A track is called by the last name that it states.
pub proof fn track_is_called_by_its_last_name<N>(events: Seq<Event<N>>, e: Event<N>)
    ensures
        e.message matches Message::TrackName(n) ==> last_name(events.push(e)) == Some(n),
        !(e.message is TrackName) ==> last_name(events.push(e)) == last_name(events),
        last_name(Seq::<Event<N>>::empty()) is None,
{
    assert(events.push(e).drop_last() == events);
}

/// An event keeps its time, and the status that it stands under is the one that later
/// events run on, whether it is passed over or not.
pub proof fn status_runs_on(data: Seq<u8>, pos: nat, running: u8, delta: nat, p: nat)
    requires
        read_var_len(data, pos, 0, 4) == Scan::Got((delta, p)),
        p < data.len(),
    ensures
        read_event(data, pos, running) matches Scan::Got(step) ==> {
            &&& data[p as int] >= 128 ==> step.status == data[p as int]
            &&& data[p as int] < 128 ==> step.status == running
            &&& step.event matches Some(e) ==> e.delta == delta as u32
        },
{
}

/// The kind of a meta event that runs on the status of one before is read as one that
/// stands behind its own.
pub proof fn running_meta_reads_alike(data: Seq<u8>, pos: nat)
    requires
        pos < data.len(),
        data[pos as int] != 0xFF,
    ensures
        read_meta(data, pos + 1, data[pos as int]) == read_meta(data, pos, 0xFF),
{
}

/// A track's events are read one behind the other; what is passed over leaves nothing, and
/// a failure anywhere is the track's.
pub proof fn events_are_read_in_a_row(data: Seq<u8>, pos: nat, end: nat, running: u8, step: EventStep)
    requires
        pos < end,
    ensures
        read_event(data, pos, running) == Scan::Got(step) ==> {
            let rest = read_events(data, step.pos, end, step.status);
            let all = read_events(data, pos, end, running);
            &&& step.event is None ==> all == rest
            &&& step.event matches Some(e) ==> (rest matches Scan::Got(r) ==> (all matches Scan::Got(
                a,
            ) && a.0.len() == r.0.len() + 1 && a.0[0] == e && a.0.drop_first() == r.0 && a.1
                == r.1))
            &&& rest matches Scan::Fail(e) ==> all == Scan::<(Seq<Event<Seq<u8>>>, nat)>::Fail(e)
        },
        read_event(data, pos, running) matches Scan::Fail(e) ==> read_events(
            data,
            pos,
            end,
            running,
        ) == Scan::<(Seq<Event<Seq<u8>>>, nat)>::Fail(e),
        read_events(data, end, end, running) == Scan::Got((Seq::<Event<Seq<u8>>>::empty(), end)),
{
    if read_event(data, pos, running) == Scan::Got(step) {
        lemma_event_advances(data, pos, running);
        if let Scan::Got(r) = read_events(data, step.pos, end, step.status) {
            if let Some(e) = step.event {
                assert((seq![e] + r.0).drop_first() == r.0);
            }
        }
    }
}

} // verus!
