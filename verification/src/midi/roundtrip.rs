//! Reading gives back what was written.
use crate::midi::error::MidiError;
use crate::midi::file::{Event, FileView, Message, TrackView};
use crate::midi::reader::{
    as_signed, be16_at, meta_message, be32_at, bend_value, decoded_events, decoded_file, decoded_tracks, format_of,
    last_name, power_of_two, read_channel, read_event, read_events, read_file, read_meta, read_track,
    read_tracks, read_var_len, EventStep, RawFile, RawTrack, Scan,
};
use crate::midi::writer::{
    be16, be32, edge_event, edge_events, encoded_event, encoded_message, end_event, event_bytes,
    events_bytes, file_bytes, fits_var_len, floor_log2, format_number, has_track, header_bytes,
    key_name, leading_groups, length32, message_bytes, note_edges, opening_events, phrase_file,
    phrase_track, track_bytes, tracks_bytes, var_len_bytes, writable, writable_events,
    writable_message, NoteEdge,
};
use crate::sorting::sorted;
use crate::theory::phrase::PhraseView;
use crate::theory::rhythm::NoteEvent;
use vstd::prelude::*;
use vstd::utf8::encode_utf8;

verus! {

/// Whether a message's contents fit the places that a file has for them.
/// System-exclusive messages are written and never read back.
pub open spec fn faithful_message(m: Message<Seq<char>>) -> bool {
    match m {
        Message::NoteOn { channel, .. } => channel < 16,
        Message::NoteOff { channel, .. } => channel < 16,
        Message::ProgramChange { channel, .. } => channel < 16,
        Message::ControlChange { channel, .. } => channel < 16,
        Message::PitchBend { channel, value } => channel < 16 && -8192 <= value <= 8191,
        Message::Tempo(m) => m < 0x100_0000,
        Message::TimeSignature { denominator, .. } => power_of_two(floor_log2(denominator as nat))
            == denominator,
        Message::KeySignature { .. } => true,
        Message::TrackName(name) => fits_var_len(encode_utf8(name).len()),
        Message::EndOfTrack => true,
        Message::SysEx(_) => false,
    }
}

/// Whether an event fits a file.
pub open spec fn faithful_event(e: Event<Seq<char>>) -> bool {
    fits_var_len(e.delta as nat) && faithful_message(e.message)
}

/// Whether every event of a row fits a file.
pub open spec fn faithful_events(events: Seq<Event<Seq<char>>>) -> bool {
    forall|i: int| 0 <= i < events.len() ==> faithful_event(#[trigger] events[i])
}

/// Whether a track fits a file: so do its events, and their length fits 32 bits.
pub open spec fn faithful_track(t: TrackView) -> bool {
    faithful_events(t.events) && events_bytes(t.events).len() < 0x1_0000_0000
}

/// Whether the contents of a file fit the places that a file has for them.
pub open spec fn faithful(f: FileView) -> bool {
    f.tracks.len() < 65536 && forall|i: int|
        0 <= i < f.tracks.len() ==> faithful_track(#[trigger] f.tracks[i])
}

/// A track as it reads back: it is called by its last track-name event.
pub open spec fn renamed(t: TrackView) -> TrackView {
    TrackView { name: last_name(t.events), events: t.events }
}

/// A file as it reads back.
pub open spec fn read_back(f: FileView) -> FileView {
    FileView { header: f.header, tracks: f.tracks.map_values(|t: TrackView| renamed(t)) }
}

/// Whether `b` stands in `data` at `pos`.
spec fn stands_at(data: Seq<u8>, pos: nat, b: Seq<u8>) -> bool {
    pos + b.len() <= data.len() && data.subrange(pos as int, (pos + b.len()) as int) == b
}

proof fn lemma_stands(data: Seq<u8>, pos: nat, b: Seq<u8>)
    requires
        stands_at(data, pos, b),
    ensures
        forall|i: int| 0 <= i < b.len() ==> data[pos + i] == #[trigger] b[i],
{
    assert forall|i: int| 0 <= i < b.len() implies data[pos + i] == #[trigger] b[i] by {
        assert(data.subrange(pos as int, (pos + b.len()) as int)[i] == b[i]);
    }
}

proof fn lemma_stands_split(data: Seq<u8>, pos: nat, a: Seq<u8>, b: Seq<u8>)
    requires
        stands_at(data, pos, a + b),
    ensures
        stands_at(data, pos, a),
        stands_at(data, pos + a.len(), b),
{
    lemma_stands(data, pos, a + b);
    assert(data.subrange(pos as int, (pos + a.len()) as int) == a) by {
        assert forall|i: int| 0 <= i < a.len() implies data[pos + i] == a[i] by {
            assert((a + b)[i] == a[i]);
        }
    }
    let q = pos + a.len();
    assert(data.subrange(q as int, (q + b.len()) as int) == b) by {
        assert forall|i: int| 0 <= i < b.len() implies data[q + i] == b[i] by {
            assert((a + b)[a.len() + i] == b[i]);
        }
    }
}

proof fn lemma_read_var_len(data: Seq<u8>, pos: nat, n: nat)
    requires
        fits_var_len(n),
        stands_at(data, pos, var_len_bytes(n)),
    ensures
        read_var_len(data, pos, 0, 4) == Scan::Got((n, pos + var_len_bytes(n).len())),
        var_len_bytes(n).len() >= 1,
{
    let b = var_len_bytes(n);
    lemma_stands(data, pos, b);
    let q1 = n / 128;
    let q2 = q1 / 128;
    let q3 = q2 / 128;
    assert(q3 < 128);
    let d0 = (n % 128) as u8;
    let d1 = (q1 % 128 + 128) as u8;
    let d2 = (q2 % 128 + 128) as u8;
    let d3 = (q3 % 128 + 128) as u8;
    assert(leading_groups(0) == Seq::<u8>::empty());
    assert(q1 * 128 + d0 == n);
    if q1 == 0 {
        assert(b == seq![d0]);
        assert(data[pos as int] == b[0]);
    } else {
        assert(d1 >= 128 && q2 * 128 + (d1 % 128) == q1);
        if q2 == 0 {
            assert(leading_groups(q1) == seq![d1]);
            assert(b == seq![d1, d0]);
            assert(data[pos as int] == b[0]);
            assert(data[pos as int + 1] == b[1]);
            assert(read_var_len(data, pos + 1, q1, 3) == Scan::Got((n, pos + 2)));
        } else {
            assert(d2 >= 128 && q3 * 128 + (d2 % 128) == q2);
            if q3 == 0 {
                assert(leading_groups(q2) == seq![d2]);
                assert(leading_groups(q1) == seq![d2, d1]);
                assert(b == seq![d2, d1, d0]);
                assert(data[pos as int] == b[0]);
                assert(data[pos as int + 1] == b[1]);
                assert(data[pos as int + 2] == b[2]);
                assert(read_var_len(data, pos + 2, q1, 2) == Scan::Got((n, pos + 3)));
                assert(read_var_len(data, pos + 1, q2, 3) == Scan::Got((n, pos + 3)));
            } else {
                assert(d3 >= 128 && (d3 % 128) == q3);
                assert(q3 / 128 == 0);
                assert(leading_groups(q3) == seq![d3]);
                assert(leading_groups(q2) == seq![d3, d2]);
                assert(leading_groups(q1) == seq![d3, d2, d1]);
                assert(b == seq![d3, d2, d1, d0]);
                assert(data[pos as int] == b[0]);
                assert(data[pos as int + 1] == b[1]);
                assert(data[pos as int + 2] == b[2]);
                assert(data[pos as int + 3] == b[3]);
                assert(read_var_len(data, pos + 3, q1, 1) == Scan::Got((n, pos + 4)));
                assert(read_var_len(data, pos + 2, q2, 2) == Scan::Got((n, pos + 4)));
                assert(read_var_len(data, pos + 1, q3, 3) == Scan::Got((n, pos + 4)));
            }
        }
    }
}

/// A length below 2^28 reads back as it was written, and all of its bytes are read. It
/// takes as few bytes as groups of seven bits allow.
pub proof fn length_reads_back(n: nat)
    requires
        fits_var_len(n),
    ensures
        read_var_len(var_len_bytes(n), 0, 0, 4) == Scan::Got((n, var_len_bytes(n).len())),
        var_len_bytes(n).len() == (if n < 0x80 {
            1nat
        } else if n < 0x4000 {
            2nat
        } else if n < 0x20_0000 {
            3nat
        } else {
            4nat
        }),
{
    let b = var_len_bytes(n);
    assert(b.subrange(0, b.len() as int) == b);
    lemma_read_var_len(b, 0, n);
    let q1 = n / 128;
    let q2 = q1 / 128;
    let q3 = q2 / 128;
    assert(q3 < 128);
    assert(q3 / 128 == 0);
    assert(leading_groups(0) == Seq::<u8>::empty());
    reveal_with_fuel(leading_groups, 5);
}

/// Four bytes that all announce another one are no length.
pub proof fn length_of_more_than_four_bytes_is_refused(data: Seq<u8>, pos: nat)
    requires
        pos + 4 <= data.len(),
        forall|i: int| pos <= i < pos + 4 ==> (#[trigger] data[i]) >= 128,
    ensures
        read_var_len(data, pos, 0, 4) == Scan::<(nat, nat)>::Fail(MidiError::VarLenOverflow),
{
    reveal_with_fuel(read_var_len, 5);
}

proof fn lemma_bend(value: i16)
    requires
        -8192 <= value <= 8191,
    ensures
        bend_value(((value + 8192) % 128) as u8, ((value + 8192) / 128 % 128) as u8) == value,
{
    let low = ((value + 8192) % 128) as u8;
    let high = ((value + 8192) / 128 % 128) as u8;
    assert((((high as u16) << 7u16) | (low as u16)) == high * 128 + low) by (bit_vector)
        requires
            low < 128,
            high < 128,
    ;
}

proof fn lemma_floor_log2_small(n: nat)
    requires
        n < 256,
    ensures
        floor_log2(n) <= 7,
{
    reveal_with_fuel(floor_log2, 9);
}

/// The first byte of a message.
spec fn status_of(m: Message<Seq<u8>>) -> u8 {
    message_bytes(m)[0]
}

proof fn lemma_read_channel(data: Seq<u8>, pos: nat, m: Message<Seq<char>>)
    requires
        faithful_message(m),
        m is NoteOn || m is NoteOff || m is ProgramChange || m is ControlChange || m is PitchBend,
        stands_at(data, pos, message_bytes(encoded_message(m))),
    ensures
        128 <= status_of(encoded_message(m)) < 0xFF,
        data[pos as int] == status_of(encoded_message(m)),
        read_channel(
            data,
            pos + 1,
            status_of(encoded_message(m)),
            status_of(encoded_message(m)),
        ) == Scan::Got(
            (Some(encoded_message(m)), pos + message_bytes(encoded_message(m)).len()),
        ),
{
    let w = encoded_message(m);
    let b = message_bytes(w);
    lemma_stands(data, pos, b);
    assert(data[pos as int] == b[0]);
    assert(data[pos as int + 1] == b[1]);
    if m is ProgramChange {
    } else {
        assert(data[pos as int + 2] == b[2]);
        if let Message::PitchBend { channel, value } = m {
            lemma_bend(value);
        }
    }
}

proof fn lemma_read_meta(data: Seq<u8>, pos: nat, m: Message<Seq<char>>)
    requires
        faithful_message(m),
        m is Tempo || m is TimeSignature || m is KeySignature || m is TrackName || m is EndOfTrack,
        stands_at(data, pos, message_bytes(encoded_message(m))),
    ensures
        status_of(encoded_message(m)) == 0xFF,
        data[pos as int] == 0xFF,
        read_meta(data, pos + 1, 0xFF) == Scan::Got(
            (Some(encoded_message(m)), pos + message_bytes(encoded_message(m)).len()),
        ),
{
    let w = encoded_message(m);
    let b = message_bytes(w);
    lemma_stands(data, pos, b);
    assert(data[pos as int] == b[0]);
    assert(data[pos as int + 1] == b[1]);
    if let Message::TrackName(name) = w {
        let head = seq![0xFFu8, 0x03];
        let len = var_len_bytes(length32(name.len()));
        assert(length32(name.len()) == name.len());
        lemma_stands_split(data, pos, head + len, name);
        lemma_stands_split(data, pos, head, len);
        lemma_read_var_len(data, pos + 2, name.len());
    } else {
        assert(data[pos as int + 2] == b[2]);
        let n = (b.len() - 3) as nat;
        reveal_with_fuel(leading_groups, 2);
        reveal_with_fuel(read_var_len, 2);
        assert(read_var_len(data, pos + 2, 0, 4) == Scan::Got((n, pos + 3)));
        let payload = data.subrange((pos + 3) as int, (pos + 3 + n) as int);
        assert forall|i: int| 0 <= i < n implies payload[i] == b[i + 3] by {
            assert(data[pos + (i + 3)] == b[i + 3]);
        }
        lemma_meta_payload(m, payload);
        assert(meta_message(b[1], payload) == Scan::Got(Some(w)));
    }
}

proof fn lemma_meta_payload(m: Message<Seq<char>>, payload: Seq<u8>)
    requires
        faithful_message(m),
        m is Tempo || m is TimeSignature || m is KeySignature || m is EndOfTrack,
        message_bytes(encoded_message(m)).len() == payload.len() + 3,
        forall|i: int|
            0 <= i < payload.len() ==> (#[trigger] payload[i]) == message_bytes(
                encoded_message(m),
            )[i + 3],
    ensures
        meta_message(message_bytes(encoded_message(m))[1], payload) == Scan::Got(
            Some(encoded_message(m)),
        ),
{
    let w = encoded_message(m);
    let b = message_bytes(w);
    match w {
        Message::Tempo(micros) => {
            assert(payload[0] == b[3] && payload[1] == b[4] && payload[2] == b[5]);
        },
        Message::TimeSignature { denominator, .. } => {
            assert(payload[0] == b[3] && payload[1] == b[4] && payload[2] == b[5] && payload[3]
                == b[6]);
            lemma_floor_log2_small(denominator as nat);
        },
        Message::KeySignature { sharps_flats, minor } => {
            assert(payload[0] == b[3] && payload[1] == b[4]);
            assert(as_signed((sharps_flats as int % 256) as u8) == sharps_flats);
        },
        _ => {},
    }
}

proof fn lemma_read_event(data: Seq<u8>, pos: nat, running: u8, e: Event<Seq<char>>)
    requires
        faithful_event(e),
        stands_at(data, pos, event_bytes(encoded_event(e))),
    ensures
        event_bytes(encoded_event(e)).len() > 0,
        read_event(data, pos, running) == Scan::Got(
            EventStep {
                event: Some(encoded_event(e)),
                status: status_of(encoded_message(e.message)),
                pos: pos + event_bytes(encoded_event(e)).len(),
            },
        ),
{
    let w = encoded_event(e);
    let v = var_len_bytes(e.delta as nat);
    lemma_stands_split(data, pos, v, message_bytes(w.message));
    lemma_read_var_len(data, pos, e.delta as nat);
    let p = pos + v.len();
    if e.message is Tempo || e.message is TimeSignature || e.message is KeySignature
        || e.message is TrackName || e.message is EndOfTrack {
        lemma_read_meta(data, p, e.message);
    } else {
        lemma_read_channel(data, p, e.message);
    }
}

proof fn lemma_events_bytes_front(events: Seq<Event<Seq<char>>>)
    requires
        events.len() > 0,
    ensures
        events_bytes(events) == event_bytes(encoded_event(events[0])) + events_bytes(
            events.drop_first(),
        ),
    decreases events.len(),
{
    if events.len() == 1 {
        assert(events.drop_last() == Seq::<Event<Seq<char>>>::empty());
        assert(events.drop_first() == Seq::<Event<Seq<char>>>::empty());
        assert(events_bytes(events) == event_bytes(encoded_event(events[0])) + events_bytes(
            events.drop_first(),
        ));
    } else {
        let init = events.drop_last();
        lemma_events_bytes_front(init);
        assert(init.drop_first() == events.drop_first().drop_last());
        let a = event_bytes(encoded_event(events[0]));
        let m = events_bytes(init.drop_first());
        let z = event_bytes(encoded_event(events.last()));
        assert((a + m) + z == a + (m + z));
    }
}

/// The events with their names encoded.
pub open spec fn encoded_events(events: Seq<Event<Seq<char>>>) -> Seq<Event<Seq<u8>>> {
    events.map_values(|e: Event<Seq<char>>| encoded_event(e))
}

proof fn lemma_read_events(
    data: Seq<u8>,
    pos: nat,
    end: nat,
    running: u8,
    events: Seq<Event<Seq<char>>>,
)
    requires
        faithful_events(events),
        stands_at(data, pos, events_bytes(events)),
        end == pos + events_bytes(events).len(),
    ensures
        read_events(data, pos, end, running) == Scan::Got((encoded_events(events), end)),
    decreases events.len(),
{
    if events.len() == 0 {
        assert(encoded_events(events) == Seq::<Event<Seq<u8>>>::empty());
    } else {
        let rest = events.drop_first();
        let b = event_bytes(encoded_event(events[0]));
        lemma_events_bytes_front(events);
        lemma_stands_split(data, pos, b, events_bytes(rest));
        lemma_read_event(data, pos, running, events[0]);
        assert(faithful_events(rest)) by {
            assert forall|i: int| 0 <= i < rest.len() implies faithful_event(
                #[trigger] rest[i],
            ) by {
                assert(rest[i] == events[i + 1]);
            }
        }
        lemma_read_events(
            data,
            pos + b.len(),
            end,
            status_of(encoded_message(events[0].message)),
            rest,
        );
        assert(seq![encoded_event(events[0])] + encoded_events(rest) == encoded_events(events));
    }
}

proof fn lemma_be32(n: nat)
    requires
        n < 0x1_0000_0000,
    ensures
        be32_at(be32(n), 0) == n,
{
}

proof fn lemma_read_track(data: Seq<u8>, pos: nat, t: TrackView)
    requires
        faithful_track(t),
        stands_at(data, pos, track_bytes(t)),
    ensures
        read_track(data, pos) == Scan::Got(
            (RawTrack { events: encoded_events(t.events) }, pos + track_bytes(t).len()),
        ),
{
    let tag = seq![0x4Du8, 0x54, 0x72, 0x6B];
    let body = events_bytes(t.events);
    let len = be32(length32(body.len()));
    assert(length32(body.len()) == body.len());
    lemma_stands_split(data, pos, tag + len, body);
    lemma_stands_split(data, pos, tag, len);
    lemma_stands(data, pos, tag);
    lemma_stands(data, pos + 4, len);
    assert(data[pos as int] == tag[0] && data[pos as int + 1] == tag[1] && data[pos as int + 2] == tag[2]
        && data[pos as int + 3] == tag[3]);
    assert(data[pos as int + 4 + 0] == len[0] && data[pos as int + 4 + 1] == len[1] && data[pos as int + 4 + 2] == len[2]
        && data[pos as int + 4 + 3] == len[3]);
    lemma_be32(body.len());
    assert(be32_at(data, pos as int + 4) == body.len());
    lemma_read_events(data, pos + 8, pos + 8 + body.len(), 0, t.events);
}

proof fn lemma_tracks_bytes_front(ts: Seq<TrackView>)
    requires
        ts.len() > 0,
    ensures
        tracks_bytes(ts) == track_bytes(ts[0]) + tracks_bytes(ts.drop_first()),
    decreases ts.len(),
{
    if ts.len() == 1 {
        assert(ts.drop_last() == Seq::<TrackView>::empty());
        assert(ts.drop_first() == Seq::<TrackView>::empty());
        assert(tracks_bytes(ts) == track_bytes(ts[0]) + tracks_bytes(ts.drop_first()));
    } else {
        let init = ts.drop_last();
        lemma_tracks_bytes_front(init);
        assert(init.drop_first() == ts.drop_first().drop_last());
        let a = track_bytes(ts[0]);
        let m = tracks_bytes(init.drop_first());
        let z = track_bytes(ts.last());
        assert((a + m) + z == a + (m + z));
    }
}

/// The tracks as they stand in a file.
pub open spec fn raw_tracks(ts: Seq<TrackView>) -> Seq<RawTrack> {
    ts.map_values(|t: TrackView| RawTrack { events: encoded_events(t.events) })
}

proof fn lemma_read_tracks(data: Seq<u8>, pos: nat, ts: Seq<TrackView>)
    requires
        forall|i: int| 0 <= i < ts.len() ==> faithful_track(#[trigger] ts[i]),
        stands_at(data, pos, tracks_bytes(ts)),
    ensures
        read_tracks(data, pos, ts.len()) == Scan::Got(raw_tracks(ts)),
    decreases ts.len(),
{
    if ts.len() == 0 {
        assert(raw_tracks(ts) == Seq::<RawTrack>::empty());
    } else {
        let rest = ts.drop_first();
        lemma_tracks_bytes_front(ts);
        lemma_stands_split(data, pos, track_bytes(ts[0]), tracks_bytes(rest));
        lemma_read_track(data, pos, ts[0]);
        assert forall|i: int| 0 <= i < rest.len() implies faithful_track(#[trigger] rest[i]) by {
            assert(rest[i] == ts[i + 1]);
        }
        lemma_read_tracks(data, pos + track_bytes(ts[0]).len(), rest);
        assert(seq![RawTrack { events: encoded_events(ts[0].events) }] + raw_tracks(rest)
            == raw_tracks(ts));
    }
}

proof fn lemma_decode_events(events: Seq<Event<Seq<char>>>)
    ensures
        decoded_events(encoded_events(events)) == events,
{
    assert forall|i: int| 0 <= i < events.len() implies decoded_events(
        encoded_events(events),
    )[i] == events[i] by {
        if let Message::TrackName(name) = events[i].message {
            vstd::utf8::encode_utf8_valid_utf8(name);
            vstd::utf8::encode_utf8_decode_utf8(name);
        }
    }
    assert(decoded_events(encoded_events(events)) == events);
}

/// The bytes of a file whose contents fit it read back as that file. Only a
/// track's own name is not among the bytes: the track comes back under the name
/// that its last track-name event gives it.
pub proof fn reading_gives_back_what_was_written(f: FileView)
    requires
        faithful(f),
    ensures
        read_file(file_bytes(f)) is Got,
        decoded_file(read_file(file_bytes(f))->Got_0) == read_back(f),
{
    let data = file_bytes(f);
    let head = header_bytes(f.header, f.tracks.len());
    let body = tracks_bytes(f.tracks);
    let n = f.tracks.len();
    assert(head.len() == 14);
    assert forall|i: int| 0 <= i < 14 implies data[i] == head[i] by {}
    assert(head[8] == be16(format_number(f.header.format))[0]);
    assert(head[9] == be16(format_number(f.header.format))[1]);
    assert(head[10] == be16(n % 65536)[0]);
    assert(head[11] == be16(n % 65536)[1]);
    assert(head[12] == be16(f.header.ticks_per_quarter as nat)[0]);
    assert(head[13] == be16(f.header.ticks_per_quarter as nat)[1]);
    assert(head[0] == 0x4D && head[1] == 0x54 && head[2] == 0x68 && head[3] == 0x64);
    assert(be16_at(data, 8) == format_number(f.header.format));
    assert(be16_at(data, 10) == n);
    assert(be16_at(data, 12) == f.header.ticks_per_quarter);
    assert(format_of(be16_at(data, 8)) == Some(f.header.format));
    assert(stands_at(data, 14, body)) by {
        assert(data.subrange(14, data.len() as int) == body);
    }
    lemma_read_tracks(data, 14, f.tracks);
    let raw = RawFile { header: f.header, tracks: raw_tracks(f.tracks) };
    assert(read_file(data) == Scan::Got(raw));
    assert(decoded_tracks(raw.tracks) == read_back(f).tracks) by {
        assert forall|i: int| 0 <= i < n implies decoded_tracks(raw.tracks)[i]
            == read_back(f).tracks[i] by {
            lemma_decode_events(f.tracks[i].events);
        }
    }
}

/// Whether the time from each edge of a row to the next fits four bytes.
pub open spec fn deltas_fit(edges: Seq<NoteEdge>) -> bool {
    forall|i: int|
        0 <= i < edges.len() ==> fits_var_len((#[trigger] edge_event(edges, i)).delta as nat)
}

/// Whether a phrase's contents fit the places that a file has for them.
pub open spec fn faithful_phrase(p: PhraseView) -> bool {
    &&& has_track(p)
    &&& p.tempo >= 4
    &&& power_of_two(floor_log2(p.time_sig.denominator as nat)) == p.time_sig.denominator
    &&& forall|i: int| 0 <= i < p.events.len() ==> (#[trigger] p.events[i]).channel < 16
    &&& deltas_fit(sorted(note_edges(p.events)))
    &&& events_bytes(phrase_track(p).events).len() < 0x1_0000_0000
}

spec fn edges_fit(edges: Seq<NoteEdge>) -> bool {
    forall|i: int| 0 <= i < edges.len() ==> (#[trigger] edges[i]).channel < 16
}

proof fn lemma_note_edges_fit(events: Seq<NoteEvent>)
    requires
        forall|i: int| 0 <= i < events.len() ==> (#[trigger] events[i]).channel < 16,
    ensures
        edges_fit(note_edges(events)),
    decreases events.len(),
{
    if events.len() > 0 {
        let init = events.drop_last();
        assert forall|i: int| 0 <= i < init.len() implies (#[trigger] init[i]).channel < 16 by {
            assert(init[i] == events[i]);
        }
        lemma_note_edges_fit(init);
        assert(events.last() == events[events.len() - 1]);
    }
}

proof fn lemma_sorted_edges_fit(edges: Seq<NoteEdge>)
    requires
        edges_fit(edges),
    ensures
        edges_fit(sorted(edges)),
{
    crate::sorting::sorted_keeps_items(edges);
    assert forall|i: int| 0 <= i < sorted(edges).len() implies (#[trigger] sorted(
        edges,
    )[i]).channel < 16 by {
        let x = sorted(edges)[i];
        assert(edges.contains(x));
        let j = choose|j: int| 0 <= j < edges.len() && edges[j] == x;
        assert(edges[j].channel < 16);
    }
}

proof fn lemma_ascii_len(s: Seq<char>)
    requires
        vstd::utf8::is_ascii_chars(s),
    ensures
        encode_utf8(s).len() == s.len(),
{
    vstd::utf8::is_ascii_chars_encode_utf8(s);
}

proof fn lemma_key_name_fits(s: crate::theory::scale::Scale)
    ensures
        fits_var_len(encode_utf8(key_name(s)).len()),
{
    crate::theory::pitch::class_names_are_ascii(s.root.0 as int % 12);
    crate::theory::scale::mode_identifiers_are_ascii(s.mode);
    reveal_strlit(" ");
    let a = crate::theory::pitch::class_name(s.root.0 as int % 12);
    let b = crate::theory::scale::mode_identifier(s.mode);
    let name = key_name(s);
    assert(name == a + " "@ + b);
    assert(vstd::utf8::is_ascii_chars(name)) by {
        assert forall|i: int| 0 <= i < name.len() implies '\0' <= #[trigger] name[i] <= '\u{7f}' by {
            if i < a.len() {
                assert(name[i] == a[i]);
            } else if i > a.len() {
                assert(name[i] == b[i - a.len() - 1]);
            } else {
                assert(name[i] == ' ');
            }
        }
    }
    lemma_ascii_len(name);
}

/// The file that a phrase turns into reads back as it was written: the track
/// comes back under the key's name, or without a name where there is no key.
pub proof fn phrase_survives_its_file(p: PhraseView)
    requires
        faithful_phrase(p),
    ensures
        faithful(phrase_file(p)),
        read_file(file_bytes(phrase_file(p))) is Got,
        decoded_file(read_file(file_bytes(phrase_file(p)))->Got_0) == read_back(phrase_file(p)),
{
    let edges = sorted(note_edges(p.events));
    lemma_note_edges_fit(p.events);
    lemma_sorted_edges_fit(note_edges(p.events));
    let events = phrase_track(p).events;
    let front = opening_events(p);
    let mid = edge_events(edges);
    assert(60_000_000int / p.tempo as int <= 15_000_000) by (nonlinear_arith)
        requires
            p.tempo >= 4,
    ;
    assert(0 <= 60_000_000int / p.tempo as int) by (nonlinear_arith)
        requires
            p.tempo >= 4,
    ;
    assert forall|i: int| 0 <= i < events.len() implies faithful_event(#[trigger] events[i]) by {
        if i < front.len() {
            assert(events[i] == front[i]);
            if let Some(s) = p.key {
                lemma_key_name_fits(s);
            }
        } else if i < front.len() + mid.len() {
            let j = i - front.len();
            assert(events[i] == edge_event(edges, j));
            assert(edges[j].channel < 16);
        } else {
            assert(events[i] == end_event());
        }
    }
    assert(faithful_track(phrase_track(p)));
    reading_gives_back_what_was_written(phrase_file(p));
}

/// A phrase with a tempo whose notes end before tick 2^28 can be written as a file.
pub proof fn ordinary_phrases_can_be_written(p: PhraseView)
    requires
        p.tempo > 0,
        forall|i: int|
            0 <= i < p.events.len() ==> (#[trigger] p.events[i]).start + p.events[i].duration
                < 0x1000_0000,
    ensures
        has_track(p),
        writable(phrase_file(p)),
{
    let pairs = note_edges(p.events);
    let edges = sorted(pairs);
    lemma_edges_early(p.events);
    crate::sorting::sorted_keeps_items(pairs);
    let t = phrase_track(p);
    let (front, mid) = (opening_events(p), edge_events(edges));
    assert(phrase_file(p).tracks[0] == t);
    assert(writable_events(t.events)) by {
        assert forall|i: int| 0 <= i < t.events.len() implies fits_var_len(
            (#[trigger] t.events[i]).delta as nat,
        ) && writable_message(encoded_message(t.events[i].message)) by {
            if i < front.len() {
                assert(t.events[i] == front[i]);
                if let Some(s) = p.key {
                    lemma_key_name_fits(s);
                }
            } else if i < front.len() + mid.len() {
                let j = i - front.len();
                assert(t.events[i] == edge_event(edges, j));
                assert(pairs.contains(edges[j]));
                let k = choose|k: int| 0 <= k < pairs.len() && pairs[k] == edges[j];
                assert(pairs[k].tick < 0x1000_0000);
            } else {
                assert(t.events[i] == end_event());
            }
        }
    }
}

proof fn lemma_edges_early(events: Seq<NoteEvent>)
    requires
        forall|i: int|
            0 <= i < events.len() ==> (#[trigger] events[i]).start + events[i].duration
                < 0x1000_0000,
    ensures
        forall|i: int|
            0 <= i < note_edges(events).len() ==> (#[trigger] note_edges(events)[i]).tick
                < 0x1000_0000,
    decreases events.len(),
{
    if events.len() > 0 {
        let init = events.drop_last();
        assert forall|i: int| 0 <= i < init.len() implies (#[trigger] init[i]).start
            + init[i].duration < 0x1000_0000 by {
            assert(init[i] == events[i]);
        }
        lemma_edges_early(init);
        assert(events[events.len() - 1].start + events[events.len() - 1].duration < 0x1000_0000);
        assert forall|i: int| 0 <= i < note_edges(events).len() implies (#[trigger] note_edges(
            events,
        )[i]).tick < 0x1000_0000 by {
            if i < note_edges(init).len() {
                assert(note_edges(events)[i] == note_edges(init)[i]);
            }
        }
    }
}

} // verus!
