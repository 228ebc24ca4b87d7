//! Turning a phrase into timed commands.
use crate::daemon::audio::{AudioCmd, TimedCmd};
use crate::rounding::{
    in_units, parts, product, quotient, round, round_half_up, round_ratio, rounded_ratio,
    rounding_is_close, saturated, scaled_round, scaled_round_even, scaled_whole_is_within_a_half,
    small_whole_is_exact, whole, whole_is_within_a_half, Binary,
};
use crate::sorting::{sorted, stable_sort};
use crate::theory::rhythm::NoteEvent;
use vstd::arithmetic::power2::{lemma_pow2_pos, pow2};
use vstd::prelude::*;

verus! {

/// The tempo that counts: at least one beat per minute.
pub open spec fn counted_tempo(tempo: u16) -> nat {
    if tempo == 0 {
        1
    } else {
        tempo as nat
    }
}

/// The seconds of one tick at a tempo, in double precision: a minute divided by
/// the tempo, then by the 480 ticks of a beat.
pub open spec fn secs_per_tick(tempo: u16) -> (nat, int) {
    quotient(quotient(whole(60, 53), counted_tempo(tempo), 53), 480, 53)
}

/// The seconds of some ticks, in double precision.
pub open spec fn secs_of(ticks: u32, tempo: u16) -> (nat, int) {
    product(whole(ticks as nat, 53), secs_per_tick(tempo), 53)
}

/// The audio frame of some ticks: their seconds times the sample rate in double
/// precision, then the nearest whole number.
pub open spec fn frames_at(ticks: u32, tempo: u16, sample_rate: u32) -> u64 {
    saturated(round_half_up(product(secs_of(ticks, tempo), whole(sample_rate as nat, 53), 53)))
}

/// The whole nanoseconds nearest to the seconds of some ticks.
pub open spec fn nanos_at(ticks: u32, tempo: u16) -> u64 {
    saturated(scaled_round_even(secs_of(ticks, tempo), 1_000_000_000))
}

/// The tick at which a note ends, or the last tick that can be counted.
pub open spec fn off_tick(ev: NoteEvent) -> u32 {
    if ev.start + ev.duration > u32::MAX {
        u32::MAX
    } else {
        (ev.start + ev.duration) as u32
    }
}

/// The command that begins a note.
pub open spec fn on_command(ev: NoteEvent, tempo: u16, sample_rate: u32, from: u64) -> TimedCmd {
    TimedCmd {
        frame: (from + frames_at(ev.start, tempo, sample_rate)) as u64,
        cmd: AudioCmd::NoteOn { pitch: ev.pitch, velocity: ev.velocity },
    }
}

/// The command that ends a note.
pub open spec fn off_command(ev: NoteEvent, tempo: u16, sample_rate: u32, from: u64) -> TimedCmd {
    TimedCmd {
        frame: (from + frames_at(off_tick(ev), tempo, sample_rate)) as u64,
        cmd: AudioCmd::NoteOff { pitch: ev.pitch },
    }
}

/// The commands of a row of notes, each note's beginning before its end.
pub open spec fn note_commands(
    events: Seq<NoteEvent>,
    tempo: u16,
    sample_rate: u32,
    from: u64,
) -> Seq<TimedCmd>
    decreases events.len(),
{
    if events.len() == 0 {
        Seq::empty()
    } else {
        note_commands(events.drop_last(), tempo, sample_rate, from).push(
            on_command(events.last(), tempo, sample_rate, from),
        ).push(off_command(events.last(), tempo, sample_rate, from))
    }
}

/// The frame at which the last note ends; `from` where there is none.
pub open spec fn last_off_frame(
    events: Seq<NoteEvent>,
    tempo: u16,
    sample_rate: u32,
    from: u64,
) -> u64
    decreases events.len(),
{
    if events.len() == 0 {
        from
    } else {
        let before = last_off_frame(events.drop_last(), tempo, sample_rate, from);
        let off = off_command(events.last(), tempo, sample_rate, from).frame;
        if off > before {
            off
        } else {
            before
        }
    }
}

/// Whether every command's frame can be counted.
pub open spec fn frames_fit(
    events: Seq<NoteEvent>,
    tempo: u16,
    sample_rate: u32,
    from: u64,
) -> bool {
    forall|i: int|
        0 <= i < events.len() ==> from + frames_at(
            (#[trigger] events[i]).start,
            tempo,
            sample_rate,
        ) <= u64::MAX && from + frames_at(off_tick(events[i]), tempo, sample_rate) <= u64::MAX
}

/// A whole number in double precision.
fn double_of(n: u32) -> (r: Binary)
    ensures
        parts(r) == whole(n as nat, 53),
        r.mant < 0x20_0000_0000_0000,
        -200 <= r.exp <= 200,
{
    round_ratio(n as u128, 1, 0, 53)
}

/// A product in double precision.
fn times(x: Binary, y: Binary) -> (r: Binary)
    requires
        x.mant < 0x20_0000_0000_0000,
        y.mant < 0x20_0000_0000_0000,
        -5000 <= x.exp <= 5000,
        -5000 <= y.exp <= 5000,
    ensures
        parts(r) == product(parts(x), parts(y), 53),
        r.mant < 0x20_0000_0000_0000,
        x.exp + y.exp - 200 <= r.exp <= x.exp + y.exp + 200 || r.exp == 0,
{
    assert(x.mant * y.mant < 0x20_0000_0000_0000 * 0x20_0000_0000_0000) by (nonlinear_arith)
        requires
            x.mant < 0x20_0000_0000_0000,
            y.mant < 0x20_0000_0000_0000,
    ;
    assert(x.mant as nat * y.mant as nat == x.mant * y.mant);
    round_ratio(x.mant as u128 * y.mant as u128, 1, x.exp + y.exp, 53)
}

/// The seconds of some ticks.
fn seconds(ticks: u32, tempo_bpm: u16) -> (r: Binary)
    ensures
        parts(r) == secs_of(ticks, tempo_bpm),
        r.mant < 0x20_0000_0000_0000,
        -2000 <= r.exp <= 2000,
{
    let tempo: u64 = if tempo_bpm == 0 {
        1
    } else {
        tempo_bpm as u64
    };
    let minute = double_of(60);
    let beat = round_ratio(minute.mant as u128, tempo, minute.exp, 53);
    let tick = round_ratio(beat.mant as u128, 480, beat.exp, 53);
    times(double_of(ticks), tick)
}

/// The time of some ticks at a tempo, in nanoseconds.
pub fn ticks_to_duration(ticks: u32, tempo_bpm: u16) -> (r: u64)
    ensures
        r == nanos_at(ticks, tempo_bpm),
{
    scaled_round(seconds(ticks, tempo_bpm), 1_000_000_000)
}

/// The audio frame of some ticks at a tempo and a sample rate.
pub fn ticks_to_frames(ticks: u32, tempo_bpm: u16, sample_rate: u32) -> (r: u64)
    ensures
        r == frames_at(ticks, tempo_bpm, sample_rate),
{
    round(times(seconds(ticks, tempo_bpm), double_of(sample_rate)))
}

/// Tells whether every command of a row of notes has a frame that can be counted.
pub fn timeline_fits(
    events: &Vec<NoteEvent>,
    tempo: u16,
    sample_rate: u32,
    start_frame: u64,
) -> (r: bool)
    ensures
        r == frames_fit(events@, tempo, sample_rate, start_frame),
{
    for i in 0..events.len()
        invariant
            frames_fit(events@.take(i as int), tempo, sample_rate, start_frame),
    {
        let ev = events[i];
        assert(events@[i as int] == ev);
        let room: u64 = u64::MAX - start_frame;
        let off_ticks: u32 = ev.start.saturating_add(ev.duration);
        if ticks_to_frames(ev.start, tempo, sample_rate) > room || ticks_to_frames(
            off_ticks,
            tempo,
            sample_rate,
        ) > room {
            return false;
        }
        assert forall|j: int| 0 <= j < i + 1 implies start_frame + frames_at(
            (#[trigger] events@.take(i + 1)[j]).start,
            tempo,
            sample_rate,
        ) <= u64::MAX && start_frame + frames_at(
            off_tick(events@.take(i + 1)[j]),
            tempo,
            sample_rate,
        ) <= u64::MAX by {
            if j < i {
                assert(events@.take(i as int)[j] == events@.take(i + 1)[j]);
            }
        }
    }
    assert(events@.take(events@.len() as int) == events@);
    true
}

/// The commands of a row of notes in order of their frames, and the frame at which
/// the last note ends.
pub fn build_timeline(
    events: &Vec<NoteEvent>,
    tempo: u16,
    sample_rate: u32,
    start_frame: u64,
) -> (r: (Vec<TimedCmd>, u64))
    requires
        frames_fit(events@, tempo, sample_rate, start_frame),
    ensures
        r.0@ == sorted(note_commands(events@, tempo, sample_rate, start_frame)),
        r.1 == last_off_frame(events@, tempo, sample_rate, start_frame),
{
    let mut timeline: Vec<TimedCmd> = Vec::new();
    let mut last: u64 = start_frame;
    assert(events@.take(0) == Seq::<NoteEvent>::empty());
    for i in 0..events.len()
        invariant
            frames_fit(events@, tempo, sample_rate, start_frame),
            timeline@ == note_commands(events@.take(i as int), tempo, sample_rate, start_frame),
            last == last_off_frame(events@.take(i as int), tempo, sample_rate, start_frame),
    {
        let ev = events[i];
        assert(events@[i as int] == ev);
        assert(events@.take(i + 1).drop_last() == events@.take(i as int));
        let off_ticks: u32 = ev.start.saturating_add(ev.duration);
        let on_frame: u64 = start_frame + ticks_to_frames(ev.start, tempo, sample_rate);
        let off_frame: u64 = start_frame + ticks_to_frames(off_ticks, tempo, sample_rate);
        timeline.push(
            TimedCmd {
                frame: on_frame,
                cmd: AudioCmd::NoteOn { pitch: ev.pitch, velocity: ev.velocity },
            },
        );
        timeline.push(TimedCmd { frame: off_frame, cmd: AudioCmd::NoteOff { pitch: ev.pitch } });
        if off_frame > last {
            last = off_frame;
        }
    }
    assert(events@.take(events@.len() as int) == events@);
    (stable_sort(timeline), last)
}

/// Every note of a phrase gives the audio thread two commands.
pub proof fn two_commands_per_note(
    events: Seq<NoteEvent>,
    tempo: u16,
    sample_rate: u32,
    from: u64,
)
    ensures
        note_commands(events, tempo, sample_rate, from).len() == 2 * events.len(),
    decreases events.len(),
{
    if events.len() > 0 {
        two_commands_per_note(events.drop_last(), tempo, sample_rate, from);
    }
}

/// The playback ends no earlier than any of its notes.
pub proof fn no_note_ends_later(
    events: Seq<NoteEvent>,
    tempo: u16,
    sample_rate: u32,
    from: u64,
    i: int,
)
    requires
        0 <= i < events.len(),
    ensures
        off_command(events[i], tempo, sample_rate, from).frame <= last_off_frame(
            events,
            tempo,
            sample_rate,
            from,
        ),
    decreases events.len(),
{
    if i < events.len() - 1 {
        assert(events.drop_last()[i] == events[i]);
        no_note_ends_later(events.drop_last(), tempo, sample_rate, from, i);
    }
}

/// The frames of some ticks, without any rounding, times the ticks of a minute.
pub open spec fn exact_frames(ticks: nat, sample_rate: nat) -> nat {
    60 * (ticks * sample_rate)
}

/// The ticks of a minute: as many beats as the tempo says, but at least one, with 480
/// ticks each.
pub open spec fn ticks_per_minute(tempo: u16) -> nat {
    if tempo == 0 {
        480
    } else {
        480 * tempo as nat
    }
}

proof fn lemma_double_powers()
    ensures
        pow2(53) == 0x20_0000_0000_0000,
        pow2(50) == 0x4_0000_0000_0000,
{
    vstd::arithmetic::power2::lemma2_to64();
    vstd::arithmetic::power2::lemma2_to64_rest();
}

/// `b` times `1 - 2^-53` and times `1 + 2^-53` hold `a` between them.
spec fn is_near(a: nat, b: nat) -> bool {
    &&& 0x20_0000_0000_0000 * a <= 0x20_0000_0000_0001 * b
    &&& 0x1F_FFFF_FFFF_FFFF * b <= 0x20_0000_0000_0000 * a
}

proof fn lemma_near(n: nat, d: nat, k: int, u: nat)
    requires
        d > 0,
        k + u >= 0,
        rounded_ratio(n, d, k, 53).1 + u > 0,
    ensures
        is_near(in_units(rounded_ratio(n, d, k, 53), u) * d, n * pow2((k + u) as nat)),
{
    lemma_double_powers();
    rounding_is_close(n, d, k, 53, u);
    let a = in_units(rounded_ratio(n, d, k, 53), u) * d;
    let b = n * pow2((k + u) as nat);
    assert(0x20_0000_0000_0000 * a <= 0x20_0000_0000_0000 * b + b);
    assert(0x20_0000_0000_0000 * b <= 0x20_0000_0000_0000 * a + b);
}

proof fn lemma_near_times(a: nat, b: nat, k: nat)
    requires
        is_near(a, b),
    ensures
        is_near(k * a, k * b),
{
    assert(0x20_0000_0000_0000 * (k * a) <= 0x20_0000_0000_0001 * (k * b)) by (nonlinear_arith)
        requires
            0x20_0000_0000_0000 * a <= 0x20_0000_0000_0001 * b,
    ;
    assert(0x1F_FFFF_FFFF_FFFF * (k * b) <= 0x20_0000_0000_0000 * (k * a)) by (nonlinear_arith)
        requires
            0x1F_FFFF_FFFF_FFFF * b <= 0x20_0000_0000_0000 * a,
    ;
}

/// The product of a whole number of 32 bits and another number.
proof fn lemma_near_product(n: u32, y: (nat, int), u: nat)
    requires
        y.1 + u >= 0,
        whole(n as nat, 53).1 + y.1 + u >= 0,
        whole(n as nat, 53).1 + u >= 0,
        product(whole(n as nat, 53), y, 53).1 + u > 0,
    ensures
        is_near(in_units(product(whole(n as nat, 53), y, 53), u), n as nat * in_units(y, u)),
{
    lemma_double_powers();
    let x = whole(n as nat, 53);
    small_whole_is_exact(n as nat, 53, (y.1 + u) as nat);
    lemma_near(x.0 * y.0, 1, x.1 + y.1, u);
    let z = pow2((x.1 + y.1 + u) as nat);
    let w = pow2((y.1 + u) as nat);
    let (a, b) = (x.0, y.0);
    assert(in_units(x, (y.1 + u) as nat) == a * z);
    assert((a * b) * z == (a * z) * b) by (nonlinear_arith);
    assert((n as nat * w) * b == n as nat * (b * w)) by (nonlinear_arith);
    let r = in_units(product(x, y, 53), u);
    assert(r * 1 == r);
}

/// The product of another number and a whole one of 32 bits.
proof fn lemma_near_product_right(y: (nat, int), n: u32, u: nat)
    requires
        y.1 + u >= 0,
        whole(n as nat, 53).1 + y.1 + u >= 0,
        whole(n as nat, 53).1 + u >= 0,
        product(y, whole(n as nat, 53), 53).1 + u > 0,
    ensures
        is_near(in_units(product(y, whole(n as nat, 53), 53), u), n as nat * in_units(y, u)),
{
    let x = whole(n as nat, 53);
    assert(y.0 * x.0 == x.0 * y.0) by (nonlinear_arith);
    assert(product(y, x, 53) == product(x, y, 53));
    lemma_near_product(n, y, u);
}

/// The units in which the seconds of some ticks, and what they are computed from, can be
/// counted.
spec fn fine_units(ticks: u32, tempo: u16) -> nat {
    let a = whole(60, 53);
    let b = quotient(a, counted_tempo(tempo), 53);
    let c = secs_per_tick(tempo);
    let t = whole(ticks as nat, 53);
    let s = secs_of(ticks, tempo);
    1 + size(a.1) + size(b.1) + size(c.1) + size(t.1) + size(s.1)
}

spec fn size(e: int) -> nat {
    (if e < 0 {
        -e
    } else {
        e
    }) as nat
}

/// The seconds of some ticks, times the ticks of a minute, are sixty times the ticks to
/// within three roundings.
proof fn lemma_seconds_near(ticks: u32, tempo: u16, u: nat)
    requires
        u >= fine_units(ticks, tempo),
    ensures
        ({
            let d = ticks_per_minute(tempo);
            let x = in_units(secs_of(ticks, tempo), u);
            let y = (60 * ticks as nat) * pow2(u);
            &&& 0x8_0000_0000_0000 * (d * x) <= 0x8_0000_0000_0001 * y
            &&& 0x7_FFFF_FFFF_FFFF * y <= 0x8_0000_0000_0000 * (d * x)
        }),
{
    lemma_double_powers();
    let a = whole(60, 53);
    let c = counted_tempo(tempo);
    let b = quotient(a, c, 53);
    let s = secs_per_tick(tempo);
    let x = secs_of(ticks, tempo);
    small_whole_is_exact(60, 53, u);
    lemma_near(a.0, c, a.1, u);
    lemma_near(b.0, 480, b.1, u);
    lemma_near_product(ticks, s, u);
    let (x2, x3, x4) = (in_units(b, u), in_units(s, u), in_units(x, u));
    let x1 = 60 * pow2(u);
    assert(is_near(x2 * c, x1));
    assert(is_near(x3 * 480, x2));
    assert(is_near(x4, ticks as nat * x3));
    let t = ticks as nat;
    let d = 480 * c;
    lemma_near_times(x3 * 480, x2, c);
    lemma_near_times(x4, t * x3, d);
    assert(c * (x3 * 480) == d * x3) by (nonlinear_arith)
        requires
            d == 480 * c,
    ;
    assert(c * x2 == x2 * c) by (nonlinear_arith);
    assert(d * (t * x3) == t * (d * x3)) by (nonlinear_arith);
    lemma_near_times(d * x3, x2 * c, t);
    lemma_near_times(x2 * c, x1, t);
    // t * x1, t * (x2 * c), t * (d * x3) and d * x4 are each near the one before.
    let (y0, y1, y2, y3) = (t * x1, t * (x2 * c), t * (d * x3), d * x4);
    assert(is_near(y1, y0) && is_near(y2, y1) && is_near(y3, y2));
    assert(y0 == (60 * t) * pow2(u)) by (nonlinear_arith)
        requires
            y0 == t * (60 * pow2(u)),
    ;
}

proof fn lemma_frames_near(ticks: u32, tempo: u16, sample_rate: u32) -> (u: nat)
    ensures
        ({
            let d = ticks_per_minute(tempo);
            let x = product(secs_of(ticks, tempo), whole(sample_rate as nat, 53), 53);
            let y = exact_frames(ticks as nat, sample_rate as nat) * pow2(u);
            &&& x.1 + u >= 0
            &&& 0x4_0000_0000_0000 * (d * in_units(x, u)) <= 0x4_0000_0000_0001 * y
            &&& 0x3_FFFF_FFFF_FFFF * y <= 0x4_0000_0000_0000 * (d * in_units(x, u))
        }),
{
    let s = secs_of(ticks, tempo);
    let r = whole(sample_rate as nat, 53);
    let x = product(s, r, 53);
    let u = fine_units(ticks, tempo) + size(r.1) + size(x.1);
    lemma_seconds_near(ticks, tempo, u);
    lemma_near_product_right(s, sample_rate, u);
    let d = ticks_per_minute(tempo);
    let (x4, x5) = (in_units(s, u), in_units(x, u));
    let (t, n) = (ticks as nat, sample_rate as nat);
    let y = (60 * t) * pow2(u);
    lemma_near_times(x5, n * x4, d);
    assert(d * (n * x4) == n * (d * x4)) by (nonlinear_arith);
    let (z4, z5) = (n * (d * x4), d * x5);
    let z0 = n * y;
    let v = d * x4;
    assert(0x8_0000_0000_0000 * z4 <= 0x8_0000_0000_0001 * z0) by (nonlinear_arith)
        requires
            0x8_0000_0000_0000 * v <= 0x8_0000_0000_0001 * y,
            z4 == n * v,
            z0 == n * y,
    ;
    assert(0x7_FFFF_FFFF_FFFF * z0 <= 0x8_0000_0000_0000 * z4) by (nonlinear_arith)
        requires
            0x7_FFFF_FFFF_FFFF * y <= 0x8_0000_0000_0000 * v,
            z4 == n * v,
            z0 == n * y,
    ;
    assert(z0 == exact_frames(t, n) * pow2(u)) by (nonlinear_arith)
        requires
            z0 == n * ((60 * t) * pow2(u)),
            exact_frames(t, n) == 60 * (t * n),
    ;
    u
}

/// Ticks are heard at their time: the frame of some ticks is sixty times the ticks and
/// the sample rate over the ticks of a minute, to within one half and the `2^50`th part.
pub proof fn frame_is_at_its_time(ticks: u32, tempo: u16, sample_rate: u32)
    ensures
        ({
            let f = frames_at(ticks, tempo, sample_rate) as int;
            let d = ticks_per_minute(tempo) as int;
            let n = exact_frames(ticks as nat, sample_rate as nat) as int;
            &&& 0x8_0000_0000_0000 * (f * d) <= 0x8_0000_0000_0000 * n + 0x4_0000_0000_0000 * d + 2
                * n
            &&& 0x8_0000_0000_0000 * n <= 0x8_0000_0000_0000 * (f * d) + 0x4_0000_0000_0000 * d + 2
                * n
        }),
{
    let u = lemma_frames_near(ticks, tempo, sample_rate);
    let d = ticks_per_minute(tempo);
    let x = product(secs_of(ticks, tempo), whole(sample_rate as nat, 53), 53);
    let n = exact_frames(ticks as nat, sample_rate as nat);
    let f = round_half_up(x);
    whole_is_within_a_half(x, u);
    lemma_pow2_pos(u);
    let (z, w) = (pow2(u), in_units(x, u));
    let g = f * z;
    assert(2 * (d * g) <= 2 * (d * w) + d * z && 2 * (d * w) <= 2 * (d * g) + d * z)
        by (nonlinear_arith)
        requires
            2 * g <= 2 * w + z,
            2 * w <= 2 * g + z,
    ;
    assert(d * g == (f * d) * z) by (nonlinear_arith)
        requires
            g == f * z,
    ;
    let (fd, nz, dz) = ((f * d) * z, n * z, d * z);
    assert(0x8_0000_0000_0000 * fd <= 0x8_0000_0000_0000 * nz + 0x4_0000_0000_0000 * dz + 2 * nz);
    assert(0x8_0000_0000_0000 * nz <= 0x8_0000_0000_0000 * fd + 0x4_0000_0000_0000 * dz + 2 * nz);
    let fdd = f * d;
    assert(0x8_0000_0000_0000 * fdd <= 0x8_0000_0000_0000 * n + 0x4_0000_0000_0000 * d + 2 * n
        && 0x8_0000_0000_0000 * n <= 0x8_0000_0000_0000 * fdd + 0x4_0000_0000_0000 * d + 2 * n)
        by (nonlinear_arith)
        requires
            0x8_0000_0000_0000 * (fdd * z) <= 0x8_0000_0000_0000 * (n * z) + 0x4_0000_0000_0000 * (d
                * z) + 2 * (n * z),
            0x8_0000_0000_0000 * (n * z) <= 0x8_0000_0000_0000 * (fdd * z) + 0x4_0000_0000_0000 * (d
                * z) + 2 * (n * z),
            z > 0,
    ;
    let (t, s) = (ticks as nat, sample_rate as nat);
    assert(t * s <= 0xFFFF_FFFF * 0xFFFF_FFFF) by (nonlinear_arith)
        requires
            t <= 0xFFFF_FFFF,
            s <= 0xFFFF_FFFF,
    ;
    assert(f <= 0x4000_0000_0000_0000) by (nonlinear_arith)
        requires
            0x8_0000_0000_0000 * (f * d) <= 0x8_0000_0000_0000 * n + 0x4_0000_0000_0000 * d + 2 * n,
            n <= 60 * (0xFFFF_FFFF * 0xFFFF_FFFF),
            d >= 480,
    ;
}

/// Where the frames of some ticks are a whole number that is not too great, that is their
/// frame.
pub proof fn whole_frames_are_exact(ticks: u32, tempo: u16, sample_rate: u32, frames: nat)
    requires
        frames < 0x1_0000_0000_0000,
        frames * ticks_per_minute(tempo) == exact_frames(ticks as nat, sample_rate as nat),
    ensures
        frames_at(ticks, tempo, sample_rate) == frames,
{
    frame_is_at_its_time(ticks, tempo, sample_rate);
    let f = frames_at(ticks, tempo, sample_rate) as int;
    let d = ticks_per_minute(tempo) as int;
    let n = frames * d;
    let k = frames as int;
    assert(2 * n < 0x2_0000_0000_0000 * d) by (nonlinear_arith)
        requires
            n == k * d,
            k < 0x1_0000_0000_0000,
            d > 0,
    ;
    assert(f == k) by (nonlinear_arith)
        requires
            0x8_0000_0000_0000 * (f * d) <= 0x8_0000_0000_0000 * (k * d) + 0x4_0000_0000_0000 * d
                + 0x2_0000_0000_0000 * d,
            0x8_0000_0000_0000 * (k * d) <= 0x8_0000_0000_0000 * (f * d) + 0x4_0000_0000_0000 * d
                + 0x2_0000_0000_0000 * d,
            d > 0,
    ;
}

/// At 120 beats per minute and 48000 frames per second every tick lasts fifty frames.
pub proof fn tick_lasts_fifty_frames(ticks: u32)
    ensures
        frames_at(ticks, 120, 48000) == 50 * ticks,
{
    let t = ticks as nat;
    assert(ticks_per_minute(120) == 57600);
    assert((50 * t) * 57600 == 60 * (t * 48000)) by (nonlinear_arith);
    whole_frames_are_exact(ticks, 120, 48000, 50 * t);
}

/// The time of some ticks in nanoseconds is sixty thousand million times the ticks over
/// the ticks of a minute, to within one half and the `2^50`th part.
pub proof fn duration_is_its_time(ticks: u32, tempo: u16)
    ensures
        ({
            let f = nanos_at(ticks, tempo) as int;
            let d = ticks_per_minute(tempo) as int;
            let n = 60_000_000_000 * ticks;
            &&& 0x8_0000_0000_0000 * (f * d) <= 0x8_0000_0000_0000 * n + 0x4_0000_0000_0000 * d + 2
                * n
            &&& 0x8_0000_0000_0000 * n <= 0x8_0000_0000_0000 * (f * d) + 0x4_0000_0000_0000 * d + 2
                * n
        }),
{
    let u = fine_units(ticks, tempo);
    lemma_seconds_near(ticks, tempo, u);
    let d = ticks_per_minute(tempo);
    let x = secs_of(ticks, tempo);
    let n: nat = 60_000_000_000 * ticks as nat;
    let k: nat = 1_000_000_000;
    let f = scaled_round_even(x, k);
    scaled_whole_is_within_a_half(x, k, u);
    lemma_pow2_pos(u);
    let (z, w) = (pow2(u), in_units(x, u));
    let g = f * z;
    let wk = w * k;
    assert(2 * (d * g) <= 2 * (d * wk) + d * z && 2 * (d * wk) <= 2 * (d * g) + d * z)
        by (nonlinear_arith)
        requires
            2 * g <= 2 * wk + z,
            2 * wk <= 2 * g + z,
    ;
    assert(d * g == (f * d) * z) by (nonlinear_arith)
        requires
            g == f * z,
    ;
    assert(d * wk == (d * w) * 1_000_000_000) by (nonlinear_arith)
        requires
            wk == w * 1_000_000_000,
    ;
    let y = (60 * ticks as nat) * z;
    assert(n * z == y * 1_000_000_000) by (nonlinear_arith)
        requires
            n == 60_000_000_000 * ticks as nat,
            y == (60 * ticks as nat) * z,
    ;
    let (fd, nz, dz) = ((f * d) * z, n * z, d * z);
    assert(0x8_0000_0000_0000 * fd <= 0x8_0000_0000_0000 * nz + 0x4_0000_0000_0000 * dz + 2 * nz);
    assert(0x8_0000_0000_0000 * nz <= 0x8_0000_0000_0000 * fd + 0x4_0000_0000_0000 * dz + 2 * nz);
    let fdd = f * d;
    assert(0x8_0000_0000_0000 * fdd <= 0x8_0000_0000_0000 * n + 0x4_0000_0000_0000 * d + 2 * n
        && 0x8_0000_0000_0000 * n <= 0x8_0000_0000_0000 * fdd + 0x4_0000_0000_0000 * d + 2 * n)
        by (nonlinear_arith)
        requires
            0x8_0000_0000_0000 * (fdd * z) <= 0x8_0000_0000_0000 * (n * z) + 0x4_0000_0000_0000 * (d
                * z) + 2 * (n * z),
            0x8_0000_0000_0000 * (n * z) <= 0x8_0000_0000_0000 * (fdd * z) + 0x4_0000_0000_0000 * (d
                * z) + 2 * (n * z),
            z > 0,
    ;
    assert(f <= 0x4000_0000_0000_0000) by (nonlinear_arith)
        requires
            0x8_0000_0000_0000 * (f * d) <= 0x8_0000_0000_0000 * n + 0x4_0000_0000_0000 * d + 2 * n,
            n <= 60_000_000_000 * 0xFFFF_FFFF,
            d >= 480,
    ;
}

/// Whether a frame lies where some ticks are heard that are counted from frame `from` on:
/// within one half of their exact frame and its `2^50`th part.
pub open spec fn is_heard_at(frame: u64, from: u64, ticks: int, tempo: u16, sample_rate: u32) -> bool {
    let f = frame - from;
    let d = ticks_per_minute(tempo) as int;
    let n = 60 * (ticks * sample_rate);
    &&& 0x8_0000_0000_0000 * (f * d) <= 0x8_0000_0000_0000 * n + 0x4_0000_0000_0000 * d + 2 * n
    &&& 0x8_0000_0000_0000 * n <= 0x8_0000_0000_0000 * (f * d) + 0x4_0000_0000_0000 * d + 2 * n
}

/// Whether two commands begin and end a note: at its start, and when its duration has
/// passed, or as late as ticks can be counted.
pub open spec fn sounds_note(
    on: TimedCmd,
    off: TimedCmd,
    ev: NoteEvent,
    tempo: u16,
    sample_rate: u32,
    from: u64,
) -> bool {
    &&& on.cmd == (AudioCmd::NoteOn { pitch: ev.pitch, velocity: ev.velocity })
    &&& is_heard_at(on.frame, from, ev.start as int, tempo, sample_rate)
    &&& off.cmd == (AudioCmd::NoteOff { pitch: ev.pitch })
    &&& ev.start + ev.duration <= u32::MAX ==> is_heard_at(
        off.frame,
        from,
        ev.start + ev.duration,
        tempo,
        sample_rate,
    )
    &&& ev.start + ev.duration > u32::MAX ==> is_heard_at(
        off.frame,
        from,
        u32::MAX as int,
        tempo,
        sample_rate,
    )
    &&& tempo == 120 && sample_rate == 48000 && ev.start + ev.duration <= u32::MAX ==> off.frame
        - on.frame == 50 * ev.duration
}

/// Every note has the command that begins it at its start and, right behind that, the one
/// that ends it when its duration has passed, which is not after the end.
pub proof fn every_note_is_begun_and_ended(
    events: Seq<NoteEvent>,
    tempo: u16,
    sample_rate: u32,
    from: u64,
    i: int,
)
    requires
        frames_fit(events, tempo, sample_rate, from),
        0 <= i < events.len(),
    ensures
        note_commands(events, tempo, sample_rate, from).len() == 2 * events.len(),
        sounds_note(
            note_commands(events, tempo, sample_rate, from)[2 * i],
            note_commands(events, tempo, sample_rate, from)[2 * i + 1],
            events[i],
            tempo,
            sample_rate,
            from,
        ),
        note_commands(events, tempo, sample_rate, from)[2 * i + 1].frame <= last_off_frame(
            events,
            tempo,
            sample_rate,
            from,
        ),
    decreases events.len(),
{
    let init = events.drop_last();
    two_commands_per_note(events, tempo, sample_rate, from);
    two_commands_per_note(init, tempo, sample_rate, from);
    if i == events.len() - 1 {
        let ev = events[i];
        assert(events[i].start == ev.start);
        frame_is_at_its_time(ev.start, tempo, sample_rate);
        frame_is_at_its_time(off_tick(ev), tempo, sample_rate);
        if tempo == 120 && sample_rate == 48000 {
            tick_lasts_fifty_frames(ev.start);
            tick_lasts_fifty_frames(off_tick(ev));
        }
    } else {
        assert forall|k: int| 0 <= k < init.len() implies from + frames_at(
            (#[trigger] init[k]).start,
            tempo,
            sample_rate,
        ) <= u64::MAX && from + frames_at(off_tick(init[k]), tempo, sample_rate) <= u64::MAX by {
            assert(init[k] == events[k]);
        }
        every_note_is_begun_and_ended(init, tempo, sample_rate, from, i);
        assert(init[i] == events[i]);
    }
}

/// A timeline sounds its notes: it holds for every note a command that begins it at its
/// start and one that ends it when its duration has passed, and no others, in order of
/// their frames. At 120 beats per minute and 48000 frames per second a note of so many
/// ticks sounds for fifty times as many frames. Nothing ends after the timeline, and it
/// does not end before it begins.
pub proof fn timeline_sounds_its_notes(
    events: Seq<NoteEvent>,
    tempo: u16,
    sample_rate: u32,
    from: u64,
)
    requires
        frames_fit(events, tempo, sample_rate, from),
    ensures
        ({
            let line = sorted(note_commands(events, tempo, sample_rate, from));
            let end = last_off_frame(events, tempo, sample_rate, from);
            &&& line.len() == 2 * events.len()
            &&& forall|i: int, j: int|
                0 <= i < j < line.len() ==> (#[trigger] line[i]).frame <= (#[trigger] line[j]).frame
            &&& exists|cmds: Seq<TimedCmd>|
                cmds.len() == 2 * events.len() && (forall|i: int|
                    0 <= i < events.len() ==> sounds_note(
                        cmds[2 * i],
                        cmds[2 * i + 1],
                        #[trigger] events[i],
                        tempo,
                        sample_rate,
                        from,
                    ) && cmds[2 * i + 1].frame <= end) && #[trigger] cmds.to_multiset()
                    == line.to_multiset()
            &&& from <= end
            &&& end == from || exists|i: int|
                0 <= i < events.len() && end == off_command(
                    #[trigger] events[i],
                    tempo,
                    sample_rate,
                    from,
                ).frame
        }),
{
    let cmds = note_commands(events, tempo, sample_rate, from);
    let line = sorted(cmds);
    crate::sorting::sorted_is_ordered(cmds);
    two_commands_per_note(events, tempo, sample_rate, from);
    assert forall|i: int, j: int| 0 <= i < j < line.len() implies (#[trigger] line[i]).frame <= (
    #[trigger] line[j]).frame by {
        assert(crate::sorting::Keyed::key(&line[i]) <= crate::sorting::Keyed::key(&line[j]));
    }
    let end = last_off_frame(events, tempo, sample_rate, from);
    assert forall|i: int| 0 <= i < events.len() implies sounds_note(
        cmds[2 * i],
        cmds[2 * i + 1],
        #[trigger] events[i],
        tempo,
        sample_rate,
        from,
    ) && cmds[2 * i + 1].frame <= end by {
        every_note_is_begun_and_ended(events, tempo, sample_rate, from, i);
    }
    lemma_end_attained(events, tempo, sample_rate, from);
    assert(cmds.to_multiset() == line.to_multiset());
}

proof fn lemma_end_attained(events: Seq<NoteEvent>, tempo: u16, sample_rate: u32, from: u64)
    ensures
        from <= last_off_frame(events, tempo, sample_rate, from),
        last_off_frame(events, tempo, sample_rate, from) == from || exists|i: int|
            0 <= i < events.len() && last_off_frame(events, tempo, sample_rate, from)
                == off_command(#[trigger] events[i], tempo, sample_rate, from).frame,
    decreases events.len(),
{
    if events.len() > 0 {
        let init = events.drop_last();
        lemma_end_attained(init, tempo, sample_rate, from);
        let before = last_off_frame(init, tempo, sample_rate, from);
        let end = last_off_frame(events, tempo, sample_rate, from);
        let last = events[events.len() - 1];
        if end == before && before != from {
            let i = choose|i: int|
                0 <= i < init.len() && before == off_command(
                    #[trigger] init[i],
                    tempo,
                    sample_rate,
                    from,
                ).frame;
            assert(init[i] == events[i]);
        }
    }
}

/// The commands of one more note stand behind the others, the one that begins it before the
/// one that ends it; those at one frame keep this order.
pub proof fn commands_follow_the_notes(
    events: Seq<NoteEvent>,
    ev: NoteEvent,
    tempo: u16,
    sample_rate: u32,
    from: u64,
    frame: int,
)
    ensures
        ({
            let a = note_commands(events, tempo, sample_rate, from);
            let b = note_commands(events.push(ev), tempo, sample_rate, from);
            &&& b.len() == a.len() + 2
            &&& b.take(a.len() as int) == a
            &&& b[a.len() as int].cmd == (AudioCmd::NoteOn {
                pitch: ev.pitch,
                velocity: ev.velocity,
            })
            &&& b[a.len() as int + 1].cmd == (AudioCmd::NoteOff { pitch: ev.pitch })
        }),
        crate::sorting::with_key(
            sorted(note_commands(events, tempo, sample_rate, from)),
            frame,
        ) == crate::sorting::with_key(note_commands(events, tempo, sample_rate, from), frame),
{
    assert(events.push(ev).drop_last() == events);
    crate::sorting::sorted_is_stable(note_commands(events, tempo, sample_rate, from), frame);
}

} // verus!
