//! Durations, time signatures and note events. A quarter note has 480 ticks.
use crate::rounding::{
    in_units, is_close, round, round_half_up, round_ratio, rounded_ratio, rounding_is_close,
    scale_exists, scale_of, scaled_num, whole_is_within_a_half,
};
use crate::sorting::Keyed;
use crate::text::{
    all_digits, byte_reads_back, chars_of, decimal, decimal_reads_back, find_char, first_index,
    first_index_is_first, parse_u8, parsed_u8, slice_of, trim, trimmed,
};
use vstd::arithmetic::power2::{lemma_pow2_adds, lemma_pow2_pos, pow2};
use vstd::prelude::*;

verus! {

/// A length in ticks.
#[derive(Debug, Clone, Copy, PartialEq, Eq, PartialOrd, Ord, Structural)]
pub struct Duration(pub u32);

/// The named lengths are given in ticks, as the argument of `Duration`.
impl Duration {
    pub const WHOLE: u32 = 1920;

    pub const HALF: u32 = 960;

    pub const QUARTER: u32 = 480;

    pub const EIGHTH: u32 = 240;

    pub const SIXTEENTH: u32 = 120;

    pub const TRIPLET_QUARTER: u32 = 320;

    pub const TRIPLET_EIGHTH: u32 = 160;

    /// The length of some quarter-note beats, given as the bits of a double.
    pub fn from_beats(beats: u64) -> (r: Self)
        ensures
            r.0 == beats_ticks(beats),
    {
        let negative = beats >= 0x8000_0000_0000_0000;
        let exponent: u64 = beats / 0x10_0000_0000_0000 % 0x800;
        let fraction: u64 = beats % 0x10_0000_0000_0000;
        if negative || (exponent == 0x7FF && fraction != 0) {
            return Duration(0);
        }
        if exponent == 0x7FF {
            return Duration(u32::MAX);
        }
        let (m, e): (u64, i32) = if exponent == 0 {
            (fraction, -1074)
        } else {
            (0x10_0000_0000_0000 + fraction, exponent as i32 - 1075)
        };
        let ticks: u64 = round(round_ratio(m as u128 * 480, 1, e, 53));
        if ticks > u32::MAX as u64 {
            Duration(u32::MAX)
        } else {
            Duration(ticks as u32)
        }
    }

    /// The length in quarter-note beats, as the bits of a double.
    pub fn beats(&self) -> (r: u64)
        ensures
            r == ticks_beats(self.0),
    {
        let x = round_ratio(self.0 as u128, 480, 0, 53);
        if x.mant == 0 {
            0
        } else {
            (x.exp + 1075) as u64 * 0x10_0000_0000_0000 + (x.mant - 0x10_0000_0000_0000)
        }
    }
}

/// The magnitude that the bits of a finite double state, over a power of two.
pub open spec fn double_parts(bits: u64) -> (nat, int) {
    let exponent = bits as int / 0x10_0000_0000_0000 % 0x800;
    let fraction = (bits % 0x10_0000_0000_0000) as nat;
    if exponent == 0 {
        (fraction, -1074)
    } else {
        (0x10_0000_0000_0000 + fraction, exponent - 1075)
    }
}

/// The ticks of some beats: 480 times the double, rounded as doubles are, then
/// to the nearest whole number with halves upwards. Nothing below zero and no
/// number give 0; what is too great gives the greatest length.
pub open spec fn beats_ticks(bits: u64) -> u32 {
    let exponent = bits as int / 0x10_0000_0000_0000 % 0x800;
    let fraction = bits % 0x10_0000_0000_0000;
    let x = double_parts(bits);
    let ticks = round_half_up(rounded_ratio(x.0 * 480, 1, x.1, 53));
    if bits >= 0x8000_0000_0000_0000 || (exponent == 0x7FF && fraction != 0) {
        0
    } else if exponent == 0x7FF || ticks > u32::MAX {
        u32::MAX
    } else {
        ticks as u32
    }
}

/// The beats of some ticks, as the bits of the nearest double.
pub open spec fn ticks_beats(ticks: u32) -> u64 {
    let x = rounded_ratio(ticks as nat, 480, 0, 53);
    if x.0 == 0 {
        0
    } else {
        ((x.1 + 1075) * 0x10_0000_0000_0000 + (x.0 - 0x10_0000_0000_0000)) as u64
    }
}

#[derive(Debug, Clone, Copy, PartialEq, Eq, Structural)]
pub struct TimeSignature {
    pub numerator: u8,
    pub denominator: u8,
}

/// The ticks of one beat whose unit is the `denominator`th part of a whole note.
/// Units other than halves, quarters and eighths count as quarters.
pub open spec fn ticks_per_beat(denominator: u8) -> int {
    if denominator == 8 {
        240
    } else if denominator == 2 {
        960
    } else {
        480
    }
}

/// The ticks of one bar.
pub open spec fn bar_ticks(ts: TimeSignature) -> int {
    ticks_per_beat(ts.denominator) * ts.numerator
}

/// The time signature that a text such as `6/8` writes: two numbers around the
/// only slash, each with white space around it or not.
pub open spec fn parsed_time_signature(s: Seq<char>) -> Option<TimeSignature> {
    let i = first_index(s, '/') as int;
    if i >= s.len() {
        None
    } else {
        let rest = s.skip(i + 1);
        if first_index(rest, '/') < rest.len() {
            None
        } else {
            match (parsed_u8(trimmed(s.take(i))), parsed_u8(trimmed(rest))) {
                (Some(numerator), Some(denominator)) => Some(
                    TimeSignature { numerator, denominator },
                ),
                _ => None,
            }
        }
    }
}

impl TimeSignature {
    pub fn four_four() -> (r: Self)
        ensures
            r == (TimeSignature { numerator: 4, denominator: 4 }),
    {
        Self { numerator: 4, denominator: 4 }
    }

    pub fn three_four() -> (r: Self)
        ensures
            r == (TimeSignature { numerator: 3, denominator: 4 }),
    {
        Self { numerator: 3, denominator: 4 }
    }

    pub fn six_eight() -> (r: Self)
        ensures
            r == (TimeSignature { numerator: 6, denominator: 8 }),
    {
        Self { numerator: 6, denominator: 8 }
    }

    pub fn ticks_per_bar(&self) -> (r: u32)
        ensures
            r as int == bar_ticks(*self),
            r <= 244800,
    {
        let beat: u32 = match self.denominator {
            4 => 480,
            8 => 240,
            2 => 960,
            _ => 480,
        };
        assert(beat * self.numerator <= 244800) by (nonlinear_arith)
            requires
                beat <= 960,
                self.numerator <= 255,
        ;
        beat * self.numerator as u32
    }

    /// Reads a text such as `6/8`.
    pub fn parse(s: &str) -> (r: Option<Self>)
        ensures
            r == parsed_time_signature(s@),
    {
        let v = chars_of(s);
        let i = find_char(&v, '/');
        if i >= v.len() {
            return None;
        }
        let rest = slice_of(&v, i + 1, v.len());
        assert(rest@ == s@.skip(i + 1));
        if find_char(&rest, '/') < rest.len() {
            return None;
        }
        let front = slice_of(&v, 0, i);
        assert(front@ == s@.take(i as int));
        match (parse_u8(&trim(&front)), parse_u8(&trim(&rest))) {
            (Some(numerator), Some(denominator)) => Some(Self { numerator, denominator }),
            _ => None,
        }
    }
}

/// A note with its place in ticks.
#[derive(Debug, Clone, Copy, PartialEq, Eq, Structural)]
pub struct NoteEvent {
    pub pitch: u8,
    pub start: u32,
    pub duration: u32,
    pub velocity: u8,
    pub channel: u8,
    pub voice: u8,
    pub slur_group: Option<u8>,
}

/// Note events are ordered by where they start.
impl Keyed for NoteEvent {
    open spec fn key(&self) -> int {
        self.start as int
    }

    fn sort_key(&self) -> (k: u64) {
        self.start as u64
    }
}

impl NoteEvent {
    /// A note on channel 0, in voice 1, outside any slur. Its start and length
    /// are given in beats, as the bits of doubles.
    pub fn from_beats(pitch: u8, start_beats: u64, dur_beats: u64, velocity: u8) -> (r: Self)
        ensures
            r == (NoteEvent {
                pitch,
                start: beats_ticks(start_beats),
                duration: beats_ticks(dur_beats),
                velocity,
                channel: 0,
                voice: 1,
                slur_group: None,
            }),
    {
        NoteEvent {
            pitch,
            start: Duration::from_beats(start_beats).0,
            duration: Duration::from_beats(dur_beats).0,
            velocity,
            channel: 0,
            voice: 1,
            slur_group: None,
        }
    }
}

/// A bar lasts as many units as its meter counts, and the unit is the so-many-th part of
/// a whole note of four quarters. Other units than halves, quarters and eighths count as
/// quarters.
pub proof fn bar_counts_its_units(ts: TimeSignature)
    ensures
        ts.denominator == 2 || ts.denominator == 4 || ts.denominator == 8 ==> bar_ticks(ts)
            * ts.denominator == (4 * 480) * ts.numerator,
        ts.denominator != 2 && ts.denominator != 8 ==> bar_ticks(ts) == bar_ticks(
            TimeSignature { denominator: 4, ..ts },
        ),
{
    let n = ts.numerator as int;
    assert((960 * n) * 2 == 1920 * n && (480 * n) * 4 == 1920 * n && (240 * n) * 8 == 1920 * n)
        by (nonlinear_arith);
}

/// The named lengths halve from the whole note to the sixteenth, and three of a triplet
/// last as long as two of its kind.
pub proof fn named_lengths_halve()
    ensures
        Duration::WHOLE == 4 * Duration::QUARTER,
        Duration::QUARTER == 480,
        Duration::WHOLE == 2 * Duration::HALF,
        Duration::HALF == 2 * Duration::QUARTER,
        Duration::QUARTER == 2 * Duration::EIGHTH,
        Duration::EIGHTH == 2 * Duration::SIXTEENTH,
        3 * Duration::TRIPLET_QUARTER == 2 * Duration::QUARTER,
        3 * Duration::TRIPLET_EIGHTH == 2 * Duration::EIGHTH,
{
}

/// A meter written as two numbers around a slash reads back, where both are bytes.
pub proof fn meter_reads_back(numerator: nat, denominator: nat)
    ensures
        parsed_time_signature(decimal(numerator) + seq!['/'] + decimal(denominator)) == (
        if numerator <= 255 && denominator <= 255 {
            Some(
                TimeSignature { numerator: numerator as u8, denominator: denominator as u8 },
            )
        } else {
            None
        }),
{
    let (a, b) = (decimal(numerator), decimal(denominator));
    let s = a + seq!['/'] + b;
    byte_reads_back(numerator);
    byte_reads_back(denominator);
    decimal_reads_back(numerator);
    decimal_reads_back(denominator);
    first_index_is_first(s, '/');
    let i = first_index(s, '/') as int;
    let n = a.len() as int;
    assert(s[n] == '/');
    assert(i == n) by {
        if i < n {
            assert(s[i] == a[i]);
            assert('0' <= a[i] <= '9');
        }
    }
    let rest = s.skip(i + 1);
    assert(rest == b);
    assert(s.take(i) == a);
    first_index_is_first(b, '/');
    let j = first_index(b, '/') as int;
    if j < b.len() {
        assert('0' <= b[j] <= '9');
    }
    lemma_digits_are_trimmed(a);
    lemma_digits_are_trimmed(b);
}

proof fn lemma_digits_are_trimmed(s: Seq<char>)
    requires
        all_digits(s),
        s.len() > 0,
    ensures
        trimmed(s) == s,
{
    assert('0' <= s[0] <= '9' && '0' <= s[s.len() - 1] <= '9');
}

/// What the bits of a double state that is finite and not negative, in units of the least
/// double.
pub open spec fn double_units(bits: u64) -> nat {
    let exponent = bits / 0x10_0000_0000_0000 % 0x800;
    let fraction = (bits % 0x10_0000_0000_0000) as nat;
    if exponent == 0 {
        fraction
    } else {
        (0x10_0000_0000_0000 + fraction) * pow2((exponent - 1) as nat)
    }
}

/// How many of those units come to one.
pub open spec fn units_of_one() -> nat {
    pow2(1074)
}

/// A beat lasts 480 ticks: the ticks of some beats are 480 times their number, to within
/// one half and the rounding of doubles, as far as ticks can be counted. What is negative
/// or no number lasts nothing.
pub proof fn beat_lasts_480_ticks(bits: u64)
    ensures
        bits >= 0x8000_0000_0000_0000 ==> beats_ticks(bits) == 0,
        bits / 0x10_0000_0000_0000 % 0x800 == 0x7FF && bits < 0x8000_0000_0000_0000
            ==> beats_ticks(bits) == (if bits % 0x10_0000_0000_0000 == 0 {
            u32::MAX
        } else {
            0
        }),
        bits < 0x8000_0000_0000_0000 && bits / 0x10_0000_0000_0000 % 0x800 != 0x7FF ==> ({
            let t = beats_ticks(bits) * units_of_one();
            let v = 480 * double_units(bits);
            let half = 0x20_0000_0000_0000 * units_of_one();
            &&& 0x40_0000_0000_0000 * t <= 0x40_0000_0000_0000 * v + half + 2 * v
            &&& beats_ticks(bits) < u32::MAX ==> 0x40_0000_0000_0000 * v <= 0x40_0000_0000_0000 * t
                + half + 2 * v
        }),
{
    if bits < 0x8000_0000_0000_0000 && bits / 0x10_0000_0000_0000 % 0x800 != 0x7FF {
        let x = double_parts(bits);
        let n = x.0 * 480;
        let rr = rounded_ratio(n, 1, x.1, 53);
        let f = round_half_up(rr);
        let k = (1 + (if rr.1 < 0 {
            -rr.1
        } else {
            rr.1
        })) as nat;
        let u = 1074 + k;
        vstd::arithmetic::power2::lemma2_to64();
        vstd::arithmetic::power2::lemma2_to64_rest();
        rounding_is_close(n, 1, x.1, 53, u);
        whole_is_within_a_half(rr, u);
        let (w, z) = (pow2(1074), pow2(k));
        lemma_pow2_adds(1074, k);
        lemma_pow2_pos(k);
        lemma_pow2_pos(1074);
        let y = pow2((x.1 + 1074) as nat);
        lemma_pow2_adds((x.1 + 1074) as nat, k);
        let v0 = double_units(bits);
        assert(v0 == x.0 * y) by {
            assert(bits as int / 0x10_0000_0000_0000 % 0x800 == bits / 0x10_0000_0000_0000 % 0x800);
            if x.1 == -1074 {
                assert(x.0 * 1 == x.0);
            }
        }
        let m = x.0;
        assert((m * 480) * (y * z) == (480 * v0) * z) by (nonlinear_arith)
            requires
                v0 == m * y,
        ;
        let a = in_units(rr, u);
        assert(a * 1 == a);
        let vz = (480 * v0) * z;
        let fz = f * (w * z);
        let wz = w * z;
        assert(0x40_0000_0000_0000 * fz <= 0x40_0000_0000_0000 * vz + 0x20_0000_0000_0000 * wz + 2
            * vz);
        assert(0x40_0000_0000_0000 * vz <= 0x40_0000_0000_0000 * fz + 0x20_0000_0000_0000 * wz + 2
            * vz);
        let (fw, v) = (f * w, 480 * v0);
        assert(fz == fw * z) by (nonlinear_arith)
            requires
                fz == f * (w * z),
                fw == f * w,
        ;
        assert(0x40_0000_0000_0000 * fw <= 0x40_0000_0000_0000 * v + 0x20_0000_0000_0000 * w + 2 * v
            && 0x40_0000_0000_0000 * v <= 0x40_0000_0000_0000 * fw + 0x20_0000_0000_0000 * w + 2
            * v) by (nonlinear_arith)
            requires
                0x40_0000_0000_0000 * (fw * z) <= 0x40_0000_0000_0000 * (v * z)
                    + 0x20_0000_0000_0000 * (w * z) + 2 * (v * z),
                0x40_0000_0000_0000 * (v * z) <= 0x40_0000_0000_0000 * (fw * z)
                    + 0x20_0000_0000_0000 * (w * z) + 2 * (v * z),
                z > 0,
        ;
        if f > u32::MAX {
            assert(u32::MAX * w <= f * w) by (nonlinear_arith)
                requires
                    u32::MAX <= f,
            ;
        }
    }
}

proof fn lemma_tick_scale(ticks: u32)
    requires
        ticks > 0,
    ensures
        ({
            let (m, e) = rounded_ratio(ticks as nat, 480, 0, 53);
            &&& -62 < e <= 0
            &&& 0x10_0000_0000_0000 <= m < 0x20_0000_0000_0000
        }),
{
    let n = ticks as nat;
    vstd::arithmetic::power2::lemma2_to64();
    vstd::arithmetic::power2::lemma2_to64_rest();
    scale_exists(n, 480, 53);
    let e = scale_of(n, 480, 53);
    if e >= 0 {
        lemma_pow2_pos(e as nat);
        let y = pow2(e as nat);
        assert(0x10_0000_0000_0000 * (480 * y) > n) by (nonlinear_arith)
            requires
                y >= 1,
                n <= 0xFFFF_FFFF,
        ;
        assert(false);
    }
    if e <= -62 {
        vstd::arithmetic::power2::lemma_pow2_adds(62, (-e - 62) as nat);
        lemma_pow2_pos((-e - 62) as nat);
        let y = pow2((-e - 62) as nat);
        assert(n * (0x4000_0000_0000_0000 * y) >= 0x4000_0000_0000_0000) by (nonlinear_arith)
            requires
                n >= 1,
                y >= 1,
        ;
        assert(false);
    }
    let a = scaled_num(n, e);
    let (q, r) = (a / 480, a % 480);
    assert(0x10_0000_0000_0000 <= q < 0x20_0000_0000_0000);
}

/// The beats of some ticks are their number over 480, to within the rounding of doubles.
pub proof fn beats_are_ticks_over_480(ticks: u32)
    ensures
        ticks_beats(0) == 0,
        ticks > 0 ==> ticks_beats(ticks) < 0x7FF0_0000_0000_0000 && is_close(
            double_units(ticks_beats(ticks)) * 480,
            ticks as nat * units_of_one(),
            53,
        ),
{
    if ticks > 0 {
        let n = ticks as nat;
        let x = rounded_ratio(n, 480, 0, 53);
        lemma_tick_scale(ticks);
        rounding_is_close(n, 480, 0, 53, 1074);
        let b = ticks_beats(ticks);
        let field = x.1 + 1075;
        assert(b as int == field * 0x10_0000_0000_0000 + (x.0 - 0x10_0000_0000_0000));
        assert(b / 0x10_0000_0000_0000 == field);
        assert(b % 0x10_0000_0000_0000 == x.0 - 0x10_0000_0000_0000);
        assert(double_units(b) == in_units(x, 1074));
    }
}

/// Lengths survive the way to beats and back.
pub proof fn ticks_survive_beats(ticks: u32)
    requires
        ticks < u32::MAX,
    ensures
        beats_ticks(ticks_beats(ticks)) == ticks,
{
    let b = ticks_beats(ticks);
    beats_are_ticks_over_480(ticks);
    beat_lasts_480_ticks(b);
    vstd::arithmetic::power2::lemma2_to64();
    vstd::arithmetic::power2::lemma2_to64_rest();
    lemma_pow2_pos(1074);
    let w = pow2(1074);
    let t = beats_ticks(b) as nat;
    let n = ticks as nat;
    if ticks == 0 {
        let x = double_parts(0);
        assert(x.0 == 0);
        assert(rounded_ratio(0, 1, x.1, 53) == (0nat, 0int));
        assert(0 * pow2(0) == 0);
    } else {
        let v = double_units(b) * 480;
        let nw = n * w;
        let tw = t * w;
        assert(0x20_0000_0000_0000 * v <= 0x20_0000_0000_0000 * nw + nw);
        assert(0x20_0000_0000_0000 * nw <= 0x20_0000_0000_0000 * v + nw);
        assert(nw <= 0xFFFF_FFFF * w) by (nonlinear_arith)
            requires
                nw == n * w,
                n <= 0xFFFF_FFFF,
        ;
        assert(2 * v <= 0x4_0000_0000 * w);
        assert(tw < nw + w);
        assert(t < n + 1) by (nonlinear_arith)
            requires
                t * w < n * w + w,
                w > 0,
        ;
        if t < u32::MAX {
            assert(nw < tw + w);
            assert(n < t + 1) by (nonlinear_arith)
                requires
                    n * w < t * w + w,
                    w > 0,
            ;
        }
    }
}

/// A meter is two numbers around one slash, with white space around them or not. Without a
/// slash, or with two, there is none.
pub proof fn meter_has_one_slash(a: Seq<char>, b: Seq<char>, c: Seq<char>)
    requires
        forall|i: int| 0 <= i < a.len() ==> (#[trigger] a[i]) != '/',
        forall|i: int| 0 <= i < b.len() ==> (#[trigger] b[i]) != '/',
    ensures
        parsed_time_signature(a) is None,
        parsed_time_signature(a + seq!['/'] + b + seq!['/'] + c) is None,
        parsed_time_signature(a + seq!['/'] + b) is Some <==> parsed_u8(trimmed(a)) is Some
            && parsed_u8(trimmed(b)) is Some,
        parsed_time_signature(a + seq!['/'] + b) matches Some(t) ==> parsed_u8(trimmed(a)) == Some(
            t.numerator,
        ) && parsed_u8(trimmed(b)) == Some(t.denominator),
{
    crate::text::first_index_is_first(a, '/');
    crate::text::first_index_is_first(b, '/');
    let s = a + seq!['/'] + b;
    crate::text::first_index_is_first(s, '/');
    assert(s[a.len() as int] == '/');
    assert(first_index(s, '/') == a.len()) by {
        let k = first_index(s, '/') as int;
        if k < a.len() {
            assert(s[k] == a[k]);
        }
    }
    assert(s.take(a.len() as int) == a);
    assert(s.skip(a.len() as int + 1) == b);
    let rest = b + seq!['/'] + c;
    let t = a + seq!['/'] + b + seq!['/'] + c;
    crate::text::first_index_is_first(t, '/');
    crate::text::first_index_is_first(rest, '/');
    assert(t[a.len() as int] == '/');
    assert(first_index(t, '/') == a.len()) by {
        let k = first_index(t, '/') as int;
        if k < a.len() {
            assert(t[k] == a[k]);
        }
    }
    assert(t.skip(a.len() as int + 1) == rest);
    assert(rest[b.len() as int] == '/');
}

} // verus!
