//! Chords, their pitches and their voice leading.
use crate::rounding::{
    difference, distance24, floor, floor_of, parts, round_ratio, rounded_floor_is_near,
    rounded_ratio, rounding_is_near, saturated, Binary,
};
use crate::sorting::{sorted, sorted_keeps_items, stable_sort};
use crate::theory::pitch::{Pitch, PitchClass};
use crate::theory::scale::{mode_steps, Mode};
use vstd::arithmetic::power2::{lemma_pow2_adds, lemma_pow2_pos, pow2};
use vstd::prelude::*;

verus! {

#[derive(Debug, Clone, Copy, PartialEq, Eq, Structural)]
pub enum ChordQuality {
    Major,
    Minor,
    Dominant7,
    Major7,
    Minor7,
    HalfDiminished,
    Diminished,
    Augmented,
    Sus2,
    Sus4,
    Power,
}

#[derive(Debug, Clone, Copy, PartialEq, Eq, Structural)]
pub enum Extension {
    Flat9,
    Sharp9,
    Natural9,
    Natural11,
    Sharp11,
    Natural13,
    Flat13,
    Add9,
    Add11,
}

#[derive(Debug)]
pub struct Chord {
    pub root: PitchClass,
    pub quality: ChordQuality,
    pub extensions: Vec<Extension>,
    /// The bass of a slash chord.
    pub bass: Option<PitchClass>,
}

/// The stack of a quality, in semitones above the root.
pub open spec fn quality_steps(q: ChordQuality) -> Seq<u8> {
    match q {
        ChordQuality::Major => seq![0u8, 4, 7],
        ChordQuality::Minor => seq![0u8, 3, 7],
        ChordQuality::Dominant7 => seq![0u8, 4, 7, 10],
        ChordQuality::Major7 => seq![0u8, 4, 7, 11],
        ChordQuality::Minor7 => seq![0u8, 3, 7, 10],
        ChordQuality::HalfDiminished => seq![0u8, 3, 6, 10],
        ChordQuality::Diminished => seq![0u8, 3, 6, 9],
        ChordQuality::Augmented => seq![0u8, 4, 8],
        ChordQuality::Sus2 => seq![0u8, 2, 7],
        ChordQuality::Sus4 => seq![0u8, 5, 7],
        ChordQuality::Power => seq![0u8, 7],
    }
}

/// An extension in semitones above the root. Added tones lie above the octave.
pub open spec fn extension_step(e: Extension) -> u8 {
    match e {
        Extension::Flat9 => 1,
        Extension::Sharp9 => 3,
        Extension::Natural9 => 2,
        Extension::Natural11 => 5,
        Extension::Sharp11 => 6,
        Extension::Natural13 => 9,
        Extension::Flat13 => 8,
        Extension::Add9 => 14,
        Extension::Add11 => 17,
    }
}

/// A stack with the extensions that it does not hold yet, in their order.
pub open spec fn extended(base: Seq<u8>, exts: Seq<Extension>) -> Seq<u8>
    decreases exts.len(),
{
    if exts.len() == 0 {
        base
    } else {
        let b = extended(base, exts.drop_last());
        let s = extension_step(exts.last());
        if b.contains(s) {
            b
        } else {
            b.push(s)
        }
    }
}

/// The stack of a chord, ascending.
pub open spec fn chord_steps(q: ChordQuality, exts: Seq<Extension>) -> Seq<u8> {
    sorted(extended(quality_steps(q), exts))
}

/// The pitches of a stack on a root pitch number, where they exist.
pub open spec fn voiced(steps: Seq<u8>, root: int) -> Seq<Pitch>
    decreases steps.len(),
{
    if steps.len() == 0 {
        Seq::empty()
    } else {
        let rest = voiced(steps.drop_last(), root);
        let m = root + steps.last();
        if 0 <= m <= 127 {
            rest.push(Pitch(m as u8))
        } else {
            rest
        }
    }
}

/// The pitches of a chord with its root in an octave.
pub open spec fn chord_pitches(c: Chord, octave: int) -> Seq<Pitch> {
    voiced(chord_steps(c.quality, c.extensions@), (octave + 1) * 12 + c.root.0)
}

/// Whether the number of an octave's first pitch fits in a signed byte.
pub open spec fn octave_fits(octave: int) -> bool {
    -11 <= octave <= 9
}

/// The sum of some pitch numbers.
pub open spec fn pitch_sum(ps: Seq<Pitch>) -> nat
    decreases ps.len(),
{
    if ps.len() == 0 {
        0
    } else {
        pitch_sum(ps.drop_last()) + ps.last().0 as nat
    }
}

/// The mean of some pitch numbers in single precision; 0 where there is none.
pub open spec fn centre(ps: Seq<Pitch>) -> (nat, int) {
    rounded_ratio(
        pitch_sum(ps),
        if ps.len() == 0 {
            1
        } else {
            ps.len()
        },
        0,
        24,
    )
}

/// How far the centres of two voicings lie apart, in whole semitones, as single
/// precision gives it.
pub open spec fn centre_distance(ps: Seq<Pitch>, qs: Seq<Pitch>) -> u64 {
    let d = difference(centre(ps), centre(qs));
    saturated(floor_of(rounded_ratio(d.0, 1, d.1, 24)))
}

/// How far a chord's voicing in an octave lies from another voicing.
pub open spec fn lead_distance(c: Chord, octave: int, qs: Seq<Pitch>) -> u64 {
    centre_distance(chord_pitches(c, octave), qs)
}

/// The octave, from one below `register` to two above it, whose voicing lies
/// nearest to `qs`; the lowest of several that lie equally near.
pub open spec fn lead_octave(c: Chord, register: int, qs: Seq<Pitch>) -> int {
    let a = register - 1;
    let b = if lead_distance(c, register, qs) < lead_distance(c, a, qs) {
        register
    } else {
        a
    };
    let d = if lead_distance(c, register + 1, qs) < lead_distance(c, b, qs) {
        register + 1
    } else {
        b
    };
    if lead_distance(c, register + 2, qs) < lead_distance(c, d, qs) {
        register + 2
    } else {
        d
    }
}

/// The voicing of a chord after another in a register.
pub open spec fn voice_led(c: Chord, prev: Chord, register: int) -> Seq<Pitch> {
    let qs = chord_pitches(prev, register);
    if qs.len() == 0 {
        chord_pitches(c, register)
    } else {
        chord_pitches(c, lead_octave(c, register, qs))
    }
}

/// Whether no step occurs twice and none is above the greatest added tone.
pub open spec fn steps_ok(s: Seq<u8>) -> bool {
    s.no_duplicates() && forall|i: int| 0 <= i < s.len() ==> (#[trigger] s[i]) < 18
}

proof fn lemma_extended_ok(q: ChordQuality, exts: Seq<Extension>)
    ensures
        steps_ok(extended(quality_steps(q), exts)),
    decreases exts.len(),
{
    if exts.len() > 0 {
        lemma_extended_ok(q, exts.drop_last());
    }
}

proof fn lemma_distinct_bound(s: Seq<u8>, k: nat)
    requires
        s.no_duplicates(),
        forall|i: int| 0 <= i < s.len() ==> (#[trigger] s[i]) < k,
    ensures
        s.len() <= k,
    decreases k,
{
    if k == 0 {
        if s.len() > 0 {
            assert(s[0] < 0);
        }
    } else if exists|i: int| 0 <= i < s.len() && s[i] == k - 1 {
        let i = choose|i: int| 0 <= i < s.len() && s[i] == k - 1;
        let t = s.remove(i);
        assert forall|j: int| 0 <= j < t.len() implies (#[trigger] t[j]) < k - 1 by {
            let m = if j < i {
                j
            } else {
                j + 1
            };
            assert(t[j] == s[m]);
            assert(s[m] < k);
            assert(s[m] != s[i]);
        }
        assert(t.no_duplicates());
        lemma_distinct_bound(t, (k - 1) as nat);
    } else {
        assert forall|j: int| 0 <= j < s.len() implies (#[trigger] s[j]) < k - 1 by {
            assert(s[j] < k);
        }
        lemma_distinct_bound(s, (k - 1) as nat);
    }
}

proof fn lemma_chord_steps(q: ChordQuality, exts: Seq<Extension>)
    ensures
        chord_steps(q, exts).len() <= 18,
        forall|i: int|
            0 <= i < chord_steps(q, exts).len() ==> (#[trigger] chord_steps(q, exts)[i]) < 18,
{
    let e = extended(quality_steps(q), exts);
    lemma_extended_ok(q, exts);
    lemma_distinct_bound(e, 18);
    sorted_keeps_items(e);
    assert forall|i: int| 0 <= i < chord_steps(q, exts).len() implies (#[trigger] chord_steps(
        q,
        exts,
    )[i]) < 18 by {
        let x = chord_steps(q, exts)[i];
        assert(e.contains(x));
        let j = choose|j: int| 0 <= j < e.len() && e[j] == x;
        assert(e[j] < 18);
    }
}

proof fn lemma_voiced(steps: Seq<u8>, root: int)
    ensures
        voiced(steps, root).len() <= steps.len(),
        forall|i: int|
            0 <= i < voiced(steps, root).len() ==> (#[trigger] voiced(steps, root)[i]).0 <= 127,
    decreases steps.len(),
{
    if steps.len() > 0 {
        lemma_voiced(steps.drop_last(), root);
    }
}

/// The mean of some pitches, in single precision.
fn centre_of(ps: &Vec<Pitch>) -> (r: Binary)
    requires
        ps@.len() <= 18,
        forall|i: int| 0 <= i < ps@.len() ==> (#[trigger] ps@[i]).0 <= 127,
    ensures
        parts(r) == centre(ps@),
        r.mant < 0x100_0000,
        -40 <= r.exp <= 10,
{
    let mut sum: u32 = 0;
    assert(ps@.take(0) == Seq::<Pitch>::empty());
    for i in 0..ps.len()
        invariant
            ps@.len() <= 18,
            forall|i: int| 0 <= i < ps@.len() ==> (#[trigger] ps@[i]).0 <= 127,
            sum as nat == pitch_sum(ps@.take(i as int)),
            sum <= 127 * i,
    {
        assert(ps@.take(i + 1).drop_last() == ps@.take(i as int));
        assert(ps@[i as int].0 <= 127);
        sum = sum + ps[i].0 as u32;
    }
    assert(ps@.take(ps@.len() as int) == ps@);
    let count: u64 = if ps.len() == 0 {
        1
    } else {
        ps.len() as u64
    };
    round_ratio(sum as u128, count, 0, 24)
}

impl Chord {
    pub fn new(root: PitchClass, quality: ChordQuality) -> (r: Self)
        ensures
            r.root == root,
            r.quality == quality,
            r.extensions@ == Seq::<Extension>::empty(),
            r.bass is None,
    {
        Self { root, quality, extensions: Vec::new(), bass: None }
    }

    /// The stack above the root in semitones, ascending and without repetition.
    pub fn intervals(&self) -> (r: Vec<u8>)
        ensures
            r@ == chord_steps(self.quality, self.extensions@),
    {
        let mut base: Vec<u8> = match self.quality {
            ChordQuality::Major => vec![0, 4, 7],
            ChordQuality::Minor => vec![0, 3, 7],
            ChordQuality::Dominant7 => vec![0, 4, 7, 10],
            ChordQuality::Major7 => vec![0, 4, 7, 11],
            ChordQuality::Minor7 => vec![0, 3, 7, 10],
            ChordQuality::HalfDiminished => vec![0, 3, 6, 10],
            ChordQuality::Diminished => vec![0, 3, 6, 9],
            ChordQuality::Augmented => vec![0, 4, 8],
            ChordQuality::Sus2 => vec![0, 2, 7],
            ChordQuality::Sus4 => vec![0, 5, 7],
            ChordQuality::Power => vec![0, 7],
        };
        let ghost start = base@;
        assert(start == quality_steps(self.quality));
        assert(self.extensions@.take(0) == Seq::<Extension>::empty());
        for i in 0..self.extensions.len()
            invariant
                base@ == extended(start, self.extensions@.take(i as int)),
        {
            let s: u8 = match self.extensions[i] {
                Extension::Flat9 => 1,
                Extension::Sharp9 => 3,
                Extension::Natural9 => 2,
                Extension::Natural11 => 5,
                Extension::Sharp11 => 6,
                Extension::Natural13 => 9,
                Extension::Flat13 => 8,
                Extension::Add9 => 14,
                Extension::Add11 => 17,
            };
            assert(self.extensions@.take(i + 1).drop_last() == self.extensions@.take(i as int));
            let mut held = false;
            for j in 0..base.len()
                invariant
                    held == (exists|m: int| 0 <= m < j && base@[m] == s),
            {
                if base[j] == s {
                    held = true;
                    assert(base@[j as int] == s);
                }
            }
            assert(held == base@.contains(s));
            if !held {
                base.push(s);
            }
        }
        assert(self.extensions@.take(self.extensions@.len() as int) == self.extensions@);
        stable_sort(base)
    }

    /// The pitches with the root in an octave, where they exist.
    pub fn pitches(&self, root_octave: i8) -> (r: Vec<Pitch>)
        requires
            octave_fits(root_octave as int),
        ensures
            r@ == chord_pitches(*self, root_octave as int),
    {
        let root: i16 = (root_octave as i16 + 1) * 12 + self.root.0 as i16;
        let steps = self.intervals();
        let mut out: Vec<Pitch> = Vec::new();
        assert(steps@.take(0) == Seq::<u8>::empty());
        for i in 0..steps.len()
            invariant
                -120 <= root <= 375,
                out@ == voiced(steps@.take(i as int), root as int),
        {
            assert(steps@.take(i + 1).drop_last() == steps@.take(i as int));
            let m: i16 = root + steps[i] as i16;
            if 0 <= m && m <= 127 {
                out.push(Pitch(m as u8));
            }
        }
        assert(steps@.take(steps@.len() as int) == steps@);
        out
    }

    /// How far the voicing in an octave lies from a centre.
    fn distance_in(&self, octave: i8, Ghost(qs): Ghost<Seq<Pitch>>, from: Binary) -> (r: u64)
        requires
            octave_fits(octave as int),
            parts(from) == centre(qs),
            from.mant < 0x100_0000,
            -40 <= from.exp <= 10,
        ensures
            r == lead_distance(*self, octave as int, qs),
    {
        let ps = self.pitches(octave);
        proof {
            lemma_chord_steps(self.quality, self.extensions@);
            lemma_voiced(
                chord_steps(self.quality, self.extensions@),
                (octave + 1) * 12 + self.root.0,
            );
        }
        let c = centre_of(&ps);
        floor(distance24(c, from))
    }

    /// The voicing, from one octave below `register` to two above it, whose centre
    /// lies nearest to that of the previous chord.
    pub fn voice_lead_from(&self, prev: &Chord, register: i8) -> (r: Vec<Pitch>)
        requires
            octave_fits(register as int),
            chord_pitches(*prev, register as int).len() > 0 ==> octave_fits(register - 1)
                && octave_fits(register + 2),
        ensures
            r@ == voice_led(*self, *prev, register as int),
    {
        let qs = prev.pitches(register);
        if qs.len() == 0 {
            return self.pitches(register);
        }
        proof {
            lemma_chord_steps(prev.quality, prev.extensions@);
            lemma_voiced(
                chord_steps(prev.quality, prev.extensions@),
                (register + 1) * 12 + prev.root.0,
            );
        }
        let from = centre_of(&qs);
        let ghost model = qs@;
        let mut best: i8 = register - 1;
        let mut least: u64 = self.distance_in(best, Ghost(model), from);
        let d0: u64 = self.distance_in(register, Ghost(model), from);
        if d0 < least {
            best = register;
            least = d0;
        }
        let d1: u64 = self.distance_in(register + 1, Ghost(model), from);
        if d1 < least {
            best = register + 1;
            least = d1;
        }
        let d2: u64 = self.distance_in(register + 2, Ghost(model), from);
        if d2 < least {
            best = register + 2;
        }
        self.pitches(best)
    }
}

/// A chord's stack is ascending and holds every step once.
pub proof fn chord_steps_ascend(q: ChordQuality, exts: Seq<Extension>)
    ensures
        forall|i: int, j: int|
            0 <= i < j < chord_steps(q, exts).len() ==> (#[trigger] chord_steps(q, exts)[i]) < (
            #[trigger] chord_steps(q, exts)[j]),
{
    let e = extended(quality_steps(q), exts);
    lemma_extended_ok(q, exts);
    crate::sorting::sorted_is_ordered(e);
    let s = chord_steps(q, exts);
    assert(s.no_duplicates()) by {
        broadcast use vstd::seq_lib::group_to_multiset_ensures;

        assert forall|i: int, j: int| 0 <= i < s.len() && 0 <= j < s.len() && i != j implies s[i]
            != s[j] by {
            if s[i] == s[j] {
                crate::sorting::sorted_is_stable(e, s[i] as int);
                lemma_with_key_twice(s, i, j);
                lemma_with_key_once(e, s[i]);
            }
        }
    }
    assert forall|i: int, j: int| 0 <= i < j < s.len() implies (#[trigger] s[i]) < (
    #[trigger] s[j]) by {
        assert(crate::sorting::ordered(s));
        assert(crate::sorting::Keyed::key(&s[i]) <= crate::sorting::Keyed::key(&s[j]));
        assert(s[i] != s[j]);
    }
}

proof fn lemma_with_key_once(s: Seq<u8>, x: u8)
    requires
        s.no_duplicates(),
    ensures
        crate::sorting::with_key(s, x as int).len() <= 1,
        !s.contains(x) ==> crate::sorting::with_key(s, x as int).len() == 0,
    decreases s.len(),
{
    if s.len() > 0 {
        let t = s.drop_last();
        assert(t.no_duplicates());
        lemma_with_key_once(t, x);
        if s.last() == x {
            assert(!t.contains(x)) by {
                if t.contains(x) {
                    let i = choose|i: int| 0 <= i < t.len() && t[i] == x;
                    assert(s[i] == s[s.len() - 1]);
                }
            }
        } else if !s.contains(x) {
            assert(!t.contains(x)) by {
                if t.contains(x) {
                    let i = choose|i: int| 0 <= i < t.len() && t[i] == x;
                    assert(s[i] == x);
                }
            }
        }
        assert(s[s.len() - 1] == s.last());
    }
}

proof fn lemma_with_key_has(s: Seq<u8>, i: int)
    requires
        0 <= i < s.len(),
    ensures
        crate::sorting::with_key(s, s[i] as int).len() >= 1,
    decreases s.len(),
{
    if i < s.len() - 1 {
        assert(s.drop_last()[i] == s[i]);
        lemma_with_key_has(s.drop_last(), i);
    }
}

proof fn lemma_with_key_twice(s: Seq<u8>, i: int, j: int)
    requires
        0 <= i < s.len(),
        0 <= j < s.len(),
        i != j,
        s[i] == s[j],
    ensures
        crate::sorting::with_key(s, s[i] as int).len() >= 2,
    decreases s.len(),
{
    let t = s.drop_last();
    if i == s.len() - 1 {
        assert(t[j] == s[j]);
        lemma_with_key_has(t, j);
    } else if j == s.len() - 1 {
        assert(t[i] == s[i]);
        lemma_with_key_has(t, i);
    } else {
        lemma_with_key_twice(t, i, j);
    }
}

/// No octave that was tried gives a voicing nearer to the previous chord than
/// the one chosen, and none below it one that is equally near.
pub proof fn lead_octave_is_nearest(c: Chord, register: int, qs: Seq<Pitch>, o: int)
    requires
        register - 1 <= o <= register + 2,
    ensures
        register - 1 <= lead_octave(c, register, qs) <= register + 2,
        lead_distance(c, lead_octave(c, register, qs), qs) <= lead_distance(c, o, qs),
        o < lead_octave(c, register, qs) ==> lead_distance(c, lead_octave(c, register, qs), qs)
            < lead_distance(c, o, qs),
{
}

/// How far the centres of two voicings lie apart, without any rounding, times the
/// numbers of their pitches.
pub open spec fn centre_gap(ps: Seq<Pitch>, qs: Seq<Pitch>) -> nat {
    let d = pitch_sum(ps) * qs.len() - pitch_sum(qs) * ps.len();
    (if d < 0 {
        -d
    } else {
        d
    }) as nat
}

/// Whether a number is so near to `s / l` that they differ by no more than 2^-16.
spec fn is_near(x: (nat, int), s: nat, l: nat) -> bool {
    let f = pow2((-x.1) as nat);
    &&& x.1 <= 0
    &&& 0x1_0000 * (x.0 * l) <= 0x1_0000 * (s * f) + l * f
    &&& 0x1_0000 * (s * f) <= 0x1_0000 * (x.0 * l) + l * f
}

/// Whether a voicing is small enough for its centre to be computed nearly.
pub open spec fn is_moderate(ps: Seq<Pitch>) -> bool {
    0 < ps.len() <= 18 && pitch_sum(ps) <= 127 * ps.len()
}

proof fn lemma_centre_near(ps: Seq<Pitch>)
    requires
        is_moderate(ps),
    ensures
        is_near(centre(ps), pitch_sum(ps), ps.len()),
{
    let (s, l) = (pitch_sum(ps), ps.len());
    vstd::arithmetic::power2::lemma2_to64();
    if s == 0 {
        assert(centre(ps) == (0nat, 0int));
        assert(0 * l == 0 && 0 * pow2(0) == 0);
    } else {
        assert(s < 256 * l) by (nonlinear_arith)
            requires
                s <= 127 * l,
                l > 0,
        ;
        rounding_is_near(s, l);
    }
}

proof fn lemma_near_scaled(m: nat, s: nat, l: nat, f1: nat, g: nat, f: nat)
    requires
        0x1_0000 * (m * l) <= 0x1_0000 * (s * f1) + l * f1,
        0x1_0000 * (s * f1) <= 0x1_0000 * (m * l) + l * f1,
        f == f1 * g,
    ensures
        0x1_0000 * ((m * g) * l) <= 0x1_0000 * (s * f) + l * f,
        0x1_0000 * (s * f) <= 0x1_0000 * ((m * g) * l) + l * f,
{
    let (a, b, c) = (m * l, s * f1, l * f1);
    assert((m * g) * l == a * g && s * f == b * g && l * f == c * g) by (nonlinear_arith)
        requires
            a == m * l,
            b == s * f1,
            c == l * f1,
            f == f1 * g,
    ;
    assert(0x1_0000 * (a * g) <= 0x1_0000 * (b * g) + c * g && 0x1_0000 * (b * g) <= 0x1_0000 * (a
        * g) + c * g) by (nonlinear_arith)
        requires
            0x1_0000 * a <= 0x1_0000 * b + c,
            0x1_0000 * b <= 0x1_0000 * a + c,
    ;
}

proof fn lemma_gap_near(a: nat, s1: nat, l1: nat, b: nat, s2: nat, l2: nat, f: nat)
    requires
        0x1_0000 * (a * l1) <= 0x1_0000 * (s1 * f) + l1 * f,
        0x1_0000 * (s1 * f) <= 0x1_0000 * (a * l1) + l1 * f,
        0x1_0000 * (b * l2) <= 0x1_0000 * (s2 * f) + l2 * f,
        0x1_0000 * (s2 * f) <= 0x1_0000 * (b * l2) + l2 * f,
    ensures
        ({
            let x = (a - b) * (l1 * l2);
            let y = (s1 * l2 - s2 * l1) * f;
            let e = (l1 * l2) * f;
            &&& 0x8000 * (x - y) <= e
            &&& 0x8000 * (y - x) <= e
        }),
{
    let u: int = a * l1 - s1 * f;
    let v: int = b * l2 - s2 * f;
    let (c, d) = (l1 * f, l2 * f);
    assert(-c <= 0x1_0000 * u <= c && -d <= 0x1_0000 * v <= d);
    assert((a - b) * (l1 * l2) - (s1 * l2 - s2 * l1) * f == u * l2 - v * l1) by {
        assert(u * l2 == (a * l1) * l2 - (s1 * f) * l2) by (nonlinear_arith)
            requires
                u == a * l1 - s1 * f,
        ;
        assert(v * l1 == (b * l2) * l1 - (s2 * f) * l1) by (nonlinear_arith)
            requires
                v == b * l2 - s2 * f,
        ;
        let n = l1 * l2;
        assert((a - b) * n == a * n - b * n) by (nonlinear_arith);
        assert(a * n == (a * l1) * l2) by (nonlinear_arith)
            requires
                n == l1 * l2,
        ;
        assert(b * n == (b * l2) * l1) by (nonlinear_arith)
            requires
                n == l1 * l2,
        ;
        assert((s1 * l2 - s2 * l1) * f == (s1 * l2) * f - (s2 * l1) * f) by (nonlinear_arith);
        assert((s1 * l2) * f == (s1 * f) * l2) by (nonlinear_arith);
        assert((s2 * l1) * f == (s2 * f) * l1) by (nonlinear_arith);
    }
    let e = (l1 * l2) * f;
    assert(c * l2 == e && d * l1 == e) by (nonlinear_arith)
        requires
            c == l1 * f,
            d == l2 * f,
            e == (l1 * l2) * f,
    ;
    assert(-(c * l2) <= 0x1_0000 * (u * l2) <= c * l2) by (nonlinear_arith)
        requires
            -c <= 0x1_0000 * u <= c,
    ;
    assert(-(d * l1) <= 0x1_0000 * (v * l1) <= d * l1) by (nonlinear_arith)
        requires
            -d <= 0x1_0000 * v <= d,
    ;
}

/// The computed distance of two voicings lies on the same side of a whole number as the
/// distance of their centres.
proof fn lemma_distance_side(ps: Seq<Pitch>, qs: Seq<Pitch>, k: nat)
    requires
        is_moderate(ps),
        is_moderate(qs),
        0 < k <= 200,
    ensures
        centre_gap(ps, qs) > k * (ps.len() * qs.len()) ==> centre_distance(ps, qs) >= k,
        centre_gap(ps, qs) < k * (ps.len() * qs.len()) ==> centre_distance(ps, qs) < k,
{
    let (s1, l1, s2, l2) = (pitch_sum(ps), ps.len(), pitch_sum(qs), qs.len());
    let (x, y) = (centre(ps), centre(qs));
    let d = difference(x, y);
    lemma_centre_near(ps);
    lemma_centre_near(qs);
    let fe = (-d.1) as nat;
    let f = pow2(fe);
    let (f1, f2) = (pow2((-x.1) as nat), pow2((-y.1) as nat));
    let (g1, g2) = (pow2((x.1 - d.1) as nat), pow2((y.1 - d.1) as nat));
    lemma_pow2_adds((-x.1) as nat, (x.1 - d.1) as nat);
    lemma_pow2_adds((-y.1) as nat, (y.1 - d.1) as nat);
    lemma_pow2_pos(fe);
    lemma_near_scaled(x.0, s1, l1, f1, g1, f);
    lemma_near_scaled(y.0, s2, l2, f2, g2, f);
    let (a, b) = (x.0 * g1, y.0 * g2);
    lemma_gap_near(a, s1, l1, b, s2, l2, f);
    let n = l1 * l2;
    let t = centre_gap(ps, qs);
    assert(1 <= n <= 324) by (nonlinear_arith)
        requires
            1 <= l1 <= 18,
            1 <= l2 <= 18,
            n == l1 * l2,
    ;
    assert(d.0 * n == (if a < b {
        -((a - b) * n)
    } else {
        (a - b) * n
    })) by (nonlinear_arith)
        requires
            a < b ==> d.0 == b - a,
            a >= b ==> d.0 == a - b,
    ;
    let z = s1 * l2 - s2 * l1;
    assert(t * f == (if z < 0 {
        -(z * f)
    } else {
        z * f
    })) by (nonlinear_arith)
        requires
            z < 0 ==> t == -z,
            z >= 0 ==> t == z,
    ;
    assert((a - b) * n >= 0 <==> a >= b) by (nonlinear_arith)
        requires
            n > 0,
    ;
    assert(z * f >= 0 <==> z >= 0) by (nonlinear_arith)
        requires
            f > 0,
    ;
    let (dn, tf, nf) = (d.0 * n, t * f, n * f);
    assert(0x8000 * dn <= 0x8000 * tf + nf && 0x8000 * tf <= 0x8000 * dn + nf);
    // The centres lie no more than 127 apart.
    assert(t <= 127 * n) by (nonlinear_arith)
        requires
            s1 <= 127 * l1,
            s2 <= 127 * l2,
            n == l1 * l2,
            t == s1 * l2 - s2 * l1 || t == s2 * l1 - s1 * l2,
    ;
    assert(d.0 < 256 * f) by (nonlinear_arith)
        requires
            0x8000 * (d.0 * n) <= 0x8000 * (t * f) + n * f,
            t <= 127 * n,
            n > 0,
            f > 0,
    ;
    rounded_floor_is_near(d.0, fe, k);
    assert(rounded_ratio(d.0, 1, d.1, 24) == rounded_ratio(d.0, 1, -(fe as int), 24));
    if t > k * n {
        assert(k * f <= d.0) by (nonlinear_arith)
            requires
                0x8000 * (t * f) <= 0x8000 * (d.0 * n) + n * f,
                t >= k * n + 1,
                1 <= n <= 324,
                f > 0,
        ;
    }
    if t < k * n {
        assert(0x400 * d.0 + f <= 0x400 * (k * f)) by (nonlinear_arith)
            requires
                0x8000 * (d.0 * n) <= 0x8000 * (t * f) + n * f,
                t + 1 <= k * n,
                1 <= n <= 324,
                f > 0,
        ;
    }
}

proof fn lemma_voiced_whole(steps: Seq<u8>, root: int)
    requires
        0 <= root <= 110,
        forall|i: int| 0 <= i < steps.len() ==> (#[trigger] steps[i]) < 18,
    ensures
        voiced(steps, root).len() == steps.len(),
        pitch_sum(voiced(steps, root)) <= 127 * steps.len(),
        pitch_sum(voiced(steps, root)) == pitch_sum(voiced(steps, 0)) + root * steps.len(),
    decreases steps.len(),
{
    if steps.len() > 0 {
        let t = steps.drop_last();
        assert forall|i: int| 0 <= i < t.len() implies (#[trigger] t[i]) < 18 by {
            assert(t[i] == steps[i]);
        }
        lemma_voiced_whole(t, root);
        let x = steps.last();
        assert(steps[steps.len() - 1] < 18);
        let (v, w) = (voiced(steps, root), voiced(steps, 0));
        assert(v == voiced(t, root).push(Pitch((root + x) as u8)));
        assert(w == voiced(t, 0).push(Pitch(x as u8)));
        assert(v.drop_last() == voiced(t, root));
        assert(w.drop_last() == voiced(t, 0));
        assert(root * steps.len() == root * t.len() + root) by (nonlinear_arith)
            requires
                steps.len() == t.len() + 1,
        ;
    } else {
        assert(root * 0 == 0);
    }
}

proof fn lemma_steps_present(q: ChordQuality, exts: Seq<Extension>)
    ensures
        extended(quality_steps(q), exts).len() > 0,
    decreases exts.len(),
{
    if exts.len() > 0 {
        lemma_steps_present(q, exts.drop_last());
    }
}

/// In the registers from 0 to 5, no octave that was tried gives a voicing whose centre
/// lies nearer to that of the previous chord than the centre of the voicing chosen.
pub proof fn voice_leading_is_nearest(c: Chord, prev: Chord, register: int, o: int)
    requires
        0 <= register <= 5,
        c.root.0 <= 11,
        prev.root.0 <= 11,
        register - 1 <= o <= register + 2,
    ensures
        ({
            let qs = chord_pitches(prev, register);
            let chosen = voice_led(c, prev, register);
            let tried = chord_pitches(c, o);
            &&& qs.len() > 0
            &&& exists|l: int|
                register - 1 <= l <= register + 2 && chosen == #[trigger] chord_pitches(c, l)
            &&& 0 < chosen.len() == tried.len()
            &&& centre_gap(chosen, qs) <= centre_gap(tried, qs)
        }),
{
    let steps = chord_steps(c.quality, c.extensions@);
    let before = chord_steps(prev.quality, prev.extensions@);
    lemma_chord_steps(c.quality, c.extensions@);
    lemma_chord_steps(prev.quality, prev.extensions@);
    lemma_steps_present(c.quality, c.extensions@);
    lemma_steps_present(prev.quality, prev.extensions@);
    sorted_keeps_items(extended(quality_steps(c.quality), c.extensions@));
    sorted_keeps_items(extended(quality_steps(prev.quality), prev.extensions@));
    let qs = chord_pitches(prev, register);
    lemma_voiced_whole(before, (register + 1) * 12 + prev.root.0);
    let l = lead_octave(c, register, qs);
    lead_octave_is_nearest(c, register, qs, o);
    let (r, r1) = ((l + 1) * 12 + c.root.0, (o + 1) * 12 + c.root.0);
    lemma_voiced_whole(steps, r);
    lemma_voiced_whole(steps, r1);
    let (ps, ps1) = (chord_pitches(c, l), chord_pitches(c, o));
    assert(voice_led(c, prev, register) == ps);
    let (t, t1) = (centre_gap(ps, qs), centre_gap(ps1, qs));
    let n = steps.len() * qs.len();
    if t1 < t {
        let base = pitch_sum(voiced(steps, 0));
        let (z, z1) = (
            pitch_sum(ps) * qs.len() - pitch_sum(qs) * ps.len(),
            pitch_sum(ps1) * qs.len() - pitch_sum(qs) * ps1.len(),
        );
        let (lc, lq, sq) = (steps.len(), qs.len(), pitch_sum(qs));
        assert(z1 - z == (12 * (o - l)) * n) by (nonlinear_arith)
            requires
                z == (base + r * lc) * lq - sq * lc,
                z1 == (base + r1 * lc) * lq - sq * lc,
                r1 - r == 12 * (o - l),
                n == lc * lq,
        ;
        assert(1 <= n <= 324) by (nonlinear_arith)
            requires
                1 <= lc <= 18,
                1 <= lq <= 18,
                n == lc * lq,
        ;
        assert(t1 <= 127 * n) by (nonlinear_arith)
            requires
                pitch_sum(ps1) <= 127 * lc,
                sq <= 127 * lq,
                n == lc * lq,
                t1 == pitch_sum(ps1) * lq - sq * lc || t1 == sq * lc - pitch_sum(ps1) * lq,
        ;
        let k = if o < l {
            l - o
        } else {
            o - l
        };
        let apart = (12 * k) * n;
        assert(z1 - z == apart || z - z1 == apart) by (nonlinear_arith)
            requires
                z1 - z == (12 * (o - l)) * n,
                apart == (12 * k) * n,
                k == l - o || k == o - l,
        ;
        assert(k >= 1);
        let bound: int = if t == t1 + apart {
            (t1 / n + 2) as int
        } else {
            6 * k
        };
        if t == t1 + apart {
            vstd::arithmetic::div_mod::lemma_fundamental_div_mod(t1 as int, n as int);
            let (q, rem) = (t1 / n, t1 % n);
            assert(q <= 127) by (nonlinear_arith)
                requires
                    t1 <= 127 * n,
                    t1 == n * q + rem,
                    0 <= rem < n,
                    n > 0,
            ;
            assert(t1 < bound * n && bound * n < t) by (nonlinear_arith)
                requires
                    t1 == n * q + rem,
                    0 <= rem < n,
                    bound == q + 2,
                    t == t1 + apart,
                    apart == (12 * k) * n,
                    k >= 1,
            ;
        } else {
            assert(t + t1 == apart);
            assert(t1 < bound * n && bound * n < t) by (nonlinear_arith)
                requires
                    t1 < t,
                    t + t1 == apart,
                    apart == (12 * k) * n,
                    bound == 6 * k,
            ;
        }
        lemma_distance_side(ps, qs, bound as nat);
        lemma_distance_side(ps1, qs, bound as nat);
        assert(false);
    }
}

/// The stacks of thirds: a major chord is a major third and a minor one above it, a minor
/// chord the other way round, an augmented one two major thirds; a seventh chord has a
/// third more, and a diminished one has minor thirds alone.
pub proof fn chords_are_stacks_of_thirds()
    ensures
        stacked(quality_steps(ChordQuality::Major), seq![4, 3]),
        stacked(quality_steps(ChordQuality::Minor), seq![3, 4]),
        stacked(quality_steps(ChordQuality::Augmented), seq![4, 4]),
        stacked(quality_steps(ChordQuality::Dominant7), seq![4, 3, 3]),
        stacked(quality_steps(ChordQuality::Major7), seq![4, 3, 4]),
        stacked(quality_steps(ChordQuality::Minor7), seq![3, 4, 3]),
        stacked(quality_steps(ChordQuality::HalfDiminished), seq![3, 3, 4]),
        stacked(quality_steps(ChordQuality::Diminished), seq![3, 3, 3]),
{
}

/// Whether a stack begins on its root and goes up by these distances.
pub open spec fn stacked(steps: Seq<u8>, gaps: Seq<int>) -> bool {
    &&& steps.len() == gaps.len() + 1
    &&& steps[0] == 0
    &&& forall|i: int| 0 <= i < gaps.len() ==> steps[i + 1] - steps[i] == #[trigger] gaps[i]
}

/// Suspended chords have the second or the fourth degree of the major scale in the place
/// of its third; a power chord has no third. They all have the fifth.
pub proof fn suspended_chords_have_no_third()
    ensures
        ({
            let major = mode_steps(Mode::Major);
            let chord = quality_steps(ChordQuality::Major);
            &&& chord == seq![major[0], major[2], major[4]]
            &&& quality_steps(ChordQuality::Sus2) == chord.update(1, major[1])
            &&& quality_steps(ChordQuality::Sus4) == chord.update(1, major[3])
            &&& quality_steps(ChordQuality::Power) == chord.remove(1)
        }),
{
    let major = mode_steps(Mode::Major);
    let chord = quality_steps(ChordQuality::Major);
    assert(chord == seq![major[0], major[2], major[4]]);
    assert(quality_steps(ChordQuality::Sus2) == chord.update(1, major[1]));
    assert(quality_steps(ChordQuality::Sus4) == chord.update(1, major[3]));
    assert(quality_steps(ChordQuality::Power) == chord.remove(1));
}

/// Extensions are degrees of the major scale, the ninth its second, the eleventh its
/// fourth and the thirteenth its sixth, natural, raised or lowered by a semitone. Added
/// tones are the same degrees an octave higher.
pub proof fn extensions_are_degrees()
    ensures
        ({
            let major = mode_steps(Mode::Major);
            &&& extension_step(Extension::Natural9) == major[1]
            &&& extension_step(Extension::Flat9) == major[1] - 1
            &&& extension_step(Extension::Sharp9) == major[1] + 1
            &&& extension_step(Extension::Natural11) == major[3]
            &&& extension_step(Extension::Sharp11) == major[3] + 1
            &&& extension_step(Extension::Natural13) == major[5]
            &&& extension_step(Extension::Flat13) == major[5] - 1
            &&& extension_step(Extension::Add9) == major[1] + 12
            &&& extension_step(Extension::Add11) == major[3] + 12
        }),
{
}

proof fn lemma_extended_holds(base: Seq<u8>, exts: Seq<Extension>, x: u8)
    ensures
        extended(base, exts).contains(x) <==> base.contains(x) || exists|i: int|
            0 <= i < exts.len() && extension_step(#[trigger] exts[i]) == x,
    decreases exts.len(),
{
    if exts.len() > 0 {
        let init = exts.drop_last();
        lemma_extended_holds(base, init, x);
        let b = extended(base, init);
        let s = extension_step(exts.last());
        let n = exts.len() - 1;
        assert(exts[n] == exts.last());
        if exists|i: int| 0 <= i < init.len() && extension_step(#[trigger] init[i]) == x {
            let i = choose|i: int| 0 <= i < init.len() && extension_step(#[trigger] init[i]) == x;
            assert(exts[i] == init[i]);
        }
        if exists|i: int| 0 <= i < exts.len() && extension_step(#[trigger] exts[i]) == x {
            let i = choose|i: int| 0 <= i < exts.len() && extension_step(#[trigger] exts[i]) == x;
            if i < n {
                assert(init[i] == exts[i]);
            }
        }
        if !b.contains(s) {
            assert(b.push(s)[b.len() as int] == s);
            if b.contains(x) {
                let j = choose|j: int| 0 <= j < b.len() && b[j] == x;
                assert(b.push(s)[j] == x);
            }
            if b.push(s).contains(x) && x != s {
                let j = choose|j: int| 0 <= j < b.push(s).len() && b.push(s)[j] == x;
                assert(b[j] == x);
            }
        }
    }
}

/// A chord's stack holds exactly the steps of its quality and of its extensions.
pub proof fn chord_holds_quality_and_extensions(q: ChordQuality, exts: Seq<Extension>, x: u8)
    ensures
        chord_steps(q, exts).contains(x) <==> quality_steps(q).contains(x) || exists|i: int|
            0 <= i < exts.len() && extension_step(#[trigger] exts[i]) == x,
{
    let e = extended(quality_steps(q), exts);
    lemma_extended_holds(quality_steps(q), exts, x);
    sorted_keeps_items(e);
    let s = chord_steps(q, exts);
    if s.contains(x) {
        let i = choose|i: int| 0 <= i < s.len() && s[i] == x;
        assert(e.contains(s[i]));
    }
    if e.contains(x) {
        let i = choose|i: int| 0 <= i < e.len() && e[i] == x;
        assert(s.contains(e[i]));
    }
}

proof fn lemma_voiced_holds(steps: Seq<u8>, root: int, p: Pitch)
    ensures
        voiced(steps, root).contains(p) <==> p.0 <= 127 && exists|i: int|
            0 <= i < steps.len() && root + #[trigger] steps[i] == p.0,
    decreases steps.len(),
{
    if steps.len() > 0 {
        let init = steps.drop_last();
        lemma_voiced_holds(init, root, p);
        let v = voiced(init, root);
        let m = root + steps.last();
        let n = steps.len() - 1;
        assert(steps[n] == steps.last());
        if exists|i: int| 0 <= i < init.len() && root + #[trigger] init[i] == p.0 {
            let i = choose|i: int| 0 <= i < init.len() && root + #[trigger] init[i] == p.0;
            assert(steps[i] == init[i]);
        }
        if exists|i: int| 0 <= i < steps.len() && root + #[trigger] steps[i] == p.0 {
            let i = choose|i: int| 0 <= i < steps.len() && root + #[trigger] steps[i] == p.0;
            if i < n {
                assert(init[i] == steps[i]);
            }
        }
        if 0 <= m <= 127 {
            let w = v.push(Pitch(m as u8));
            assert(w[v.len() as int] == Pitch(m as u8));
            if v.contains(p) {
                let j = choose|j: int| 0 <= j < v.len() && v[j] == p;
                assert(w[j] == p);
            }
            if w.contains(p) && p != Pitch(m as u8) {
                let j = choose|j: int| 0 <= j < w.len() && w[j] == p;
                assert(v[j] == p);
            }
        }
    }
}

proof fn lemma_voiced_ascends(steps: Seq<u8>, root: int)
    requires
        forall|i: int, j: int|
            0 <= i < j < steps.len() ==> (#[trigger] steps[i]) < (#[trigger] steps[j]),
    ensures
        forall|i: int, j: int|
            0 <= i < j < voiced(steps, root).len() ==> (#[trigger] voiced(steps, root)[i]).0 < (
            #[trigger] voiced(steps, root)[j]).0,
    decreases steps.len(),
{
    if steps.len() > 0 {
        let init = steps.drop_last();
        assert forall|i: int, j: int| 0 <= i < j < init.len() implies (#[trigger] init[i]) < (
        #[trigger] init[j]) by {
            assert(steps[i] < steps[j]);
        }
        lemma_voiced_ascends(init, root);
        let (v, w) = (voiced(init, root), voiced(steps, root));
        assert forall|i: int, j: int| 0 <= i < j < w.len() implies (#[trigger] w[i]).0 < (
        #[trigger] w[j]).0 by {
            if j == v.len() {
                assert(v.contains(v[i]));
                lemma_voiced_holds(init, root, v[i]);
                let k = choose|k: int|
                    0 <= k < init.len() && root + #[trigger] init[k] == v[i].0;
                assert(steps[k] < steps[steps.len() - 1]);
            } else {
                assert(w[i] == v[i] && w[j] == v[j]);
            }
        }
    }
}

/// A chord in an octave is its stack on its root there: it holds exactly the pitches that
/// lie a step of its quality or of an extension above the root of that octave, as far as
/// the pitch range goes, from the lowest up.
pub proof fn chord_stands_on_its_root(c: Chord, octave: int, p: Pitch)
    ensures
        ({
            let above = p.0 - (60 + 12 * (octave - 4) + c.root.0);
            chord_pitches(c, octave).contains(p) <==> p.0 <= 127 && 0 <= above && (quality_steps(
                c.quality,
            ).contains(above as u8) || exists|i: int|
                0 <= i < c.extensions@.len() && extension_step(#[trigger] c.extensions@[i])
                    == above) && above < 256
        }),
        forall|i: int, j: int|
            0 <= i < j < chord_pitches(c, octave).len() ==> (#[trigger] chord_pitches(
                c,
                octave,
            )[i]).0 < (#[trigger] chord_pitches(c, octave)[j]).0,
{
    let steps = chord_steps(c.quality, c.extensions@);
    let root = (octave + 1) * 12 + c.root.0;
    let above = p.0 - root;
    chord_steps_ascend(c.quality, c.extensions@);
    lemma_voiced_ascends(steps, root);
    lemma_voiced_holds(steps, root, p);
    assert(root == 60 + 12 * (octave - 4) + c.root.0);
    if 0 <= above < 256 {
        let x = above as u8;
        chord_holds_quality_and_extensions(c.quality, c.extensions@, x);
        if steps.contains(x) {
            let i = choose|i: int| 0 <= i < steps.len() && steps[i] == x;
            assert(root + steps[i] == p.0);
        }
        if exists|i: int| 0 <= i < steps.len() && root + #[trigger] steps[i] == p.0 {
            let i = choose|i: int| 0 <= i < steps.len() && root + #[trigger] steps[i] == p.0;
            assert(steps[i] == x);
        }
    } else if exists|i: int| 0 <= i < steps.len() && root + #[trigger] steps[i] == p.0 {
        let i = choose|i: int| 0 <= i < steps.len() && root + #[trigger] steps[i] == p.0;
        assert(steps[i] == above);
    }
}

/// Behind a chord without pitches, a chord is voiced in the register itself.
pub proof fn nothing_to_lead_from(c: Chord, prev: Chord, register: int)
    requires
        chord_pitches(prev, register).len() == 0,
    ensures
        voice_led(c, prev, register) == chord_pitches(c, register),
{
}

/// In every register the voicing chosen is the chord's own in one of the four octaves about
/// it, and no other of them has a lesser distance to the previous chord; of several that are
/// equally near it is the lowest.
pub proof fn least_distance_is_chosen(c: Chord, prev: Chord, register: int, o: int)
    requires
        chord_pitches(prev, register).len() > 0,
        register - 1 <= o <= register + 2,
    ensures
        ({
            let qs = chord_pitches(prev, register);
            let chosen = voice_led(c, prev, register);
            exists|l: int|
                register - 1 <= l <= register + 2 && chosen == #[trigger] chord_pitches(c, l)
                    && centre_distance(chosen, qs) <= centre_distance(chord_pitches(c, o), qs) && (o
                    < l ==> centre_distance(chosen, qs) < centre_distance(chord_pitches(c, o), qs))
        }),
{
    let qs = chord_pitches(prev, register);
    let l = lead_octave(c, register, qs);
    lead_octave_is_nearest(c, register, qs, o);
    assert(voice_led(c, prev, register) == chord_pitches(c, l));
}

/// The distance of two voicings is that of their centres in whole semitones: it reaches a
/// number where the centres lie further apart than that, and does not where they lie less
/// far apart.
pub proof fn distance_is_that_of_the_centres(ps: Seq<Pitch>, qs: Seq<Pitch>, k: nat)
    requires
        is_moderate(ps),
        is_moderate(qs),
        0 < k <= 200,
    ensures
        centre_gap(ps, qs) > k * (ps.len() * qs.len()) ==> centre_distance(ps, qs) >= k,
        centre_gap(ps, qs) < k * (ps.len() * qs.len()) ==> centre_distance(ps, qs) < k,
{
    lemma_distance_side(ps, qs, k);
}

} // verus!
