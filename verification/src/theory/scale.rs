//! Modes and scales.
use crate::text::{
    ascii_lowered, chars_of, is_white_space, lowered, same_ignoring_ascii_case, str_eq, string_of,
    to_lowercase, trim, trimmed,
};
use crate::theory::pitch::{parsed_class, PitchClass};
use vstd::prelude::*;
use vstd::utf8::is_ascii_chars;

verus! {

#[derive(Debug, Clone, Copy, PartialEq, Eq, Structural)]
pub enum Mode {
    Major,
    NaturalMinor,
    HarmonicMinor,
    MelodicMinor,
    Dorian,
    Phrygian,
    Lydian,
    Mixolydian,
    Locrian,
    WholeTone,
    Diminished,
    Pentatonic,
    BluesPentatonic,
}

/// The degrees of a mode, in semitones above the root.
pub open spec fn mode_steps(m: Mode) -> Seq<u8> {
    match m {
        Mode::Major => seq![0u8, 2, 4, 5, 7, 9, 11],
        Mode::NaturalMinor => seq![0u8, 2, 3, 5, 7, 8, 10],
        Mode::HarmonicMinor => seq![0u8, 2, 3, 5, 7, 8, 11],
        Mode::MelodicMinor => seq![0u8, 2, 3, 5, 7, 9, 11],
        Mode::Dorian => seq![0u8, 2, 3, 5, 7, 9, 10],
        Mode::Phrygian => seq![0u8, 1, 3, 5, 7, 8, 10],
        Mode::Lydian => seq![0u8, 2, 4, 6, 7, 9, 11],
        Mode::Mixolydian => seq![0u8, 2, 4, 5, 7, 9, 10],
        Mode::Locrian => seq![0u8, 1, 3, 5, 6, 8, 10],
        Mode::WholeTone => seq![0u8, 2, 4, 6, 8, 10],
        Mode::Diminished => seq![0u8, 2, 3, 5, 6, 8, 9, 11],
        Mode::Pentatonic => seq![0u8, 2, 4, 7, 9],
        Mode::BluesPentatonic => seq![0u8, 3, 5, 6, 7, 10],
    }
}

/// The mode with this name, in lower case and without white space around it.
pub open spec fn named_mode(t: Seq<char>) -> Option<Mode> {
    if t == "major"@ || t == "ionian"@ {
        Some(Mode::Major)
    } else if t == "natural minor"@ || t == "aeolian"@ || t == "minor"@ {
        Some(Mode::NaturalMinor)
    } else if t == "harmonic minor"@ {
        Some(Mode::HarmonicMinor)
    } else if t == "melodic minor"@ {
        Some(Mode::MelodicMinor)
    } else if t == "dorian"@ {
        Some(Mode::Dorian)
    } else if t == "phrygian"@ {
        Some(Mode::Phrygian)
    } else if t == "lydian"@ {
        Some(Mode::Lydian)
    } else if t == "mixolydian"@ {
        Some(Mode::Mixolydian)
    } else if t == "locrian"@ {
        Some(Mode::Locrian)
    } else if t == "whole tone"@ {
        Some(Mode::WholeTone)
    } else if t == "diminished"@ {
        Some(Mode::Diminished)
    } else if t == "pentatonic"@ {
        Some(Mode::Pentatonic)
    } else if t == "blues"@ {
        Some(Mode::BluesPentatonic)
    } else {
        None
    }
}

/// The identifier of a mode.
pub open spec fn mode_identifier(m: Mode) -> Seq<char> {
    match m {
        Mode::Major => "Major"@,
        Mode::NaturalMinor => "NaturalMinor"@,
        Mode::HarmonicMinor => "HarmonicMinor"@,
        Mode::MelodicMinor => "MelodicMinor"@,
        Mode::Dorian => "Dorian"@,
        Mode::Phrygian => "Phrygian"@,
        Mode::Lydian => "Lydian"@,
        Mode::Mixolydian => "Mixolydian"@,
        Mode::Locrian => "Locrian"@,
        Mode::WholeTone => "WholeTone"@,
        Mode::Diminished => "Diminished"@,
        Mode::Pentatonic => "Pentatonic"@,
        Mode::BluesPentatonic => "BluesPentatonic"@,
    }
}

impl Mode {
    /// The degrees, in semitones above the root.
    pub fn intervals(&self) -> (r: Vec<u8>)
        ensures
            r@ == mode_steps(*self),
    {
        match self {
            Mode::Major => vec![0, 2, 4, 5, 7, 9, 11],
            Mode::NaturalMinor => vec![0, 2, 3, 5, 7, 8, 10],
            Mode::HarmonicMinor => vec![0, 2, 3, 5, 7, 8, 11],
            Mode::MelodicMinor => vec![0, 2, 3, 5, 7, 9, 11],
            Mode::Dorian => vec![0, 2, 3, 5, 7, 9, 10],
            Mode::Phrygian => vec![0, 1, 3, 5, 7, 8, 10],
            Mode::Lydian => vec![0, 2, 4, 6, 7, 9, 11],
            Mode::Mixolydian => vec![0, 2, 4, 5, 7, 9, 10],
            Mode::Locrian => vec![0, 1, 3, 5, 6, 8, 10],
            Mode::WholeTone => vec![0, 2, 4, 6, 8, 10],
            Mode::Diminished => vec![0, 2, 3, 5, 6, 8, 9, 11],
            Mode::Pentatonic => vec![0, 2, 4, 7, 9],
            Mode::BluesPentatonic => vec![0, 3, 5, 6, 7, 10],
        }
    }

    /// The identifier, such as `NaturalMinor`.
    pub fn identifier(&self) -> (r: &'static str)
        ensures
            r@ == mode_identifier(*self),
    {
        match self {
            Mode::Major => "Major",
            Mode::NaturalMinor => "NaturalMinor",
            Mode::HarmonicMinor => "HarmonicMinor",
            Mode::MelodicMinor => "MelodicMinor",
            Mode::Dorian => "Dorian",
            Mode::Phrygian => "Phrygian",
            Mode::Lydian => "Lydian",
            Mode::Mixolydian => "Mixolydian",
            Mode::Locrian => "Locrian",
            Mode::WholeTone => "WholeTone",
            Mode::Diminished => "Diminished",
            Mode::Pentatonic => "Pentatonic",
            Mode::BluesPentatonic => "BluesPentatonic",
        }
    }

    /// Reads a name that is in lower case; white space around it is ignored.
    pub fn from_lowercase(low: &str) -> (r: Option<Self>)
        ensures
            r == named_mode(trimmed(low@)),
    {
        let owned = string_of(&trim(&chars_of(low)));
        let t = owned.as_str();
        if str_eq(t, "major") || str_eq(t, "ionian") {
            Some(Mode::Major)
        } else if str_eq(t, "natural minor") || str_eq(t, "aeolian") || str_eq(t, "minor") {
            Some(Mode::NaturalMinor)
        } else if str_eq(t, "harmonic minor") {
            Some(Mode::HarmonicMinor)
        } else if str_eq(t, "melodic minor") {
            Some(Mode::MelodicMinor)
        } else if str_eq(t, "dorian") {
            Some(Mode::Dorian)
        } else if str_eq(t, "phrygian") {
            Some(Mode::Phrygian)
        } else if str_eq(t, "lydian") {
            Some(Mode::Lydian)
        } else if str_eq(t, "mixolydian") {
            Some(Mode::Mixolydian)
        } else if str_eq(t, "locrian") {
            Some(Mode::Locrian)
        } else if str_eq(t, "whole tone") {
            Some(Mode::WholeTone)
        } else if str_eq(t, "diminished") {
            Some(Mode::Diminished)
        } else if str_eq(t, "pentatonic") {
            Some(Mode::Pentatonic)
        } else if str_eq(t, "blues") {
            Some(Mode::BluesPentatonic)
        } else {
            None
        }
    }

    /// Reads a name; case and white space around it are ignored.
    pub fn parse(s: &str) -> (r: Option<Self>)
        ensures
            r == named_mode(trimmed(lowered(s@))),
    {
        let low = to_lowercase(s);
        Self::from_lowercase(low.as_str())
    }
}

#[derive(Debug, Clone, Copy, PartialEq, Eq, Structural)]
pub struct Scale {
    pub root: PitchClass,
    pub mode: Mode,
}

/// The pitch classes of a scale, root first.
pub open spec fn scale_classes(s: Scale) -> Seq<PitchClass> {
    mode_steps(s.mode).map_values(|i: u8| PitchClass(((s.root.0 + i) % 12) as u8))
}

/// Whether every degree's number fits in a byte. Every root below 245 does so.
pub open spec fn scale_fits(s: Scale) -> bool {
    s.root.0 + mode_steps(s.mode).last() <= 255
}

/// The position of the first `x` in `s` from `from` on.
pub open spec fn class_position(s: Seq<PitchClass>, x: PitchClass, from: int) -> Option<int>
    decreases s.len() - from,
{
    if from >= s.len() {
        None
    } else if s[from] == x {
        Some(from)
    } else {
        class_position(s, x, from + 1)
    }
}

/// The number of a scale's degree, counted from one.
pub open spec fn degree_in(s: Scale, pc: PitchClass) -> Option<u8> {
    match class_position(scale_classes(s), pc, 0) {
        Some(i) => Some((i + 1) as u8),
        None => None,
    }
}

/// The scale that a root's name and a mode's name give.
pub open spec fn parsed_scale(root: Seq<char>, mode: Seq<char>) -> Option<Scale> {
    match (parsed_class(root), named_mode(trimmed(lowered(mode)))) {
        (Some(root), Some(mode)) => Some(Scale { root, mode }),
        _ => None,
    }
}

proof fn lemma_mode_steps(m: Mode)
    ensures
        5 <= mode_steps(m).len() <= 8,
        mode_steps(m)[0] == 0,
        mode_steps(m).last() <= 11,
        forall|i: int, j: int|
            0 <= i < j < mode_steps(m).len() ==> (#[trigger] mode_steps(m)[i]) < (
            #[trigger] mode_steps(m)[j]),
{
}

impl Scale {
    pub fn new(root: PitchClass, mode: Mode) -> (r: Self)
        ensures
            r == (Scale { root, mode }),
    {
        Self { root, mode }
    }

    /// The pitch classes, root first.
    pub fn pitch_classes(&self) -> (r: Vec<PitchClass>)
        requires
            scale_fits(*self),
        ensures
            r@ == scale_classes(*self),
    {
        let steps = self.mode.intervals();
        let mut out: Vec<PitchClass> = Vec::new();
        proof {
            lemma_mode_steps(self.mode);
        }
        for i in 0..steps.len()
            invariant
                steps@ == mode_steps(self.mode),
                scale_fits(*self),
                out@ == scale_classes(*self).take(i as int),
                forall|j: int|
                    0 <= j < steps@.len() ==> (#[trigger] steps@[j]) <= steps@.last(),
        {
            out.push(PitchClass((self.root.0 + steps[i]) % 12));
            assert(out@ == scale_classes(*self).take(i + 1));
        }
        out
    }

    pub fn contains(&self, pc: PitchClass) -> (r: bool)
        requires
            scale_fits(*self),
        ensures
            r == scale_classes(*self).contains(pc),
    {
        let classes = self.pitch_classes();
        for i in 0..classes.len()
            invariant
                classes@ == scale_classes(*self),
                forall|j: int| 0 <= j < i ==> classes@[j] != pc,
        {
            if classes[i] == pc {
                assert(classes@[i as int] == pc);
                return true;
            }
        }
        false
    }

    /// The number of the degree, counted from one.
    pub fn degree_of(&self, pc: PitchClass) -> (r: Option<u8>)
        requires
            scale_fits(*self),
        ensures
            r == degree_in(*self, pc),
    {
        let classes = self.pitch_classes();
        proof {
            lemma_mode_steps(self.mode);
        }
        for i in 0..classes.len()
            invariant
                classes@ == scale_classes(*self),
                classes@.len() <= 8,
                class_position(classes@, pc, 0) == class_position(classes@, pc, i as int),
        {
            if classes[i] == pc {
                return Some(i as u8 + 1);
            }
        }
        None
    }

    /// Reads a root such as `F#` and a mode such as `Dorian`.
    pub fn parse(root_str: &str, mode_str: &str) -> (r: Option<Self>)
        ensures
            r == parsed_scale(root_str@, mode_str@),
            r is Some ==> scale_fits(r->Some_0),
    {
        match (PitchClass::parse(root_str), Mode::parse(mode_str)) {
            (Some(root), Some(mode)) => {
                proof {
                    lemma_mode_steps(mode);
                    crate::theory::pitch::parsed_class_in_range(root_str@);
                }
                Some(Self::new(root, mode))
            },
            _ => None,
        }
    }
}

/// A mode's name is read alike in every ASCII case.
pub proof fn mode_case_is_ignored(a: Seq<char>, b: Seq<char>)
    requires
        is_ascii_chars(a),
        is_ascii_chars(b),
        same_ignoring_ascii_case(a, b),
    ensures
        named_mode(trimmed(lowered(a))) == named_mode(trimmed(lowered(b))),
{
}

/// White space in front of a mode's name is ignored.
pub proof fn mode_leading_space_is_ignored(c: char, s: Seq<char>)
    requires
        is_white_space(c),
        is_ascii_chars(seq![c] + s),
    ensures
        named_mode(trimmed(lowered(seq![c] + s))) == named_mode(trimmed(lowered(s))),
{
    let t = seq![c] + s;
    assert(is_ascii_chars(s)) by {
        assert forall|i: int| 0 <= i < s.len() implies '\0' <= #[trigger] s[i] <= '\u{7f}' by {
            assert(t[i + 1] == s[i]);
        }
    }
    assert(ascii_lowered(t)[0] == c);
    assert(ascii_lowered(t).drop_first() == ascii_lowered(s));
}

/// Identifiers of modes are short and in ASCII.
pub proof fn mode_identifiers_are_ascii(m: Mode)
    ensures
        mode_identifier(m).len() <= 15,
        is_ascii_chars(mode_identifier(m)),
{
    reveal_strlit("Major");
    reveal_strlit("NaturalMinor");
    reveal_strlit("HarmonicMinor");
    reveal_strlit("MelodicMinor");
    reveal_strlit("Dorian");
    reveal_strlit("Phrygian");
    reveal_strlit("Lydian");
    reveal_strlit("Mixolydian");
    reveal_strlit("Locrian");
    reveal_strlit("WholeTone");
    reveal_strlit("Diminished");
    reveal_strlit("Pentatonic");
    reveal_strlit("BluesPentatonic");
}

proof fn lemma_class_position(s: Seq<PitchClass>, x: PitchClass, from: int)
    requires
        0 <= from,
    ensures
        match class_position(s, x, from) {
            Some(i) => from <= i < s.len() && s[i] == x,
            None => forall|j: int| from <= j < s.len() ==> s[j] != x,
        },
    decreases s.len() - from,
{
    if from < s.len() && s[from] != x {
        lemma_class_position(s, x, from + 1);
    }
}

/// A scale has a degree for exactly the pitch classes that it contains, and the
/// degree's number leads back to the class.
pub proof fn degree_iff_contained(s: Scale, pc: PitchClass)
    ensures
        degree_in(s, pc) is Some <==> scale_classes(s).contains(pc),
        degree_in(s, pc) matches Some(d) ==> 1 <= d <= scale_classes(s).len()
            && scale_classes(s)[d - 1] == pc,
{
    lemma_mode_steps(s.mode);
    lemma_class_position(scale_classes(s), pc, 0);
    if scale_classes(s).contains(pc) {
        let j = choose|j: int| 0 <= j < scale_classes(s).len() && scale_classes(s)[j] == pc;
        assert(scale_classes(s)[j] == pc);
    }
}

/// A scale contains its root, as degree one.
pub proof fn root_is_first_degree(s: Scale)
    requires
        s.root.0 < 12,
    ensures
        degree_in(s, s.root) == Some(1u8),
{
    lemma_mode_steps(s.mode);
    assert(scale_classes(s)[0] == s.root);
}

/// No pitch class occurs twice in a scale.
pub proof fn scale_classes_differ(s: Scale, i: int, j: int)
    requires
        0 <= i < j < scale_classes(s).len(),
    ensures
        scale_classes(s)[i] != scale_classes(s)[j],
{
    lemma_mode_steps(s.mode);
    let a = mode_steps(s.mode)[i];
    let b = mode_steps(s.mode)[j];
    assert(a < b <= 11);
}

/// The steps of a mode's degrees from the `k`th on, counted from that one.
pub open spec fn turned_to(steps: Seq<u8>, k: int) -> Seq<u8> {
    Seq::new(
        steps.len(),
        |i: int|
            if i + k < steps.len() {
                (steps[i + k] - steps[k]) as u8
            } else {
                (steps[i + k - steps.len()] + 12 - steps[k]) as u8
            },
    )
}

/// A mode's degrees begin with the root and ascend within the octave.
pub proof fn modes_ascend_within_the_octave(m: Mode)
    ensures
        mode_steps(m).len() > 0,
        mode_steps(m)[0] == 0,
        forall|i: int, j: int|
            0 <= i < j < mode_steps(m).len() ==> (#[trigger] mode_steps(m)[i]) < (
            #[trigger] mode_steps(m)[j]),
        forall|i: int| 0 <= i < mode_steps(m).len() ==> (#[trigger] mode_steps(m)[i]) < 12,
{
}

/// The major scale is a row of fifths: the one below the root, the root, and five above
/// it.
pub proof fn major_is_a_row_of_fifths(k: int)
    requires
        -1 <= k <= 5,
    ensures
        mode_steps(Mode::Major).len() == 7,
        mode_steps(Mode::Major).contains((7 * k % 12) as u8),
{
    let s = mode_steps(Mode::Major);
    assert(s[0] == 0 && s[1] == 2 && s[2] == 4 && s[3] == 5 && s[4] == 7 && s[5] == 9 && s[6]
        == 11);
    let x = (7 * k % 12) as u8;
    assert(x == 5 || x == 0 || x == 7 || x == 2 || x == 9 || x == 4 || x == 11);
}

/// The church modes are the major scale, begun on its second degree, its third and so on
/// to its seventh.
pub proof fn church_modes_are_turned_major()
    ensures
        mode_steps(Mode::Dorian) == turned_to(mode_steps(Mode::Major), 1),
        mode_steps(Mode::Phrygian) == turned_to(mode_steps(Mode::Major), 2),
        mode_steps(Mode::Lydian) == turned_to(mode_steps(Mode::Major), 3),
        mode_steps(Mode::Mixolydian) == turned_to(mode_steps(Mode::Major), 4),
        mode_steps(Mode::NaturalMinor) == turned_to(mode_steps(Mode::Major), 5),
        mode_steps(Mode::Locrian) == turned_to(mode_steps(Mode::Major), 6),
{
}

/// The harmonic minor scale is the natural one with its seventh degree raised, and the
/// melodic one has its sixth raised too.
pub proof fn minor_scales_raise_degrees()
    ensures
        mode_steps(Mode::HarmonicMinor) == mode_steps(Mode::NaturalMinor).update(
            6,
            (mode_steps(Mode::NaturalMinor)[6] + 1) as u8,
        ),
        mode_steps(Mode::MelodicMinor) == mode_steps(Mode::HarmonicMinor).update(
            5,
            (mode_steps(Mode::HarmonicMinor)[5] + 1) as u8,
        ),
{
}

/// The whole-tone scale has a degree on every second semitone, and the diminished one
/// goes on by a whole tone and a semitone in turn.
pub proof fn symmetric_scales_repeat(i: int)
    ensures
        mode_steps(Mode::WholeTone).len() == 6,
        0 <= i < 6 ==> mode_steps(Mode::WholeTone)[i] == 2 * i,
        mode_steps(Mode::Diminished).len() == 8,
        mode_steps(Mode::Diminished)[1] == 2,
        0 <= i < 6 ==> mode_steps(Mode::Diminished)[i + 2] == mode_steps(Mode::Diminished)[i] + 3,
{
}

/// The pentatonic scale is the root and four fifths above it. The blues scale is the
/// minor pentatonic, which lies a minor third above it, and the tritone.
pub proof fn pentatonic_is_a_row_of_fifths(k: int)
    requires
        0 <= k < 5,
    ensures
        mode_steps(Mode::Pentatonic).len() == 5,
        mode_steps(Mode::Pentatonic).contains((7 * k % 12) as u8),
        mode_steps(Mode::BluesPentatonic).len() == 6,
        mode_steps(Mode::BluesPentatonic).contains(6),
        mode_steps(Mode::BluesPentatonic).contains(
            ((mode_steps(Mode::Pentatonic)[k] + 3) % 12) as u8,
        ),
{
    let s = mode_steps(Mode::Pentatonic);
    let b = mode_steps(Mode::BluesPentatonic);
    assert(s[0] == 0 && s[1] == 2 && s[2] == 4 && s[3] == 7 && s[4] == 9);
    assert(b[0] == 0 && b[1] == 3 && b[2] == 5 && b[3] == 6 && b[4] == 7 && b[5] == 10);
    let x = (7 * k % 12) as u8;
    assert(x == 0 || x == 7 || x == 2 || x == 9 || x == 4);
}

proof fn lemma_step_between(root: int, step: int, class: int)
    requires
        0 <= step < 12,
        0 <= class < 12,
    ensures
        (root + step) % 12 == class <==> step == (class - root) % 12,
{
}

/// Whether some steps are below twelve.
spec fn are_steps(steps: Seq<u8>) -> bool {
    forall|i: int| 0 <= i < steps.len() ==> (#[trigger] steps[i]) < 12
}

proof fn lemma_classes(steps: Seq<u8>, root: u8, pc: PitchClass)
    requires
        are_steps(steps),
        pc.0 < 12,
    ensures
        steps.map_values(|i: u8| PitchClass(((root + i) % 12) as u8)).contains(pc)
            <==> steps.contains(((pc.0 - root) % 12) as u8),
{
    let classes = steps.map_values(|i: u8| PitchClass(((root + i) % 12) as u8));
    let x = ((pc.0 - root) % 12) as u8;
    if classes.contains(pc) {
        let i = choose|i: int| 0 <= i < classes.len() && classes[i] == pc;
        lemma_step_between(root as int, steps[i] as int, pc.0 as int);
        assert(steps[i] == x);
    }
    if steps.contains(x) {
        let i = choose|i: int| 0 <= i < steps.len() && steps[i] == x;
        lemma_step_between(root as int, steps[i] as int, pc.0 as int);
        assert(classes[i] == pc);
    }
}

/// A scale holds a pitch class exactly where the class lies one of its mode's steps
/// above the root, so that the same mode on another root is the same scale moved there.
pub proof fn scale_is_its_mode_on_its_root(s: Scale, pc: PitchClass)
    requires
        pc.0 < 12,
    ensures
        scale_classes(s).contains(pc) <==> mode_steps(s.mode).contains(
            ((pc.0 - s.root.0) % 12) as u8,
        ),
        scale_classes(s).len() == mode_steps(s.mode).len(),
        degree_in(s, pc) matches Some(d) ==> 1 <= d <= mode_steps(s.mode).len() && (s.root.0
            + mode_steps(s.mode)[d - 1]) % 12 == pc.0,
        degree_in(s, pc) is Some <==> scale_classes(s).contains(pc),
{
    degree_iff_contained(s, pc);
    assert(are_steps(mode_steps(s.mode))) by {
        modes_ascend_within_the_octave(s.mode);
    }
    lemma_classes(mode_steps(s.mode), s.root.0, pc);
}

/// Whether a name is one of the second names that modes have.
pub open spec fn is_second_name(t: Seq<char>) -> bool {
    t == "ionian"@ || t == "aeolian"@ || t == "minor"@ || t == "blues"@
}

/// Whether a text comes out of another by putting a space somewhere into it, or none.
pub open spec fn is_spaced(t: Seq<char>, word: Seq<char>) -> bool {
    t == word || exists|i: int|
        0 < i < word.len() && t == #[trigger] word.take(i) + " "@ + word.skip(i)
}

/// A mode is read from the words of its identifier in lower case, and from nothing else
/// but the second names that a few modes have.
pub proof fn modes_are_read_from_their_identifiers(t: Seq<char>)
    ensures
        named_mode(t) matches Some(m) ==> is_second_name(t) || is_spaced(
            t,
            ascii_lowered(mode_identifier(m)),
        ),
        named_mode("ionian"@) == named_mode("major"@),
        named_mode("aeolian"@) == named_mode("natural minor"@),
        named_mode("minor"@) == named_mode("natural minor"@),
        named_mode("blues"@) == Some(Mode::BluesPentatonic),
{
    mode_words();
    reveal_strlit("ionian");
    reveal_strlit("aeolian");
    reveal_strlit("minor");
    reveal_strlit("blues");
    reveal_strlit("major");
    reveal_strlit("natural minor");
    reveal_strlit("harmonic minor");
    reveal_strlit("melodic minor");
    reveal_strlit("whole tone");
    reveal_strlit("dorian");
    reveal_strlit("phrygian");
    reveal_strlit("lydian");
    reveal_strlit("mixolydian");
    reveal_strlit("locrian");
    reveal_strlit("diminished");
    reveal_strlit("pentatonic");
    assert("ionian"@.len() != "major"@.len() && "ionian"@[0] != "dorian"@[0]);
    assert("minor"@[1] != "major"@[1]);
    assert("blues"@[0] != "major"@[0] && "blues"@[0] != "minor"@[0]);
    assert("aeolian"@[0] != "natural minor"@[0]);
}

proof fn mode_words()
    ensures
        is_spaced("major"@, ascii_lowered(mode_identifier(Mode::Major))),
        is_spaced("natural minor"@, ascii_lowered(mode_identifier(Mode::NaturalMinor))),
        is_spaced("harmonic minor"@, ascii_lowered(mode_identifier(Mode::HarmonicMinor))),
        is_spaced("melodic minor"@, ascii_lowered(mode_identifier(Mode::MelodicMinor))),
        is_spaced("dorian"@, ascii_lowered(mode_identifier(Mode::Dorian))),
        is_spaced("phrygian"@, ascii_lowered(mode_identifier(Mode::Phrygian))),
        is_spaced("lydian"@, ascii_lowered(mode_identifier(Mode::Lydian))),
        is_spaced("mixolydian"@, ascii_lowered(mode_identifier(Mode::Mixolydian))),
        is_spaced("locrian"@, ascii_lowered(mode_identifier(Mode::Locrian))),
        is_spaced("whole tone"@, ascii_lowered(mode_identifier(Mode::WholeTone))),
        is_spaced("diminished"@, ascii_lowered(mode_identifier(Mode::Diminished))),
        is_spaced("pentatonic"@, ascii_lowered(mode_identifier(Mode::Pentatonic))),
{
    reveal_strlit(" ");
    reveal_strlit("Major");
    reveal_strlit("NaturalMinor");
    reveal_strlit("HarmonicMinor");
    reveal_strlit("MelodicMinor");
    reveal_strlit("Dorian");
    reveal_strlit("Phrygian");
    reveal_strlit("Lydian");
    reveal_strlit("Mixolydian");
    reveal_strlit("Locrian");
    reveal_strlit("WholeTone");
    reveal_strlit("Diminished");
    reveal_strlit("Pentatonic");
    reveal_strlit("major");
    reveal_strlit("natural minor");
    reveal_strlit("harmonic minor");
    reveal_strlit("melodic minor");
    reveal_strlit("whole tone");
    reveal_strlit("dorian");
    reveal_strlit("phrygian");
    reveal_strlit("lydian");
    reveal_strlit("mixolydian");
    reveal_strlit("locrian");
    reveal_strlit("diminished");
    reveal_strlit("pentatonic");
    let n = ascii_lowered("NaturalMinor"@);
    assert("natural minor"@ == n.take(7) + " "@ + n.skip(7));
    let h = ascii_lowered("HarmonicMinor"@);
    assert("harmonic minor"@ == h.take(8) + " "@ + h.skip(8));
    let m = ascii_lowered("MelodicMinor"@);
    assert("melodic minor"@ == m.take(7) + " "@ + m.skip(7));
    let w = ascii_lowered("WholeTone"@);
    assert("whole tone"@ == w.take(5) + " "@ + w.skip(5));
    assert("major"@ == ascii_lowered("Major"@));
    assert("dorian"@ == ascii_lowered("Dorian"@));
    assert("phrygian"@ == ascii_lowered("Phrygian"@));
    assert("lydian"@ == ascii_lowered("Lydian"@));
    assert("mixolydian"@ == ascii_lowered("Mixolydian"@));
    assert("locrian"@ == ascii_lowered("Locrian"@));
    assert("diminished"@ == ascii_lowered("Diminished"@));
    assert("pentatonic"@ == ascii_lowered("Pentatonic"@));
}

/// The name that musicians have for a mode.
pub open spec fn common_name(m: Mode) -> Seq<char> {
    match m {
        Mode::Major => "major"@,
        Mode::NaturalMinor => "minor"@,
        Mode::HarmonicMinor => "harmonic minor"@,
        Mode::MelodicMinor => "melodic minor"@,
        Mode::Dorian => "dorian"@,
        Mode::Phrygian => "phrygian"@,
        Mode::Lydian => "lydian"@,
        Mode::Mixolydian => "mixolydian"@,
        Mode::Locrian => "locrian"@,
        Mode::WholeTone => "whole tone"@,
        Mode::Diminished => "diminished"@,
        Mode::Pentatonic => "pentatonic"@,
        Mode::BluesPentatonic => "blues"@,
    }
}

/// Every mode is read from the name that musicians have for it.
pub proof fn every_mode_has_a_name(m: Mode)
    ensures
        named_mode(common_name(m)) == Some(m),
{
    mode_words();
    reveal_strlit("ionian");
    reveal_strlit("aeolian");
    reveal_strlit("minor");
    reveal_strlit("blues");
    reveal_strlit("major");
    reveal_strlit("natural minor");
    reveal_strlit("harmonic minor");
    reveal_strlit("melodic minor");
    reveal_strlit("whole tone");
    reveal_strlit("dorian");
    reveal_strlit("phrygian");
    reveal_strlit("lydian");
    reveal_strlit("mixolydian");
    reveal_strlit("locrian");
    reveal_strlit("diminished");
    reveal_strlit("pentatonic");
    let t = common_name(m);
    assert(t.len() > 4 && t[0] != ' ' && t[1] != ' ');
    assert("minor"@[1] != "major"@[1]);
    assert("blues"@[0] != "major"@[0] && "blues"@[0] != "minor"@[0]);
    assert("dorian"@[0] != "ionian"@[0] && "lydian"@[0] != "ionian"@[0] && "lydian"@[0]
        != "dorian"@[0]);
    assert("locrian"@[0] != "aeolian"@[0]);
    assert("harmonic minor"@.len() == 14 && "melodic minor"@[0] != "natural minor"@[0]);
    assert("whole tone"@[0] != "mixolydian"@[0] && "whole tone"@[0] != "diminished"@[0]);
    assert("mixolydian"@[0] != "diminished"@[0] && "pentatonic"@[0] != "diminished"@[0]
        && "pentatonic"@[0] != "mixolydian"@[0] && "pentatonic"@[0] != "whole tone"@[0]);
    assert(named_mode(t) == Some(m));
}

/// Every scale on one of the twelve pitch classes can be spelt out.
pub proof fn scales_on_classes_fit(s: Scale)
    requires
        s.root.0 < 12,
    ensures
        scale_fits(s),
{
}

/// A scale is read from its root and its mode, where both can be read.
pub proof fn scale_is_root_and_mode(root: Seq<char>, mode: Seq<char>)
    ensures
        parsed_scale(root, mode) is Some <==> parsed_class(root) is Some && named_mode(
            trimmed(lowered(mode)),
        ) is Some,
        parsed_scale(root, mode) matches Some(s) ==> parsed_class(root) == Some(s.root)
            && named_mode(trimmed(lowered(mode))) == Some(s.mode),
{
}

} // verus!
