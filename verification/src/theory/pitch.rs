//! Pitches and pitch classes.
use crate::text::{
    ascii_lower, ascii_lowered, chars_of, eq_ignore_ascii_case, push_signed,
    same_ignoring_ascii_case, signed_decimal, str_eq,
};
use crate::theory::interval::Interval;
use vstd::prelude::*;
use vstd::string::*;

verus! {

/// A MIDI pitch number. Middle C is 60.
#[derive(Debug, Clone, Copy, PartialEq, Eq, PartialOrd, Ord, Structural)]
pub struct Pitch(pub u8);

/// A pitch class: 0 is C, 1 is C sharp, 11 is B.
#[derive(Debug, Clone, Copy, PartialEq, Eq, Structural)]
pub struct PitchClass(pub u8);

/// The name of the pitch class `n`, which is below 12.
pub open spec fn class_name(n: int) -> Seq<char> {
    if n == 0 {
        "C"@
    } else if n == 1 {
        "C#"@
    } else if n == 2 {
        "D"@
    } else if n == 3 {
        "D#"@
    } else if n == 4 {
        "E"@
    } else if n == 5 {
        "F"@
    } else if n == 6 {
        "F#"@
    } else if n == 7 {
        "G"@
    } else if n == 8 {
        "G#"@
    } else if n == 9 {
        "A"@
    } else if n == 10 {
        "A#"@
    } else {
        "B"@
    }
}

/// The first pitch class from `n` up whose name is `s`, ASCII case ignored.
pub open spec fn named_class(s: Seq<char>, n: int) -> Option<u8>
    decreases 12 - n,
{
    if n >= 12 {
        None
    } else if same_ignoring_ascii_case(class_name(n), s) {
        Some(n as u8)
    } else {
        named_class(s, n + 1)
    }
}

/// The pitch class of a flat's name.
pub open spec fn flat_class(s: Seq<char>) -> Option<u8> {
    if s == "Db"@ || s == "db"@ {
        Some(1u8)
    } else if s == "Eb"@ || s == "eb"@ {
        Some(3u8)
    } else if s == "Gb"@ || s == "gb"@ {
        Some(6u8)
    } else if s == "Ab"@ || s == "ab"@ {
        Some(8u8)
    } else if s == "Bb"@ || s == "bb"@ {
        Some(10u8)
    } else {
        None
    }
}

/// The pitch class that a text names.
pub open spec fn parsed_class(s: Seq<char>) -> Option<PitchClass> {
    match named_class(s, 0) {
        Some(n) => Some(PitchClass(n)),
        None => match flat_class(s) {
            Some(n) => Some(PitchClass(n)),
            None => None,
        },
    }
}

/// A byte read as a signed number in two's complement.
pub open spec fn signed_byte(x: u8) -> int {
    if x < 128 {
        x as int
    } else {
        x as int - 256
    }
}

/// The octave number of a pitch byte: whole octaves, rounded towards zero, less one.
pub open spec fn octave_of(x: u8) -> int {
    let s = signed_byte(x);
    if s >= 0 {
        s / 12 - 1
    } else {
        -((-s) / 12) - 1
    }
}

/// A pitch number as a pitch, where it is one.
pub open spec fn pitch_at(n: int) -> Option<Pitch> {
    if 0 <= n <= 127 {
        Some(Pitch(n as u8))
    } else {
        None
    }
}

/// The name of a pitch class below 12.
pub fn class_name_str(n: u8) -> (r: &'static str)
    requires
        n < 12,
    ensures
        r@ == class_name(n as int),
{
    match n {
        0 => "C",
        1 => "C#",
        2 => "D",
        3 => "D#",
        4 => "E",
        5 => "F",
        6 => "F#",
        7 => "G",
        8 => "G#",
        9 => "A",
        10 => "A#",
        _ => "B",
    }
}

/// Reads a byte as a signed number.
fn to_signed(x: u8) -> (r: i16)
    ensures
        r as int == signed_byte(x),
{
    if x < 128 {
        x as i16
    } else {
        x as i16 - 256
    }
}

impl Pitch {
    /// The pitch with this number, which is at most 127.
    pub fn new(midi: u8) -> (r: Option<Self>)
        ensures
            r == pitch_at(midi as int),
    {
        if midi <= 127 {
            Some(Self(midi))
        } else {
            None
        }
    }

    pub fn midi(&self) -> (r: u8)
        ensures
            r == self.0,
    {
        self.0
    }

    pub fn pc(&self) -> (r: PitchClass)
        ensures
            r == PitchClass((self.0 % 12) as u8),
    {
        PitchClass(self.0 % 12)
    }

    /// The octave, in which middle C opens octave 4.
    pub fn octave(&self) -> (r: i8)
        ensures
            r as int == octave_of(self.0),
            self.0 <= 127 ==> r as int == self.0 / 12 - 1,
    {
        let s: i16 = to_signed(self.0);
        if s >= 0 {
            ((s as u8) / 12) as i8 - 1
        } else {
            -((((-s) as u8) / 12) as i8) - 1
        }
    }

    pub fn name(&self) -> (r: &'static str)
        ensures
            r@ == class_name(self.0 as int % 12),
    {
        class_name_str(self.0 % 12)
    }

    /// The name with the octave, such as `D4` or `F#3`.
    pub fn label(&self) -> (r: String)
        ensures
            r@ == class_name(self.0 as int % 12) + signed_decimal(octave_of(self.0)),
    {
        let mut s = self.name().to_owned();
        push_signed(&mut s, self.octave() as i64);
        s
    }

    /// The interval from this pitch up to `other`.
    pub fn interval_to(&self, other: Pitch) -> (r: Interval)
        requires
            -128 <= signed_byte(other.0) - signed_byte(self.0) <= 127,
        ensures
            r.0 as int == signed_byte(other.0) - signed_byte(self.0),
    {
        Interval((to_signed(other.0) - to_signed(self.0)) as i8)
    }

    /// The pitch at `interval` from this one, where there is one.
    pub fn transpose(&self, interval: Interval) -> (r: Option<Pitch>)
        ensures
            r == pitch_at(self.0 + interval.0),
    {
        let n: i16 = self.0 as i16 + interval.0 as i16;
        if 0 <= n && n <= 127 {
            Some(Pitch(n as u8))
        } else {
            None
        }
    }
}

impl PitchClass {
    pub fn name(&self) -> (r: &'static str)
        ensures
            r@ == class_name(self.0 as int % 12),
    {
        class_name_str(self.0 % 12)
    }

    /// Reads a name such as `D`, `f#` or `Bb`.
    pub fn parse(s: &str) -> (r: Option<Self>)
        ensures
            r == parsed_class(s@),
    {
        let chars = chars_of(s);
        let mut n: u8 = 0;
        while n < 12
            invariant
                n <= 12,
                chars@ == s@,
                named_class(s@, 0) == named_class(s@, n as int),
            decreases 12 - n,
        {
            let name = chars_of(class_name_str(n));
            if eq_ignore_ascii_case(&name, &chars) {
                return Some(PitchClass(n));
            }
            n = n + 1;
        }
        if str_eq(s, "Db") || str_eq(s, "db") {
            Some(PitchClass(1))
        } else if str_eq(s, "Eb") || str_eq(s, "eb") {
            Some(PitchClass(3))
        } else if str_eq(s, "Gb") || str_eq(s, "gb") {
            Some(PitchClass(6))
        } else if str_eq(s, "Ab") || str_eq(s, "ab") {
            Some(PitchClass(8))
        } else if str_eq(s, "Bb") || str_eq(s, "bb") {
            Some(PitchClass(10))
        } else {
            None
        }
    }

    /// The pitch of this class in an octave, where there is one.
    pub fn in_octave(&self, octave: i8) -> (r: Option<Pitch>)
        ensures
            r == pitch_at((octave + 1) * 12 + self.0),
    {
        let n: i16 = (octave as i16 + 1) * 12 + self.0 as i16;
        if 0 <= n && n <= 127 {
            Some(Pitch(n as u8))
        } else {
            None
        }
    }
}

/// Transposing by an interval and then by its opposite gives the pitch back.
pub proof fn transpose_is_undone(p: Pitch, i: Interval)
    requires
        p.0 <= 127,
        i.0 > i8::MIN,
        pitch_at(p.0 + i.0) is Some,
    ensures
        pitch_at(pitch_at(p.0 + i.0)->Some_0.0 + Interval((-i.0) as i8).0) == Some(p),
{
}

/// The interval from one pitch to another leads there by transposition.
pub proof fn interval_leads_to_pitch(p: Pitch, q: Pitch)
    requires
        p.0 <= 127,
        q.0 <= 127,
    ensures
        pitch_at(p.0 + (signed_byte(q.0) - signed_byte(p.0))) == Some(q),
{
}

/// A pitch lies in its own octave, at its own class.
pub proof fn class_in_own_octave(p: Pitch)
    requires
        p.0 <= 127,
    ensures
        pitch_at((octave_of(p.0) + 1) * 12 + p.0 as int % 12) == Some(p),
{
}

proof fn lemma_names_differ(m: int, n: int)
    requires
        0 <= m < 12,
        0 <= n < 12,
        m != n,
    ensures
        !same_ignoring_ascii_case(class_name(m), class_name(n)),
{
    lemma_names();
    let a = crate::text::ascii_lowered(class_name(m));
    let b = crate::text::ascii_lowered(class_name(n));
    if a == b {
        assert(a.len() == b.len());
        assert(a[0] == b[0]);
    }
}

proof fn lemma_names()
    ensures
        class_name(0) == seq!['C'],
        class_name(1) == seq!['C', '#'],
        class_name(2) == seq!['D'],
        class_name(3) == seq!['D', '#'],
        class_name(4) == seq!['E'],
        class_name(5) == seq!['F'],
        class_name(6) == seq!['F', '#'],
        class_name(7) == seq!['G'],
        class_name(8) == seq!['G', '#'],
        class_name(9) == seq!['A'],
        class_name(10) == seq!['A', '#'],
        class_name(11) == seq!['B'],
{
    reveal_strlit("C");
    reveal_strlit("C#");
    reveal_strlit("D");
    reveal_strlit("D#");
    reveal_strlit("E");
    reveal_strlit("F");
    reveal_strlit("F#");
    reveal_strlit("G");
    reveal_strlit("G#");
    reveal_strlit("A");
    reveal_strlit("A#");
    reveal_strlit("B");
}

/// Names of pitch classes are short and in ASCII.
pub proof fn class_names_are_ascii(n: int)
    requires
        0 <= n < 12,
    ensures
        class_name(n).len() <= 2,
        vstd::utf8::is_ascii_chars(class_name(n)),
{
    lemma_names();
}

proof fn lemma_named_from(n: int, from: int)
    requires
        0 <= from <= n < 12,
    ensures
        named_class(class_name(n), from) == Some(n as u8),
    decreases n - from,
{
    if from < n {
        lemma_names_differ(from, n);
        lemma_named_from(n, from + 1);
    }
}

proof fn lemma_named_below(s: Seq<char>, from: int)
    requires
        0 <= from,
    ensures
        named_class(s, from) matches Some(n) ==> n < 12,
    decreases 12 - from,
{
    if from < 12 {
        lemma_named_below(s, from + 1);
    }
}

/// What is read from a name is one of the twelve pitch classes.
pub proof fn parsed_class_in_range(s: Seq<char>)
    ensures
        parsed_class(s) matches Some(pc) ==> pc.0 < 12,
{
    lemma_named_below(s, 0);
}

/// Every pitch class is read back from its own name.
pub proof fn class_name_parses_back(n: int)
    requires
        0 <= n < 12,
    ensures
        parsed_class(class_name(n)) == Some(PitchClass(n as u8)),
{
    lemma_named_from(n, 0);
}

/// How many semitones a letter lies above C, in either case.
pub open spec fn letter_semitone(c: char) -> int {
    match c {
        'C' | 'c' => 0,
        'D' | 'd' => 2,
        'E' | 'e' => 4,
        'F' | 'f' => 5,
        'G' | 'g' => 7,
        'A' | 'a' => 9,
        _ => 11,
    }
}

/// Whether a character is the letter of a note, in either case.
pub open spec fn is_note_letter(c: char) -> bool {
    'A' <= c <= 'G' || 'a' <= c <= 'g'
}

/// How far the sign behind a letter raises it.
pub open spec fn sign_of(s: Seq<char>) -> int {
    if s.len() == 2 && s[1] == '#' {
        1
    } else if s.len() == 2 && s[1] == 'b' {
        -1
    } else {
        0
    }
}

/// Whether a text is a letter, alone or with one sign behind it.
pub open spec fn is_signed_letter(s: Seq<char>) -> bool {
    (s.len() == 1 || (s.len() == 2 && (s[1] == '#' || s[1] == 'b'))) && is_note_letter(s[0])
}

/// The name of a pitch class sounds as that class: the letter and its sign come to the
/// class's number of semitones above C.
pub proof fn class_name_sounds_as_class(n: int)
    requires
        0 <= n < 12,
    ensures
        is_signed_letter(class_name(n)),
        letter_semitone(class_name(n)[0]) + sign_of(class_name(n)) == n,
{
    lemma_names();
}

proof fn lemma_lowered_char(c: char, d: char)
    requires
        ascii_lower(c) == ascii_lower(d),
    ensures
        c == d || (is_ascii_letter(c) && is_ascii_letter(d)),
        is_note_letter(c) ==> is_note_letter(d) && letter_semitone(c) == letter_semitone(d),
{
}

/// Whether a character is a letter of ASCII.
spec fn is_ascii_letter(c: char) -> bool {
    'A' <= c <= 'Z' || 'a' <= c <= 'z'
}

proof fn lemma_named_sounds(s: Seq<char>, from: int)
    requires
        0 <= from,
    ensures
        named_class(s, from) matches Some(n) ==> is_signed_letter(s) && n == letter_semitone(s[0])
            + sign_of(s),
    decreases 12 - from,
{
    if from < 12 {
        if same_ignoring_ascii_case(class_name(from), s) {
            let name = class_name(from);
            class_name_sounds_as_class(from);
            lemma_names();
            let (a, b) = (ascii_lowered(name), ascii_lowered(s));
            assert(a.len() == name.len() && b.len() == s.len());
            assert(a[0] == b[0]);
            lemma_lowered_char(name[0], s[0]);
            if s.len() == 2 {
                assert(a[1] == b[1]);
                assert(name[1] == '#');
                lemma_lowered_char(name[1], s[1]);
            }
        } else {
            lemma_named_sounds(s, from + 1);
        }
    }
}

/// A name is read as the class that it sounds as: its letter, raised or lowered by its
/// sign. Nothing else is read.
pub proof fn parsed_class_sounds_as_name(s: Seq<char>)
    ensures
        parsed_class(s) matches Some(pc) ==> is_signed_letter(s) && pc.0 == (letter_semitone(s[0])
            + sign_of(s)) % 12,
{
    lemma_named_sounds(s, 0);
    parsed_class_in_range(s);
    reveal_strlit("Db");
    reveal_strlit("db");
    reveal_strlit("Eb");
    reveal_strlit("eb");
    reveal_strlit("Gb");
    reveal_strlit("gb");
    reveal_strlit("Ab");
    reveal_strlit("ab");
    reveal_strlit("Bb");
    reveal_strlit("bb");
}

proof fn lemma_named_if(s: Seq<char>, n: int, from: int)
    requires
        0 <= from <= n < 12,
        same_ignoring_ascii_case(class_name(n), s),
    ensures
        named_class(s, from) is Some,
    decreases n - from,
{
    if from < n && !same_ignoring_ascii_case(class_name(from), s) {
        lemma_named_if(s, n, from + 1);
    }
}

/// Every letter is read, in either case; so is every sharp of a letter that has a black
/// key above it, and every flat of a letter that has one below it.
pub proof fn letters_and_signs_are_read(c: char)
    requires
        is_note_letter(c),
    ensures
        parsed_class(seq![c]) is Some,
        letter_semitone(c) != 4 && letter_semitone(c) != 11 ==> parsed_class(
            seq![c, '#'],
        ) is Some,
        letter_semitone(c) != 0 && letter_semitone(c) != 5 ==> parsed_class(seq![c, 'b']) is Some,
{
    lemma_names();
    let n = letter_semitone(c);
    let name = class_name(n);
    assert(ascii_lowered(name) == ascii_lowered(seq![c])) by {
        assert(ascii_lower(name[0]) == ascii_lower(c));
    }
    lemma_named_if(seq![c], n, 0);
    if n != 4 && n != 11 {
        let sharp = class_name(n + 1);
        let s = seq![c, '#'];
        assert(sharp == seq![name[0], '#']);
        assert(ascii_lowered(sharp) == ascii_lowered(s)) by {
            assert(ascii_lower(sharp[0]) == ascii_lower(s[0]));
        }
        lemma_named_if(s, n + 1, 0);
    }
    if n != 0 && n != 5 {
        reveal_strlit("Db");
        reveal_strlit("db");
        reveal_strlit("Eb");
        reveal_strlit("eb");
        reveal_strlit("Gb");
        reveal_strlit("gb");
        reveal_strlit("Ab");
        reveal_strlit("ab");
        reveal_strlit("Bb");
        reveal_strlit("bb");
        let s = seq![c, 'b'];
        assert(flat_class(s) is Some) by {
            assert(c == 'D' ==> s == "Db"@);
            assert(c == 'd' ==> s == "db"@);
            assert(c == 'E' ==> s == "Eb"@);
            assert(c == 'e' ==> s == "eb"@);
            assert(c == 'G' ==> s == "Gb"@);
            assert(c == 'g' ==> s == "gb"@);
            assert(c == 'A' ==> s == "Ab"@);
            assert(c == 'a' ==> s == "ab"@);
            assert(c == 'B' ==> s == "Bb"@);
            assert(c == 'b' ==> s == "bb"@);
        }
    }
}

/// Octaves are counted in twelves from the one that middle C opens, and a pitch lies
/// within its octave.
pub proof fn octave_holds_pitch(p: Pitch)
    requires
        p.0 <= 127,
    ensures
        60 + 12 * (octave_of(p.0) - 4) <= p.0 < 60 + 12 * (octave_of(p.0) - 3),
{
}

/// Transposing a pitch moves it by the interval, where it then still is a pitch.
pub proof fn transposing_adds_the_interval(p: Pitch, i: Interval, r: Option<Pitch>)
    requires
        call_ensures(Pitch::transpose, (&p, i), r),
    ensures
        r matches Some(q) ==> q.0 - p.0 == i.0,
        r is Some <==> 0 <= p.0 + i.0 <= 127,
{
}

/// A byte above 127 counts downwards from zero: its octave is the one whose first pitch is
/// the next at or above it.
pub proof fn octave_below_zero(x: u8)
    requires
        x > 127,
    ensures
        x - 256 <= 12 * (octave_of(x) + 1) < x - 256 + 12,
        signed_byte(x) == x - 256,
{
}

} // verus!
