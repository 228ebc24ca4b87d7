//! Intervals in semitones.
use crate::theory::scale::{mode_steps, Mode};
use vstd::prelude::*;

verus! {

/// A signed distance in semitones.
#[derive(Debug, Clone, Copy, PartialEq, Eq, Structural)]
pub struct Interval(pub i8);

/// The named distances are given in semitones, as the argument of `Interval`.
impl Interval {
    pub const UNISON: i8 = 0;

    pub const MINOR_SECOND: i8 = 1;

    pub const MAJOR_SECOND: i8 = 2;

    pub const MINOR_THIRD: i8 = 3;

    pub const MAJOR_THIRD: i8 = 4;

    pub const PERFECT_FOURTH: i8 = 5;

    pub const TRITONE: i8 = 6;

    pub const PERFECT_FIFTH: i8 = 7;

    pub const MINOR_SIXTH: i8 = 8;

    pub const MAJOR_SIXTH: i8 = 9;

    pub const MINOR_SEVENTH: i8 = 10;

    pub const MAJOR_SEVENTH: i8 = 11;

    pub const OCTAVE: i8 = 12;

    pub fn semitones(&self) -> (r: i8)
        ensures
            r == self.0,
    {
        self.0
    }

    /// The distance without its direction.
    pub fn abs(&self) -> (r: u8)
        ensures
            r as int == (if self.0 < 0 { -(self.0 as int) } else { self.0 as int }),
    {
        if self.0 < 0 {
            (-(self.0 as i16)) as u8
        } else {
            self.0 as u8
        }
    }

    pub fn is_tritone(&self) -> (r: bool)
        requires
            self.0 > i8::MIN,
        ensures
            r == (self.0 == 6 || self.0 == -6),
    {
        self.0 == 6 || self.0 == -6
    }

    /// The same distance in the other direction.
    pub fn negate(&self) -> (r: Self)
        requires
            self.0 > i8::MIN,
        ensures
            r.0 == -self.0,
    {
        Self(-self.0)
    }
}

/// The named intervals are those of the major scale above its root, perfect or major; the
/// minor ones are a semitone less, and the tritone lies between the fourth and the fifth.
pub proof fn intervals_are_degrees()
    ensures
        ({
            let s = mode_steps(Mode::Major);
            &&& Interval::UNISON == s[0]
            &&& Interval::MAJOR_SECOND == s[1]
            &&& Interval::MAJOR_THIRD == s[2]
            &&& Interval::PERFECT_FOURTH == s[3]
            &&& Interval::PERFECT_FIFTH == s[4]
            &&& Interval::MAJOR_SIXTH == s[5]
            &&& Interval::MAJOR_SEVENTH == s[6]
            &&& Interval::OCTAVE == s[0] + 12
            &&& Interval::MINOR_SECOND == s[1] - 1
            &&& Interval::MINOR_THIRD == s[2] - 1
            &&& Interval::TRITONE == s[3] + 1 && Interval::TRITONE == s[4] - 1
            &&& Interval::MINOR_SIXTH == s[5] - 1
            &&& Interval::MINOR_SEVENTH == s[6] - 1
        }),
{
}

} // verus!
