//! What can be wrong with a MIDI file.
use crate::text::{decimal, push_decimal};
use vstd::prelude::*;
use vstd::string::*;

verus! {

#[derive(Debug, Clone, Copy, PartialEq, Eq, Structural)]
pub enum MidiError {
    InvalidHeader,
    /// The offset behind the bytes that are no track tag.
    InvalidTrack(usize),
    UnexpectedEof,
    UnsupportedFormat(u16),
    VarLenOverflow,
}

/// The wording of an error.
pub open spec fn error_text(e: MidiError) -> Seq<char> {
    match e {
        MidiError::InvalidHeader => "invalid MIDI header chunk"@,
        MidiError::InvalidTrack(at) => "invalid track chunk at offset "@ + decimal(at as nat),
        MidiError::UnexpectedEof => "unexpected end of data"@,
        MidiError::UnsupportedFormat(f) => "unsupported MIDI format "@ + decimal(f as nat),
        MidiError::VarLenOverflow => "variable-length encoding overflow"@,
    }
}

impl MidiError {
    /// The wording of the error.
    pub fn message(&self) -> (r: String)
        ensures
            r@ == error_text(*self),
    {
        match self {
            MidiError::InvalidHeader => "invalid MIDI header chunk".to_owned(),
            MidiError::InvalidTrack(at) => {
                let mut s = "invalid track chunk at offset ".to_owned();
                push_decimal(&mut s, *at as u64);
                s
            },
            MidiError::UnexpectedEof => "unexpected end of data".to_owned(),
            MidiError::UnsupportedFormat(f) => {
                let mut s = "unsupported MIDI format ".to_owned();
                push_decimal(&mut s, *f as u64);
                s
            },
            MidiError::VarLenOverflow => "variable-length encoding overflow".to_owned(),
        }
    }
}

/// Every error is told in its own words, with the place or the number that it is about.
pub proof fn errors_are_told(at: usize, format: u16)
    ensures
        error_text(MidiError::InvalidHeader) == "invalid MIDI header chunk"@,
        error_text(MidiError::InvalidTrack(at)) == "invalid track chunk at offset "@ + decimal(
            at as nat,
        ),
        error_text(MidiError::UnexpectedEof) == "unexpected end of data"@,
        error_text(MidiError::UnsupportedFormat(format)) == "unsupported MIDI format "@ + decimal(
            format as nat,
        ),
        error_text(MidiError::VarLenOverflow) == "variable-length encoding overflow"@,
{
}

} // verus!
