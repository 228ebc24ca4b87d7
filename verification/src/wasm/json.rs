//! JSON texts of flat arrays.
use crate::text::decimal;
use vstd::prelude::*;

verus! {

/// A hexadecimal digit in lower case.
pub open spec fn hex_digit(n: int) -> char {
    if n < 10 {
        (n + '0' as int) as char
    } else {
        (n - 10 + 'a' as int) as char
    }
}

/// A character inside a JSON string.
pub open spec fn json_char(c: char) -> Seq<char> {
    if c == '"' || c == '\\' {
        seq!['\\', c]
    } else if c as int == 8 {
        seq!['\\', 'b']
    } else if c as int == 9 {
        seq!['\\', 't']
    } else if c as int == 10 {
        seq!['\\', 'n']
    } else if c as int == 12 {
        seq!['\\', 'f']
    } else if c as int == 13 {
        seq!['\\', 'r']
    } else if (c as int) < 32 {
        seq!['\\', 'u', '0', '0', hex_digit(c as int / 16), hex_digit(c as int % 16)]
    } else {
        seq![c]
    }
}

/// A text as a JSON string, without its quotes.
pub open spec fn json_chars(s: Seq<char>) -> Seq<char>
    decreases s.len(),
{
    if s.len() == 0 {
        Seq::empty()
    } else {
        json_chars(s.drop_last()) + json_char(s.last())
    }
}

/// A text as a JSON string.
pub open spec fn json_string(s: Seq<char>) -> Seq<char> {
    seq!['"'] + json_chars(s) + seq!['"']
}

/// Items with commas between them.
pub open spec fn comma_separated(items: Seq<Seq<char>>) -> Seq<char>
    decreases items.len(),
{
    if items.len() == 0 {
        Seq::empty()
    } else if items.len() == 1 {
        items[0]
    } else {
        comma_separated(items.drop_last()) + seq![','] + items.last()
    }
}

/// The JSON array of some items.
pub open spec fn json_array(items: Seq<Seq<char>>) -> Seq<char> {
    seq!['['] + comma_separated(items) + seq![']']
}

/// The JSON array of some numbers.
pub open spec fn json_numbers(ns: Seq<u32>) -> Seq<char> {
    json_array(ns.map_values(|n: u32| decimal(n as nat)))
}

/// The JSON array of some texts.
pub open spec fn json_strings(ss: Seq<String>) -> Seq<char> {
    json_array(ss.map_values(|s: String| json_string(s@)))
}

/// Calls `serde_json::to_string` on numbers: brackets around them, commas without
/// space between them, each in decimal. Numbers in memory can always be written.
#[verifier::external_body]
pub(crate) fn numbers_to_string(ns: &Vec<u32>) -> (r: String)
    ensures
        r@ == json_numbers(ns@),
{
    serde_json::to_string(ns).unwrap_or_default()
}

/// Calls `serde_json::to_string` on texts: brackets around them, commas without space
/// between them, each in quotes, with a backslash before quotes, backslashes and what
/// stands for a control character. Texts in memory can always be written.
#[verifier::external_body]
pub(crate) fn strings_to_string(ss: &Vec<String>) -> (r: String)
    ensures
        r@ == json_strings(ss@),
{
    serde_json::to_string(ss).unwrap_or_default()
}

/// Whether a character is written behind a backslash in JSON: the two that delimit, and
/// the control characters.
pub open spec fn is_escaped_in_json(c: char) -> bool {
    c == '"' || c == '\\' || (c as int) < 0x20
}

/// Text in JSON keeps its characters in their order: those that need none stand as
/// themselves, the others behind a backslash.
pub proof fn json_text_keeps_its_characters(s: Seq<char>, c: char)
    ensures
        json_chars(Seq::empty()) == Seq::<char>::empty(),
        json_chars(s.push(c)) == json_chars(s) + json_char(c),
        !is_escaped_in_json(c) ==> json_char(c) == seq![c],
        is_escaped_in_json(c) ==> json_char(c).len() >= 2 && json_char(c)[0] == '\\',
        c == '"' || c == '\\' ==> json_char(c) == seq!['\\', c],
{
    assert(s.push(c).drop_last() == s);
}

} // verus!
