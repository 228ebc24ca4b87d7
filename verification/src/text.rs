//! Text building and scanning over sequences of characters.
use vstd::prelude::*;
use vstd::utf8::{decode_utf8, is_ascii_chars, valid_utf8};

verus! {

/// `String::push` appends one character at the end of the string.
pub assume_specification[ String::push ](s: &mut String, c: char)
    ensures
        final(s)@ == old(s)@.push(c),
;

/// The name of what `str::to_lowercase` returns for text that is not all ASCII:
/// lower-casing by the Unicode tables.
pub uninterp spec fn unicode_lowered(s: Seq<char>) -> Seq<char>;

/// The text in lower case.
pub open spec fn lowered(s: Seq<char>) -> Seq<char> {
    if is_ascii_chars(s) {
        ascii_lowered(s)
    } else {
        unicode_lowered(s)
    }
}

/// Calls `str::to_lowercase`, which lower-cases by the Unicode tables. On text
/// that is all ASCII that is the ASCII lower-casing of each character.
#[verifier::external_body]
pub(crate) fn to_lowercase(s: &str) -> (r: String)
    ensures
        r@ == (if is_ascii_chars(s@) {
            ascii_lowered(s@)
        } else {
            unicode_lowered(s@)
        }),
{
    s.to_lowercase()
}

/// The name of what `String::from_utf8_lossy` makes of bytes that are not valid
/// UTF-8.
pub uninterp spec fn lossy_text(bytes: Seq<u8>) -> Seq<char>;

/// The text that bytes stand for.
pub open spec fn text_of(bytes: Seq<u8>) -> Seq<char> {
    if valid_utf8(bytes) {
        decode_utf8(bytes)
    } else {
        lossy_text(bytes)
    }
}

/// Calls `String::from_utf8_lossy`. Bytes that are valid UTF-8 decode to the
/// text that they encode; what stands for other bytes is named, not stated.
#[verifier::external_body]
pub(crate) fn from_utf8_lossy(bytes: &[u8]) -> (r: String)
    ensures
        r@ == (if valid_utf8(bytes@) {
            decode_utf8(bytes@)
        } else {
            lossy_text(bytes@)
        }),
{
    String::from_utf8_lossy(bytes).into_owned()
}

/// The text that UTF-16 units stand for: a unit outside the surrogates stands for its
/// character, a high surrogate and the low one behind it for one character together, and
/// a surrogate that has no partner for the replacement character.
pub open spec fn utf16_text(units: Seq<u16>) -> Seq<char>
    decreases units.len(),
{
    if units.len() == 0 {
        Seq::empty()
    } else {
        let u = units[0];
        if u < 0xD800 || u >= 0xE000 {
            seq![u as char] + utf16_text(units.skip(1))
        } else if u < 0xDC00 && units.len() > 1 && 0xDC00 <= units[1] < 0xE000 {
            seq![(0x1_0000 + (u - 0xD800) * 0x400 + (units[1] - 0xDC00)) as char] + utf16_text(
                units.skip(2),
            )
        } else {
            seq!['\u{FFFD}'] + utf16_text(units.skip(1))
        }
    }
}

/// Calls `String::from_utf16_lossy`, which decodes the units and puts the replacement
/// character for what is not valid.
#[verifier::external_body]
pub(crate) fn from_utf16_lossy(units: &[u16]) -> (r: String)
    ensures
        r@ == utf16_text(units@),
{
    String::from_utf16_lossy(units)
}

/// The character's ASCII lower case.
pub open spec fn ascii_lower(c: char) -> char {
    if 'A' <= c <= 'Z' {
        ((c as u8) + 32) as u8 as char
    } else {
        c
    }
}

/// Every character in its ASCII lower case.
pub open spec fn ascii_lowered(s: Seq<char>) -> Seq<char> {
    s.map_values(|c: char| ascii_lower(c))
}

/// Whether two texts are equal when ASCII letters are compared without case.
pub open spec fn same_ignoring_ascii_case(a: Seq<char>, b: Seq<char>) -> bool {
    ascii_lowered(a) == ascii_lowered(b)
}

/// The Unicode `White_Space` characters.
pub open spec fn is_white_space(c: char) -> bool {
    let u = c as u32;
    ||| 0x9 <= u <= 0xD
    ||| u == 0x20
    ||| u == 0x85
    ||| u == 0xA0
    ||| u == 0x1680
    ||| 0x2000 <= u <= 0x200A
    ||| u == 0x2028
    ||| u == 0x2029
    ||| u == 0x202F
    ||| u == 0x205F
    ||| u == 0x3000
}

/// The text without its trailing white space.
pub open spec fn trimmed_end(s: Seq<char>) -> Seq<char>
    decreases s.len(),
{
    if s.len() > 0 && is_white_space(s.last()) {
        trimmed_end(s.drop_last())
    } else {
        s
    }
}

/// The text without its leading and trailing white space.
pub open spec fn trimmed(s: Seq<char>) -> Seq<char>
    decreases s.len(),
{
    if s.len() > 0 && is_white_space(s[0]) {
        trimmed(s.drop_first())
    } else {
        trimmed_end(s)
    }
}

/// The position of the first `c` in `s`, or the length of `s`.
pub open spec fn first_index(s: Seq<char>, c: char) -> nat
    decreases s.len(),
{
    if s.len() == 0 || s[0] == c {
        0
    } else {
        1 + first_index(s.drop_first(), c)
    }
}

/// One decimal digit.
pub open spec fn digit(d: nat) -> char {
    ((48 + d) as u8) as char
}

/// A natural number in decimal, without leading zeros.
pub open spec fn decimal(n: nat) -> Seq<char>
    decreases n,
{
    if n < 10 {
        seq![digit(n)]
    } else {
        decimal(n / 10).push(digit(n % 10))
    }
}

/// An integer in decimal, with a minus sign where it is negative.
pub open spec fn signed_decimal(n: int) -> Seq<char> {
    if n < 0 {
        seq!['-'] + decimal((-n) as nat)
    } else {
        decimal(n as nat)
    }
}

/// Whether every character is an ASCII digit.
pub open spec fn all_digits(s: Seq<char>) -> bool {
    forall|i: int| 0 <= i < s.len() ==> '0' <= #[trigger] s[i] <= '9'
}

/// The number that a row of decimal digits writes.
pub open spec fn digits_value(s: Seq<char>) -> nat
    decreases s.len(),
{
    if s.len() == 0 {
        0
    } else {
        (digits_value(s.drop_last()) * 10 + (s.last() as u32 - 48)) as nat
    }
}

/// What remains of a number's text after one leading plus sign.
pub open spec fn without_plus(s: Seq<char>) -> Seq<char> {
    if s.len() > 0 && s[0] == '+' {
        s.drop_first()
    } else {
        s
    }
}

/// The byte that a text writes in decimal: an optional plus sign, then one or
/// more digits whose value fits.
pub open spec fn parsed_u8(s: Seq<char>) -> Option<u8> {
    let d = without_plus(s);
    if d.len() > 0 && all_digits(d) && digits_value(d) <= 255 {
        Some(digits_value(d) as u8)
    } else {
        None
    }
}

/// The characters of a string.
pub fn chars_of(s: &str) -> (r: Vec<char>)
    ensures
        r@ == s@,
{
    let mut v: Vec<char> = Vec::new();
    for c in it: s.chars()
        invariant
            v@ == it.seq().take(it.index() as int),
            it.seq() == s@,
    {
        v.push(c);
    }
    v
}

/// The string with the given characters.
pub fn string_of(v: &[char]) -> (r: String)
    ensures
        r@ == v@,
{
    let mut s = String::new();
    for i in 0..v.len()
        invariant
            s@ == v@.take(i as int),
    {
        s.push(v[i]);
    }
    assert(v@.take(v@.len() as int) == v@);
    s
}

/// Whether two strings hold the same text.
pub fn str_eq(a: &str, b: &str) -> (r: bool)
    ensures
        r == (a@ == b@),
{
    a.to_owned() == b.to_owned()
}

/// Appends `n` in decimal.
pub fn push_decimal(s: &mut String, n: u64)
    ensures
        final(s)@ == old(s)@ + decimal(n as nat),
    decreases n,
{
    if n >= 10 {
        push_decimal(s, n / 10);
    }
    s.push((48u8 + (n % 10) as u8) as char);
}

/// Appends `n` in decimal, with a minus sign where it is negative.
pub fn push_signed(s: &mut String, n: i64)
    requires
        n > i64::MIN,
    ensures
        final(s)@ == old(s)@ + signed_decimal(n as int),
{
    if n < 0 {
        s.push('-');
        push_decimal(s, (-n) as u64);
    } else {
        push_decimal(s, n as u64);
    }
}

/// Whether `c` is white space.
pub fn white_space(c: char) -> (r: bool)
    ensures
        r == is_white_space(c),
{
    let u: u32 = c as u32;
    (0x9 <= u && u <= 0xD) || u == 0x20 || u == 0x85 || u == 0xA0 || u == 0x1680 || (0x2000 <= u
        && u <= 0x200A) || u == 0x2028 || u == 0x2029 || u == 0x202F || u == 0x205F || u == 0x3000
}

/// The characters without leading and trailing white space.
pub fn trim(v: &[char]) -> (r: Vec<char>)
    ensures
        r@ == trimmed(v@),
{
    let mut lo: usize = 0;
    assert(v@.skip(0) == v@);
    while lo < v.len() && white_space(v[lo])
        invariant
            lo <= v.len(),
            trimmed(v@) == trimmed(v@.skip(lo as int)),
        decreases v.len() - lo,
    {
        assert(v@.skip(lo as int).drop_first() == v@.skip(lo + 1));
        lo = lo + 1;
    }
    let mut hi: usize = v.len();
    assert(v@.subrange(lo as int, hi as int) == v@.skip(lo as int));
    while hi > lo && white_space(v[hi - 1])
        invariant
            lo <= hi <= v.len(),
            trimmed_end(v@.skip(lo as int)) == trimmed_end(v@.subrange(lo as int, hi as int)),
        decreases hi,
    {
        assert(v@.subrange(lo as int, hi as int).drop_last() == v@.subrange(lo as int, hi - 1));
        hi = hi - 1;
    }
    let mut out: Vec<char> = Vec::new();
    let mut i: usize = lo;
    while i < hi
        invariant
            lo <= i <= hi <= v.len(),
            out@ == v@.subrange(lo as int, i as int),
        decreases hi - i,
    {
        out.push(v[i]);
        i = i + 1;
    }
    out
}

/// The position of the first `c`, or the length.
pub fn find_char(v: &[char], c: char) -> (r: usize)
    ensures
        r as nat == first_index(v@, c),
        r <= v@.len(),
        r < v@.len() ==> v@[r as int] == c,
{
    let mut i: usize = 0;
    assert(v@.skip(0) == v@);
    while i < v.len() && v[i] != c
        invariant
            i <= v.len(),
            first_index(v@, c) == i + first_index(v@.skip(i as int), c),
        decreases v.len() - i,
    {
        assert(v@.skip(i as int).drop_first() == v@.skip(i + 1));
        i = i + 1;
    }
    i
}

/// The characters from `lo` up to `hi`.
pub fn slice_of(v: &[char], lo: usize, hi: usize) -> (r: Vec<char>)
    requires
        lo <= hi <= v@.len(),
    ensures
        r@ == v@.subrange(lo as int, hi as int),
{
    let mut out: Vec<char> = Vec::new();
    let mut i: usize = lo;
    while i < hi
        invariant
            lo <= i <= hi <= v@.len(),
            out@ == v@.subrange(lo as int, i as int),
        decreases hi - i,
    {
        out.push(v[i]);
        i = i + 1;
    }
    out
}

proof fn lemma_digits_value_grows(s: Seq<char>, i: int)
    requires
        all_digits(s),
        0 <= i <= s.len(),
    ensures
        digits_value(s.take(i)) <= digits_value(s),
    decreases s.len(),
{
    if i == s.len() {
        assert(s.take(i) == s);
    } else {
        assert(s.drop_last().take(i) == s.take(i));
        lemma_digits_value_grows(s.drop_last(), i);
    }
}

/// Reads a byte written in decimal.
pub fn parse_u8(v: &[char]) -> (r: Option<u8>)
    ensures
        r == parsed_u8(v@),
{
    let lo: usize = if v.len() > 0 && v[0] == '+' { 1 } else { 0 };
    let ghost d = without_plus(v@);
    assert(d == v@.skip(lo as int));
    if lo == v.len() {
        return None;
    }
    let mut value: u32 = 0;
    let mut i: usize = lo;
    while i < v.len()
        invariant
            lo <= i <= v.len(),
            lo <= 1,
            d == v@.skip(lo as int),
            d == without_plus(v@),
            d.len() > 0,
            all_digits(d.take(i - lo)),
            value == digits_value(d.take(i - lo)),
            value <= 255,
        decreases v.len() - i,
    {
        let c = v[i];
        assert(d[i - lo] == c);
        if c < '0' || c > '9' {
            return None;
        }
        let next: u32 = value * 10 + (c as u32 - 48);
        assert(d.take(i - lo + 1).drop_last() == d.take(i - lo));
        assert(digits_value(d.take(i - lo + 1)) == next);
        assert(all_digits(d.take(i - lo + 1))) by {
            assert forall|j: int| 0 <= j < i - lo + 1 implies '0' <= #[trigger] d.take(
                i - lo + 1,
            )[j] <= '9' by {
                if j < i - lo {
                    assert(d.take(i - lo)[j] == d[j]);
                }
            }
        }
        if next > 255 {
            proof {
                if all_digits(d) {
                    lemma_digits_value_grows(d, i - lo + 1);
                }
            }
            return None;
        }
        value = next;
        i = i + 1;
    }
    assert(d.take(d.len() as int) == d);
    Some(value as u8)
}

/// One character in ASCII lower case.
pub fn lower_char(c: char) -> (r: char)
    ensures
        r == ascii_lower(c),
{
    if 'A' <= c && c <= 'Z' {
        ((c as u8) + 32) as char
    } else {
        c
    }
}

/// Whether the texts agree when ASCII case is ignored.
pub fn eq_ignore_ascii_case(a: &[char], b: &[char]) -> (r: bool)
    ensures
        r == same_ignoring_ascii_case(a@, b@),
{
    if a.len() != b.len() {
        assert(ascii_lowered(a@).len() != ascii_lowered(b@).len());
        return false;
    }
    let mut i: usize = 0;
    while i < a.len()
        invariant
            i <= a.len() == b.len(),
            forall|j: int| 0 <= j < i ==> ascii_lower(#[trigger] a@[j]) == ascii_lower(b@[j]),
        decreases a.len() - i,
    {
        if lower_char(a[i]) != lower_char(b[i]) {
            assert(ascii_lowered(a@)[i as int] != ascii_lowered(b@)[i as int]);
            return false;
        }
        i = i + 1;
    }
    assert(ascii_lowered(a@) == ascii_lowered(b@));
    true
}

/// A number written in decimal reads back as that number. It has digits alone, and none
/// of them is a zero in front.
pub proof fn decimal_reads_back(n: nat)
    ensures
        all_digits(decimal(n)),
        decimal(n).len() > 0,
        digits_value(decimal(n)) == n,
        n > 0 ==> decimal(n)[0] != '0',
    decreases n,
{
    if n >= 10 {
        decimal_reads_back(n / 10);
        let (s, d) = (decimal(n / 10), digit(n % 10));
        assert(s.push(d).drop_last() == s);
        assert forall|i: int| 0 <= i < decimal(n).len() implies '0' <= #[trigger] decimal(n)[i]
            <= '9' by {
            if i < s.len() {
                assert(decimal(n)[i] == s[i]);
            }
        }
        assert(decimal(n)[0] == s[0]);
    } else {
        let s = decimal(n);
        assert(s.drop_last() == Seq::<char>::empty());
        assert(digits_value(s.drop_last()) == 0);
    }
}

/// One more digit makes ten of the number before it, and adds itself.
pub proof fn next_digit_counts_ten(s: Seq<char>, c: char)
    requires
        '0' <= c <= '9',
    ensures
        digits_value(s.push(c)) == 10 * digits_value(s) + (c as int - '0' as int),
        digits_value(Seq::empty()) == 0,
{
    assert(s.push(c).drop_last() == s);
}

/// A negative number is written as its opposite behind a minus sign.
pub proof fn minus_sign_negates(n: int)
    requires
        n > 0,
    ensures
        signed_decimal(n) == decimal(n as nat),
        signed_decimal(-n).len() == signed_decimal(n).len() + 1,
        signed_decimal(-n)[0] == '-',
        signed_decimal(-n).drop_first() == signed_decimal(n),
{
    assert(signed_decimal(-n).drop_first() == signed_decimal(n));
}

/// A byte written in decimal reads back, with a plus sign in front of it or without;
/// a greater number does not.
pub proof fn byte_reads_back(n: nat)
    ensures
        parsed_u8(decimal(n)) == (if n <= 255 {
            Some(n as u8)
        } else {
            None
        }),
        parsed_u8(seq!['+'] + decimal(n)) == parsed_u8(decimal(n)),
{
    decimal_reads_back(n);
    assert('0' <= decimal(n)[0] <= '9');
    let s = seq!['+'] + decimal(n);
    assert(s.drop_first() == decimal(n));
}

/// What is read as a byte is written in digits alone, behind a plus sign or without.
pub proof fn only_digits_are_read(s: Seq<char>)
    ensures
        parsed_u8(s) matches Some(n) ==> {
            let d = if s[0] == '+' {
                s.skip(1)
            } else {
                s
            };
            d.len() > 0 && all_digits(d) && digits_value(d) == n
        },
{
    assert(s.len() > 0 ==> s.drop_first() == s.skip(1));
}

proof fn lemma_trimmed_end(s: Seq<char>) -> (hi: int)
    ensures
        0 <= hi <= s.len(),
        trimmed_end(s) == s.take(hi),
        hi > 0 ==> !is_white_space(s[hi - 1]),
        forall|i: int| hi <= i < s.len() ==> is_white_space(#[trigger] s[i]),
    decreases s.len(),
{
    if s.len() > 0 && is_white_space(s.last()) {
        let hi = lemma_trimmed_end(s.drop_last());
        assert(s.drop_last().take(hi) == s.take(hi));
        assert forall|i: int| hi <= i < s.len() implies is_white_space(#[trigger] s[i]) by {
            if i < s.len() - 1 {
                assert(s.drop_last()[i] == s[i]);
            }
        }
        hi
    } else {
        assert(s.take(s.len() as int) == s);
        s.len() as int
    }
}

/// Trimming takes away the white space around a text and nothing else.
pub proof fn trimming_takes_white_space_alone(s: Seq<char>)
    ensures
        exists|lo: int, hi: int|
            0 <= lo <= hi <= s.len() && trimmed(s) == #[trigger] s.subrange(lo, hi) && (forall|
                i: int,
            |
                0 <= i < s.len() && (i < lo || hi <= i) ==> is_white_space(#[trigger] s[i])),
        trimmed(s).len() > 0 ==> !is_white_space(trimmed(s)[0]) && !is_white_space(
            trimmed(s).last(),
        ),
    decreases s.len(),
{
    if s.len() > 0 && is_white_space(s[0]) {
        let t = s.drop_first();
        trimming_takes_white_space_alone(t);
        let (lo, hi) = choose|lo: int, hi: int|
            0 <= lo <= hi <= t.len() && trimmed(t) == #[trigger] t.subrange(lo, hi) && (forall|
                i: int,
            |
                0 <= i < t.len() && (i < lo || hi <= i) ==> is_white_space(#[trigger] t[i]));
        assert(t.subrange(lo, hi) == s.subrange(lo + 1, hi + 1));
        assert forall|i: int| 0 <= i < s.len() && (i < lo + 1 || hi + 1 <= i) implies is_white_space(
            #[trigger] s[i],
        ) by {
            if i > 0 {
                assert(t[i - 1] == s[i]);
            }
        }
    } else {
        let hi = lemma_trimmed_end(s);
        assert(s.take(hi) == s.subrange(0, hi));
    }
}

/// The first position of a character is one where it stands, and it stands at none
/// before; where it stands nowhere, it is the length.
pub proof fn first_index_is_first(s: Seq<char>, c: char)
    ensures
        first_index(s, c) <= s.len(),
        first_index(s, c) < s.len() ==> s[first_index(s, c) as int] == c,
        forall|i: int| 0 <= i < first_index(s, c) ==> (#[trigger] s[i]) != c,
    decreases s.len(),
{
    if s.len() > 0 && s[0] != c {
        let t = s.drop_first();
        first_index_is_first(t, c);
        assert forall|i: int| 0 <= i < first_index(s, c) implies (#[trigger] s[i]) != c by {
            if i > 0 {
                assert(t[i - 1] == s[i]);
            }
        }
    }
}

/// Case is ignored for the letters of ASCII alone: two characters are taken for one
/// where they are equal, or a capital and the same letter that is none.
pub proof fn only_letters_ignore_case(a: char, b: char)
    ensures
        ascii_lower(a) == ascii_lower(b) <==> a == b || ('A' <= a <= 'Z' && b as int == a as int
            + ('a' as int - 'A' as int)) || ('A' <= b <= 'Z' && a as int == b as int + ('a' as int
            - 'A' as int)),
{
}

/// Among the characters of ASCII the space is white, and so are the five that begin with
/// the tab.
pub proof fn white_space_of_ascii(c: char)
    requires
        c <= '\u{7f}',
    ensures
        is_white_space(c) <==> c == ' ' || '\t' <= c <= '\r',
{
}

/// White are the twenty-five characters that Unicode counts as white space.
pub proof fn white_space_of_unicode(c: char)
    ensures
        is_white_space(c) <==> seq![
            '\u{9}',
            '\u{a}',
            '\u{b}',
            '\u{c}',
            '\u{d}',
            ' ',
            '\u{85}',
            '\u{a0}',
            '\u{1680}',
            '\u{2000}',
            '\u{2001}',
            '\u{2002}',
            '\u{2003}',
            '\u{2004}',
            '\u{2005}',
            '\u{2006}',
            '\u{2007}',
            '\u{2008}',
            '\u{2009}',
            '\u{200a}',
            '\u{2028}',
            '\u{2029}',
            '\u{202f}',
            '\u{205f}',
            '\u{3000}',
        ].contains(c),
{
    let all = seq![
        '\u{9}',
        '\u{a}',
        '\u{b}',
        '\u{c}',
        '\u{d}',
        ' ',
        '\u{85}',
        '\u{a0}',
        '\u{1680}',
        '\u{2000}',
        '\u{2001}',
        '\u{2002}',
        '\u{2003}',
        '\u{2004}',
        '\u{2005}',
        '\u{2006}',
        '\u{2007}',
        '\u{2008}',
        '\u{2009}',
        '\u{200a}',
        '\u{2028}',
        '\u{2029}',
        '\u{202f}',
        '\u{205f}',
        '\u{3000}',
    ];
    let u = c as u32;
    if is_white_space(c) {
        let i: int = if u <= 0xD {
            u - 9
        } else if u == 0x20 {
            5
        } else if u == 0x85 {
            6
        } else if u == 0xA0 {
            7
        } else if u == 0x1680 {
            8
        } else if u <= 0x200A {
            9 + (u - 0x2000)
        } else if u == 0x2028 {
            20
        } else if u == 0x2029 {
            21
        } else if u == 0x202F {
            22
        } else if u == 0x205F {
            23
        } else {
            24
        };
        assert(all[i] == c);
    }
    if all.contains(c) {
        let i = choose|i: int| 0 <= i < all.len() && all[i] == c;
        assert(0 <= i < 25);
    }
}

} // verus!
