//! Characters and strings: classification, trimming, and conversions between
//! `str`, `String` and sequences of characters.

use vstd::prelude::*;
use vstd::std_specs::iter::IteratorSpec;

verus! {

/// The characters with the Unicode property White_Space.
pub open spec fn is_space(c: char) -> bool {
    let n = c as u32;
    ||| 0x09 <= n <= 0x0D
    ||| n == 0x20
    ||| n == 0x85
    ||| n == 0xA0
    ||| n == 0x1680
    ||| 0x2000 <= n <= 0x200A
    ||| n == 0x2028
    ||| n == 0x2029
    ||| n == 0x202F
    ||| n == 0x205F
    ||| n == 0x3000
}

/// The decimal digits `0` to `9`.
pub open spec fn is_digit(c: char) -> bool {
    '0' <= c <= '9'
}

/// The characters that may begin an identifier.
pub open spec fn is_identifier_start(c: char) -> bool {
    'a' <= c <= 'z' || 'A' <= c <= 'Z' || c == '_'
}

/// Whether `c` is alphabetic or numeric in the sense of the Unicode
/// character database, as `char::is_alphanumeric` decides it.
pub uninterp spec fn alphanumeric(c: char) -> bool;

/// The characters that may continue an identifier.
pub open spec fn is_identifier_part(c: char) -> bool {
    alphanumeric(c) || c == '_'
}

/// Whether `c` is white space.
pub fn space(c: char) -> (r: bool)
    ensures
        r == is_space(c),
{
    let n: u32 = c as u32;
    (0x09 <= n && n <= 0x0D) || n == 0x20 || n == 0x85 || n == 0xA0 || n == 0x1680 || (0x2000 <= n
        && n <= 0x200A) || n == 0x2028 || n == 0x2029 || n == 0x202F || n == 0x205F || n == 0x3000
}

/// Whether `c` is a decimal digit.
pub fn digit(c: char) -> (r: bool)
    ensures
        r == is_digit(c),
{
    '0' <= c && c <= '9'
}

/// Whether `c` may begin an identifier.
pub fn identifier_start(c: char) -> (r: bool)
    ensures
        r == is_identifier_start(c),
{
    ('a' <= c && c <= 'z') || ('A' <= c && c <= 'Z') || c == '_'
}

/// Calls `char::is_alphanumeric`. Nothing is claimed of the answer but that
/// it depends on the character alone.
#[verifier::external_body]
fn unicode_alphanumeric(c: char) -> (r: bool)
    ensures
        r == alphanumeric(c),
{
    c.is_alphanumeric()
}

/// Whether `c` may continue an identifier.
pub fn identifier_part(c: char) -> (r: bool)
    ensures
        r == is_identifier_part(c),
{
    c == '_' || unicode_alphanumeric(c)
}

/// Calls `String::push`, which appends one character to the string.
#[verifier::external_body]
fn push_char(s: &mut String, c: char)
    ensures
        final(s)@ == old(s)@.push(c),
{
    s.push(c)
}

/// Calls `str::eq`: two strings are equal when they hold the same
/// characters in the same order.
#[verifier::external_body]
pub(crate) fn same_text(a: &str, b: &str) -> (r: bool)
    ensures
        r == (a@ == b@),
{
    a == b
}

/// The characters of `s`, in order.
pub fn characters(s: &str) -> (v: Vec<char>)
    ensures
        v@ == s@,
{
    let mut v: Vec<char> = Vec::new();
    let mut it = s.chars();
    loop
        invariant
            v@ + it.remaining() == s@,
            it.decrease() is Some,
        ensures
            v@ == s@,
        decreases it.decrease()->0,
    {
        match it.next() {
            Some(c) => {
                v.push(c);
                assert(v@ + it.remaining() =~= s@);
            },
            None => {
                assert(v@ =~= s@);
                break ;
            },
        }
    }
    v
}

/// The string made of `chars[from..to]`.
pub fn string_of(chars: &Vec<char>, from: usize, to: usize) -> (s: String)
    requires
        from <= to <= chars.len(),
    ensures
        s@ == chars@.subrange(from as int, to as int),
{
    let mut s = String::new();
    let mut i: usize = from;
    while i < to
        invariant
            from <= i <= to <= chars.len(),
            s@ == chars@.subrange(from as int, i as int),
        decreases to - i,
    {
        push_char(&mut s, chars[i]);
        i += 1;
        assert(s@ =~= chars@.subrange(from as int, i as int));
    }
    s
}

/// Where `s` begins once the white space from `i` on is passed over.
pub open spec fn content_start(s: Seq<char>, i: int) -> int
    decreases s.len() - i,
{
    if 0 <= i < s.len() && is_space(s[i]) {
        content_start(s, i + 1)
    } else {
        i
    }
}

/// Where `s` ends once the white space before `j` is dropped, back to
/// `start` at most.
pub open spec fn content_end(s: Seq<char>, start: int, j: int) -> int
    decreases j,
{
    if 0 <= start < j <= s.len() && is_space(s[j - 1]) {
        content_end(s, start, j - 1)
    } else {
        j
    }
}

/// `s` without the white space at its two ends.
pub open spec fn trimmed(s: Seq<char>) -> Seq<char> {
    let start = content_start(s, 0);
    s.subrange(start, content_end(s, start, s.len() as int))
}

/// The text without the white space at its two ends.
pub fn trim(text: &str) -> (r: String)
    ensures
        r@ == trimmed(text@),
{
    let chars = characters(text);
    let mut start: usize = 0;
    while start < chars.len() && space(chars[start])
        invariant
            start <= chars.len(),
            content_start(chars@, 0) == content_start(chars@, start as int),
        decreases chars.len() - start,
    {
        start += 1;
    }
    let mut end: usize = chars.len();
    while start < end && space(chars[end - 1])
        invariant
            start <= end <= chars.len(),
            content_end(chars@, start as int, chars.len() as int) == content_end(
                chars@,
                start as int,
                end as int,
            ),
        decreases end,
    {
        end -= 1;
    }
    string_of(&chars, start, end)
}

} // verus!
