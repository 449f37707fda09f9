//! Strings as the library sees them: sequences of characters with a UTF-8
//! byte layout, compared, sliced and trimmed by byte offset.

use vstd::prelude::*;
use vstd::string::StringSliceAdditionalSpecFns;
use vstd::utf8::{
    decode_utf8, encode_utf8, encode_utf8_decode_utf8, encode_utf8_valid_utf8, is_char_boundary,
    is_char_boundary_iff_not_is_continuation_byte, is_char_boundary_start_end_of_seq,
    is_continuation_byte, pop_first_scalar, valid_utf8, valid_utf8_split,
};

verus! {

/// The character sequences of a list of string slices.
pub open spec fn str_views(items: Seq<&str>) -> Seq<Seq<char>> {
    items.map_values(|t: &str| t@)
}

/// The character sequences of a list of strings.
pub open spec fn string_views(items: Seq<String>) -> Seq<Seq<char>> {
    items.map_values(|t: String| t@)
}

/// The UTF-8 bytes of a character sequence.
pub open spec fn bytes_of(s: Seq<char>) -> Seq<u8> {
    encode_utf8(s)
}

/// The length of a character sequence in UTF-8 bytes.
pub open spec fn byte_len(s: Seq<char>) -> nat {
    encode_utf8(s).len()
}

/// The characters with the Unicode property `White_Space`.
pub open spec fn is_white_space(c: char) -> bool {
    let u = c as u32;
    ||| 0x09 <= u <= 0x0d
    ||| u == 0x20
    ||| u == 0x85
    ||| u == 0xa0
    ||| u == 0x1680
    ||| 0x2000 <= u <= 0x200a
    ||| u == 0x2028
    ||| u == 0x2029
    ||| u == 0x202f
    ||| u == 0x205f
    ||| u == 0x3000
}

/// `s` without the white space at its end.
pub open spec fn trimmed_end(s: Seq<char>) -> Seq<char>
    decreases s.len(),
{
    if s.len() > 0 && is_white_space(s.last()) {
        trimmed_end(s.drop_last())
    } else {
        s
    }
}

/// `s` without the white space at its start.
pub open spec fn trimmed_start(s: Seq<char>) -> Seq<char>
    decreases s.len(),
{
    if s.len() > 0 && is_white_space(s.first()) {
        trimmed_start(s.drop_first())
    } else {
        s
    }
}

/// `s` without the white space at either end.
pub open spec fn trimmed(s: Seq<char>) -> Seq<char> {
    trimmed_start(trimmed_end(s))
}

/// Whether some character of `s` is not white space.
pub open spec fn has_visible_char(s: Seq<char>) -> bool {
    exists|i: int| 0 <= i < s.len() && !is_white_space(#[trigger] s[i])
}

/// Two strings have the same characters exactly if they have the same
/// bytes.
pub proof fn lemma_same_bytes_same_chars(a: Seq<char>, b: Seq<char>)
    ensures
        (encode_utf8(a) == encode_utf8(b)) <==> a == b,
{
    encode_utf8_decode_utf8(a);
    encode_utf8_decode_utf8(b);
}

/// The bytes of a string are valid UTF-8. Its start and its end are
/// character boundaries, and so is every position that holds a byte which
/// continues no character, such as a line feed.
pub proof fn lemma_boundary_at(s: &str, index: int)
    requires
        0 <= index <= s.spec_bytes().len(),
        0 < index < s.spec_bytes().len() ==> !is_continuation_byte(s.spec_bytes()[index]),
    ensures
        valid_utf8(s.spec_bytes()),
        is_char_boundary(s.spec_bytes(), index),
{
    encode_utf8_valid_utf8(s@);
    if 0 < index < s.spec_bytes().len() {
        is_char_boundary_iff_not_is_continuation_byte(s.spec_bytes(), index);
    } else {
        is_char_boundary_start_end_of_seq(s.spec_bytes());
    }
}

/// `str::trim`: the slice without leading and trailing white space, as the
/// Unicode property `White_Space` defines it.
#[verifier::external_body]
pub(crate) fn trim<'a>(s: &'a str) -> (r: &'a str)
    ensures
        r@ == trimmed(s@),
{
    s.trim()
}

/// `str::trim_end`: the slice without trailing white space, as the Unicode
/// property `White_Space` defines it.
#[verifier::external_body]
pub(crate) fn trim_end<'a>(s: &'a str) -> (r: &'a str)
    ensures
        r@ == trimmed_end(s@),
{
    s.trim_end()
}

/// Whether `c` has the Unicode property `White_Space`.
pub fn is_whitespace(c: char) -> (b: bool)
    ensures
        b == is_white_space(c),
{
    let u: u32 = c as u32;
    (0x09 <= u && u <= 0x0d) || u == 0x20 || u == 0x85 || u == 0xa0 || u == 0x1680 || (0x2000 <= u
        && u <= 0x200a) || u == 0x2028 || u == 0x2029 || u == 0x202f || u == 0x205f || u == 0x3000
}

/// Whether two byte strings are equal.
pub fn bytes_eq(a: &[u8], b: &[u8]) -> (same: bool)
    ensures
        same == (a@ == b@),
{
    if a.len() != b.len() {
        return false;
    }
    let mut i: usize = 0;
    while i < a.len()
        invariant
            i <= a.len(),
            a.len() == b.len(),
            forall|j: int| 0 <= j < i ==> a@[j] == b@[j],
        decreases a.len() - i,
    {
        if a[i] != b[i] {
            return false;
        }
        i += 1;
    }
    proof {
        assert(a@ =~= b@);
    }
    true
}

/// The length of a string in bytes.
pub fn str_len(s: &str) -> (n: usize)
    ensures
        n == byte_len(s@),
        n == s.spec_bytes().len(),
{
    s.as_bytes().len()
}

/// Whether two strings hold the same characters.
pub fn str_eq(a: &str, b: &str) -> (same: bool)
    ensures
        same == (a@ == b@),
{
    proof {
        lemma_same_bytes_same_chars(a@, b@);
    }
    bytes_eq(a.as_bytes(), b.as_bytes())
}

/// The part of `s` between two byte offsets that are character boundaries.
pub fn str_slice<'a>(s: &'a str, start: usize, end: usize) -> (r: &'a str)
    requires
        start <= end <= s.spec_bytes().len(),
        is_char_boundary(s.spec_bytes(), start as int),
        is_char_boundary(s.spec_bytes(), end as int),
    ensures
        r.spec_bytes() == s.spec_bytes().subrange(start as int, end as int),
        r@ == decode_utf8(s.spec_bytes().subrange(start as int, end as int)),
{
    let (head, _) = s.split_at(end);
    proof {
        let bytes = s.spec_bytes();
        encode_utf8_valid_utf8(s@);
        encode_utf8_valid_utf8(head@);
        valid_utf8_split(bytes, end as int);
        if start < end {
            is_char_boundary_iff_not_is_continuation_byte(bytes, start as int);
            is_char_boundary_iff_not_is_continuation_byte(head.spec_bytes(), start as int);
        } else {
            is_char_boundary_start_end_of_seq(head.spec_bytes());
        }
    }
    let (_, tail) = head.split_at(start);
    proof {
        assert(tail.spec_bytes() =~= s.spec_bytes().subrange(start as int, end as int));
        encode_utf8_decode_utf8(tail@);
    }
    tail
}

/// Whether `bytes` begins with `prefix`.
pub open spec fn has_prefix(bytes: Seq<u8>, prefix: Seq<u8>) -> bool {
    prefix.len() <= bytes.len() && bytes.subrange(0, prefix.len() as int) == prefix
}

/// Whether `bytes` ends with `suffix`.
pub open spec fn has_suffix(bytes: Seq<u8>, suffix: Seq<u8>) -> bool {
    suffix.len() <= bytes.len() && bytes.subrange(
        bytes.len() - suffix.len(),
        bytes.len() as int,
    ) == suffix
}

/// Whether `part` stands in `bytes` at position `at`.
pub open spec fn occurs_at(bytes: Seq<u8>, part: Seq<u8>, at: int) -> bool {
    0 <= at && at + part.len() <= bytes.len() && bytes.subrange(at, at + part.len()) == part
}

/// The first position from `from` on at which `part` stands in `bytes`, or
/// `-1`.
pub open spec fn first_occurrence(bytes: Seq<u8>, part: Seq<u8>, from: int) -> int
    decreases bytes.len() - from + 1,
{
    if from < 0 || from + part.len() > bytes.len() {
        -1
    } else if occurs_at(bytes, part, from) {
        from
    } else {
        first_occurrence(bytes, part, from + 1)
    }
}

/// Behind a boundary that holds a byte below 128, the next position is a
/// character boundary too.
pub proof fn lemma_boundary_after_ascii(s: &str, index: int)
    requires
        0 <= index < s.spec_bytes().len(),
        s.spec_bytes()[index] < 0x80,
    ensures
        is_char_boundary(s.spec_bytes(), index),
        is_char_boundary(s.spec_bytes(), index + 1),
{
    let bytes = s.spec_bytes();
    lemma_boundary_at(s, index);
    if index + 1 < bytes.len() {
        valid_utf8_split(bytes, index);
        let tail = bytes.subrange(index, bytes.len() as int);
        assert(tail[0] == bytes[index]);
        let rest = pop_first_scalar(tail);
        assert(valid_utf8(rest));
        assert(rest =~= bytes.subrange(index + 1, bytes.len() as int));
        assert(rest[0] == bytes[index + 1]);
        assert(!is_continuation_byte(rest[0]));
        is_char_boundary_iff_not_is_continuation_byte(bytes, index + 1);
    } else {
        is_char_boundary_start_end_of_seq(bytes);
    }
}

/// Whether `part` stands in `bytes` at position `at`.
pub fn bytes_occur_at(bytes: &[u8], part: &[u8], at: usize) -> (found: bool)
    ensures
        found == occurs_at(bytes@, part@, at as int),
{
    let n: usize = bytes.len();
    let m: usize = part.len();
    if at > n || m > n - at {
        return false;
    }
    let mut i: usize = 0;
    while i < m
        invariant
            i <= m,
            m == part@.len(),
            n == bytes@.len(),
            at + m <= n,
            forall|j: int| 0 <= j < i ==> bytes@[at + j] == part@[j],
        decreases m - i,
    {
        if bytes[at + i] != part[i] {
            proof {
                assert(bytes@.subrange(at as int, at + m)[i as int] != part@[i as int]);
            }
            return false;
        }
        i += 1;
    }
    proof {
        assert(bytes@.subrange(at as int, at + m) =~= part@);
    }
    true
}

/// The first position from `from` on at which `part` stands in `bytes`.
pub fn find_bytes(bytes: &[u8], part: &[u8], from: usize) -> (at: Option<usize>)
    ensures
        match at {
            Some(i) => i == first_occurrence(bytes@, part@, from as int) && from <= i
                && occurs_at(bytes@, part@, i as int),
            None => first_occurrence(bytes@, part@, from as int) < 0,
        },
{
    let n: usize = bytes.len();
    let m: usize = part.len();
    if m > n || from > n - m {
        return None;
    }
    let last: usize = n - m;
    let mut i: usize = from;
    loop
        invariant
            from <= i <= last,
            last == n - m,
            n == bytes@.len(),
            m == part@.len(),
            first_occurrence(bytes@, part@, from as int) == first_occurrence(
                bytes@,
                part@,
                i as int,
            ),
        decreases last - i,
    {
        if bytes_occur_at(bytes, part, i) {
            return Some(i);
        }
        if i == last {
            proof {
                assert(first_occurrence(bytes@, part@, i + 1) == -1);
            }
            return None;
        }
        i += 1;
    }
}

/// Whether the string begins with the bytes of `prefix`.
pub fn starts_with(s: &str, prefix: &str) -> (b: bool)
    ensures
        b == has_prefix(s.spec_bytes(), prefix.spec_bytes()),
{
    let found = bytes_occur_at(s.as_bytes(), prefix.as_bytes(), 0);
    proof {
        assert(found == has_prefix(s.spec_bytes(), prefix.spec_bytes()));
    }
    found
}

/// Whether the string ends with the bytes of `suffix`.
pub fn ends_with(s: &str, suffix: &str) -> (b: bool)
    ensures
        b == has_suffix(s.spec_bytes(), suffix.spec_bytes()),
{
    let n: usize = s.as_bytes().len();
    let m: usize = suffix.as_bytes().len();
    if m > n {
        return false;
    }
    bytes_occur_at(s.as_bytes(), suffix.as_bytes(), n - m)
}

/// The first position from `from` on that holds the byte, or `-1`.
pub open spec fn first_byte(bytes: Seq<u8>, byte: u8, from: int) -> int
    decreases bytes.len() - from + 1,
{
    if from < 0 || from >= bytes.len() {
        -1
    } else if bytes[from] == byte {
        from
    } else {
        first_byte(bytes, byte, from + 1)
    }
}

/// The first position from `from` on that holds the byte.
pub fn find_byte(bytes: &[u8], byte: u8, from: usize) -> (at: Option<usize>)
    ensures
        match at {
            Some(i) => i == first_byte(bytes@, byte, from as int) && from <= i < bytes@.len()
                && bytes@[i as int] == byte,
            None => first_byte(bytes@, byte, from as int) < 0,
        },
{
    let n: usize = bytes.len();
    let mut i: usize = from;
    while i < n
        invariant
            from <= i,
            n == bytes@.len(),
            first_byte(bytes@, byte, from as int) == first_byte(bytes@, byte, i as int),
        decreases n - i,
    {
        if bytes[i] == byte {
            return Some(i);
        }
        i += 1;
    }
    None
}

} // verus!
