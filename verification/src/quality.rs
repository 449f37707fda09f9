//! Measures of repetition in a list of words or lines, and the splitting of
//! a text into lines, paragraphs and word n-grams.

use ngrams::Ngram;
use regex::Regex;
use std::collections::HashSet;
use vstd::prelude::*;
use vstd::string::{StrSliceExecFns, StringExecFns, StringSliceAdditionalSpecFns};
use vtext::tokenize::{Tokenizer, VTextTokenizerParams};

use crate::ratio::{clamp, clamped, wide_product};
use crate::text::{
    byte_len, bytes_occur_at, bytes_of, find_bytes, first_occurrence, has_suffix, is_white_space,
    is_whitespace, str_eq, str_len, str_views, string_views, trim, trimmed,
};
use crate::tokenize::{located_views, word_bound_indices, word_segments};

verus! {

/// The key under which a document holds its text.
pub const TEXT_KEY: &'static str = "text";

/// The key under which a document holds its words, once they are split.
pub const WORDS_KEY: &'static str = "words";

/// A run of two or more line feeds.
pub const PARAGRAPH_PATTERN: &'static str = "\\n{2,}";

/// A single line feed.
pub const LINE_PATTERN: &'static str = "\\n";

/// A line that only counts likes, shares, views and the like.
pub const COUNTER_PATTERN: &'static str =
    "(?i)^\\W*\\d(?:[,\\.\\d])*(?:[KMBkmb])?\\s+(?:likes|shares|comments|retweets|reposts|quotes|bookmarks|upvotes|downvotes|downloads|views|followers)\\W*$";

/// Whether the regular expression `pattern` matches somewhere in `text`;
/// nothing if `pattern` is no regular expression.
pub uninterp spec fn regex_matches(pattern: Seq<char>, text: Seq<char>) -> Option<bool>;

/// The pieces of `text` between the successive matches of the regular
/// expression `pattern`; nothing if `pattern` is no regular expression.
pub uninterp spec fn regex_pieces(pattern: Seq<char>, text: Seq<char>) -> Option<Seq<Seq<char>>>;

/// `regex::Regex::new` on the pattern, then `Regex::is_match` on the text.
/// The answer depends on pattern and text alone.
#[verifier::external_body]
fn regex_is_match(pattern: &str, text: &str) -> (found: Option<bool>)
    ensures
        found == regex_matches(pattern@, text@),
{
    match Regex::new(pattern) {
        Ok(re) => Some(re.is_match(text)),
        Err(_) => None,
    }
}

/// `regex::Regex::new` on the pattern, then `Regex::split` on the text,
/// collected: the substrings of the text that the matches delimit, in
/// order. They depend on pattern and text alone.
#[verifier::external_body]
fn regex_split<'a>(pattern: &str, text: &'a str) -> (pieces: Option<Vec<&'a str>>)
    ensures
        pieces is Some <==> regex_pieces(pattern@, text@) is Some,
        pieces matches Some(p) ==> str_views(p@) == regex_pieces(pattern@, text@)->0,
{
    match Regex::new(pattern) {
        Ok(re) => Some(re.split(text).collect()),
        Err(_) => None,
    }
}

/// `ngrams::Ngram::ngrams` on the words, collected: every window of `n`
/// consecutive words, in order, without padding. The crate takes `n - 1`
/// words before it looks at the end of the input, so the caller has to bring
/// at least `n` of them, and `n` is at least one.
#[verifier::external_body]
fn ngram_windows<'a>(words: &'a [String], n: usize) -> (grams: Vec<Vec<&'a str>>)
    requires
        1 <= n <= words@.len(),
    ensures
        grams@.len() == words@.len() - n + 1,
        forall|i: int|
            0 <= i < grams@.len() ==> str_views((#[trigger] grams@[i])@) == string_views(
                words@,
            ).subrange(i, i + n),
{
    words.iter().map(String::as_str).ngrams(n).collect()
}

/// Whether `x[i]` occurs among the items before it.
pub open spec fn seen_before(x: Seq<Seq<char>>, i: int) -> bool {
    exists|j: int| 0 <= j < i && #[trigger] x[j] == x[i]
}

/// How many of the first `upto` items occur earlier in the list.
pub open spec fn duplicate_count(x: Seq<Seq<char>>, upto: int) -> nat
    decreases upto,
{
    if upto <= 0 {
        0
    } else {
        duplicate_count(x, upto - 1) + if seen_before(x, upto - 1) {
            1nat
        } else {
            0nat
        }
    }
}

/// The summed byte length of those of the first `upto` items that occur
/// earlier in the list.
pub open spec fn duplicate_bytes(x: Seq<Seq<char>>, upto: int) -> nat
    decreases upto,
{
    if upto <= 0 {
        0
    } else {
        duplicate_bytes(x, upto - 1) + if seen_before(x, upto - 1) {
            byte_len(x[upto - 1])
        } else {
            0nat
        }
    }
}

/// How often `w` occurs among the first `upto` items.
pub open spec fn occurrences(x: Seq<Seq<char>>, w: Seq<char>, upto: int) -> nat
    decreases upto,
{
    if upto <= 0 {
        0
    } else {
        occurrences(x, w, upto - 1) + if x[upto - 1] == w {
            1nat
        } else {
            0nat
        }
    }
}

/// The byte length of item `i` times the number of its occurrences in the
/// whole list.
pub open spec fn repeat_weight(x: Seq<Seq<char>>, i: int) -> nat {
    byte_len(x[i]) * occurrences(x, x[i], x.len() as int)
}

/// The largest `repeat_weight` among the first `upto` items, zero for none.
pub open spec fn top_weight(x: Seq<Seq<char>>, upto: int) -> nat
    decreases upto,
{
    if upto <= 0 {
        0
    } else {
        let rest = top_weight(x, upto - 1);
        let here = repeat_weight(x, upto - 1);
        if here > rest {
            here
        } else {
            rest
        }
    }
}

/// Whether a line is nothing but a count of likes, shares, views or the
/// like, such as "1.2K views".
pub fn is_counter(input: &str) -> (b: bool)
    ensures
        b == (regex_matches(COUNTER_PATTERN@, input@) == Some(true)),
{
    match regex_is_match(COUNTER_PATTERN, input) {
        Some(found) => found,
        None => false,
    }
}

/// Whether item `i` occurs among the items before it.
fn occurs_before(x: &[&str], i: usize) -> (found: bool)
    requires
        i < x@.len(),
    ensures
        found == seen_before(str_views(x@), i as int),
{
    let mut j: usize = 0;
    while j < i
        invariant
            j <= i,
            i < x@.len(),
            forall|k: int| 0 <= k < j ==> #[trigger] str_views(x@)[k] != str_views(x@)[i as int],
        decreases i - j,
    {
        if str_eq(x[j], x[i]) {
            assert(str_views(x@)[j as int] == str_views(x@)[i as int]);
            return true;
        }
        j += 1;
    }
    false
}

/// Counts the items that repeat an earlier item, and sums their byte
/// lengths. The sum stops at the largest machine word.
pub fn find_duplicates(x: &[&str]) -> (r: (usize, usize))
    ensures
        r.0 == duplicate_count(str_views(x@), x@.len() as int),
        r.1 == clamped(duplicate_bytes(str_views(x@), x@.len() as int)),
{
    let mut dup_cnt: usize = 0;
    let mut dup_chars: u128 = 0;
    let mut i: usize = 0;
    while i < x.len()
        invariant
            i <= x@.len(),
            dup_cnt == duplicate_count(str_views(x@), i as int),
            dup_cnt <= i,
            dup_chars == duplicate_bytes(str_views(x@), i as int),
            dup_chars <= i * usize::MAX,
        decreases x@.len() - i,
    {
        proof {
            assert(str_views(x@)[i as int] == x@[i as int]@);
        }
        if occurs_before(x, i) {
            dup_cnt += 1;
            assert(i * usize::MAX + usize::MAX == (i + 1) * usize::MAX) by (nonlinear_arith);
            assert((i + 1) * usize::MAX <= u128::MAX) by (nonlinear_arith)
                requires
                    0 <= i < usize::MAX,
                    usize::MAX <= u64::MAX,
            ;
            dup_chars = dup_chars + str_len(x[i]) as u128;
        } else {
            assert(i * usize::MAX <= (i + 1) * usize::MAX) by (nonlinear_arith);
        }
        i += 1;
    }
    (dup_cnt, clamp(dup_chars))
}

/// How often `word` occurs in `x`.
fn count_occurrences(x: &[String], word: &str) -> (n: usize)
    ensures
        n == occurrences(string_views(x@), word@, x@.len() as int),
{
    let mut n: usize = 0;
    let mut j: usize = 0;
    while j < x.len()
        invariant
            j <= x@.len(),
            n == occurrences(string_views(x@), word@, j as int),
            n <= j,
        decreases x@.len() - j,
    {
        if str_eq(x[j].as_str(), word) {
            n += 1;
        }
        j += 1;
    }
    n
}

/// The largest product of a word's byte length and the number of its
/// occurrences, zero for an empty list. The result stops at the largest
/// machine word.
pub fn find_top_duplicate(x: &[String]) -> (r: usize)
    ensures
        r == clamped(top_weight(string_views(x@), x@.len() as int)),
{
    let mut best: u128 = 0;
    let mut i: usize = 0;
    while i < x.len()
        invariant
            i <= x@.len(),
            best == top_weight(string_views(x@), i as int),
        decreases x@.len() - i,
    {
        proof {
            assert(string_views(x@)[i as int] == x@[i as int]@);
        }
        let cnt: usize = count_occurrences(x, x[i].as_str());
        let here: u128 = wide_product(str_len(x[i].as_str()) as u64, cnt as u64);
        if here > best {
            best = here;
        }
        i += 1;
    }
    clamp(best)
}

/// The pieces of `text` between runs of two or more line feeds, each
/// without the white space at its ends.
pub fn split_paragraphs<'a>(text: &'a str) -> (r: Vec<&'a str>)
    ensures
        str_views(r@) == match regex_pieces(PARAGRAPH_PATTERN@, text@) {
            Some(pieces) => pieces.map_values(|p: Seq<char>| trimmed(p)),
            None => Seq::empty(),
        },
{
    let mut out: Vec<&'a str> = Vec::new();
    match regex_split(PARAGRAPH_PATTERN, text) {
        Some(pieces) => {
            let mut i: usize = 0;
            while i < pieces.len()
                invariant
                    i <= pieces@.len(),
                    out@.len() == i,
                    forall|j: int|
                        0 <= j < i ==> (#[trigger] out@[j])@ == trimmed(str_views(pieces@)[j]),
                decreases pieces@.len() - i,
            {
                out.push(trim(pieces[i]));
                i += 1;
            }
            proof {
                assert(str_views(out@) =~= str_views(pieces@).map_values(
                    |p: Seq<char>| trimmed(p),
                ));
            }
        },
        None => {
            proof {
                assert(str_views(out@) =~= Seq::empty());
            }
        },
    }
    out
}

/// The pieces of `text` between line feeds.
pub fn split_lines<'a>(text: &'a str) -> (r: Vec<&'a str>)
    ensures
        str_views(r@) == match regex_pieces(LINE_PATTERN@, text@) {
            Some(pieces) => pieces,
            None => Seq::empty(),
        },
{
    match regex_split(LINE_PATTERN, text) {
        Some(pieces) => pieces,
        None => {
            let out: Vec<&'a str> = Vec::new();
            proof {
                assert(str_views(out@) =~= Seq::empty());
            }
            out
        },
    }
}

/// Every window of `n` consecutive words, in order; none where there are
/// fewer than `n` words.
pub fn get_n_grams<'a>(words: &'a [String], n: usize) -> (r: Vec<Vec<&'a str>>)
    requires
        n >= 1,
    ensures
        words@.len() < n ==> r@.len() == 0,
        words@.len() >= n ==> r@.len() == words@.len() - n + 1,
        forall|i: int|
            0 <= i < r@.len() ==> str_views((#[trigger] r@[i])@) == string_views(words@).subrange(
                i,
                i + n,
            ),
{
    if words.len() < n {
        return Vec::new();
    }
    ngram_windows(words, n)
}

/// The words from `from` up to `to`, written one behind the other.
pub open spec fn joined(words: Seq<Seq<char>>, from: int, to: int) -> Seq<char>
    decreases to - from,
{
    if to <= from {
        Seq::empty()
    } else {
        joined(words, from, to - 1) + words[to - 1]
    }
}

/// The number of repeated bytes that a scan from word `idx` on adds to
/// `acc`: an n-gram that was seen before counts with all its bytes, and the
/// scan goes on behind it; any other n-gram is remembered, and the scan
/// goes on with the next word.
pub open spec fn repeat_scan(
    words: Seq<Seq<char>>,
    n: int,
    idx: int,
    seen: Seq<Seq<char>>,
    acc: nat,
) -> nat
    decreases words.len() - idx,
{
    if n <= 0 || idx < 0 || idx + n > words.len() {
        acc
    } else {
        let gram = joined(words, idx, idx + n);
        if seen.contains(gram) {
            repeat_scan(words, n, idx + n, seen, acc + byte_len(gram))
        } else {
            repeat_scan(words, n, idx + 1, seen.push(gram), acc)
        }
    }
}

/// The words from `from` up to `to`, written one behind the other.
fn join_words(words: &[String], from: usize, to: usize) -> (gram: String)
    requires
        from <= to <= words@.len(),
    ensures
        gram@ == joined(string_views(words@), from as int, to as int),
{
    let mut gram = String::new();
    let mut i: usize = from;
    while i < to
        invariant
            from <= i <= to <= words@.len(),
            gram@ == joined(string_views(words@), from as int, i as int),
        decreases to - i,
    {
        proof {
            assert(string_views(words@)[i as int] == words@[i as int]@);
        }
        gram.append(words[i].as_str());
        i += 1;
    }
    gram
}

/// Whether the string is among the strings of the list.
fn is_among(seen: &Vec<String>, gram: &str) -> (found: bool)
    ensures
        found == string_views(seen@).contains(gram@),
{
    let mut j: usize = 0;
    while j < seen.len()
        invariant
            j <= seen@.len(),
            forall|k: int| 0 <= k < j ==> #[trigger] string_views(seen@)[k] != gram@,
        decreases seen@.len() - j,
    {
        proof {
            assert(string_views(seen@)[j as int] == seen@[j as int]@);
        }
        if str_eq(seen[j].as_str(), gram) {
            return true;
        }
        j += 1;
    }
    false
}

/// Sums the bytes of the repeated n-grams of `n` words: the words are
/// scanned from the front; an n-gram that was seen before counts with all
/// its bytes, and the scan goes on behind it. The sum stops at the largest
/// machine word.
pub fn find_all_duplicate(words: &[String], n: usize) -> (r: usize)
    requires
        n >= 1,
    ensures
        r == clamped(repeat_scan(string_views(words@), n as int, 0, Seq::empty(), 0)),
{
    let n_words: usize = words.len();
    let ghost views = string_views(words@);
    let mut unique: Vec<String> = Vec::new();
    let mut repeated_chars: u128 = 0;
    let mut idx: usize = 0;
    proof {
        assert(string_views(unique@) =~= Seq::empty());
    }
    while n <= n_words && idx <= n_words - n
        invariant
            n >= 1,
            n_words == words@.len(),
            views == string_views(words@),
            idx <= n_words,
            repeated_chars <= idx * usize::MAX,
            repeat_scan(views, n as int, 0, Seq::empty(), 0) == repeat_scan(
                views,
                n as int,
                idx as int,
                string_views(unique@),
                repeated_chars as nat,
            ),
        decreases n_words - idx,
    {
        let n_gram = join_words(words, idx, idx + n);
        let ghost seen = string_views(unique@);
        if is_among(&unique, n_gram.as_str()) {
            proof {
                assert(idx * usize::MAX + usize::MAX <= (idx + n) * usize::MAX)
                    by (nonlinear_arith)
                    requires
                        n >= 1,
                ;
                assert((idx + n) * usize::MAX <= u128::MAX) by (nonlinear_arith)
                    requires
                        idx + n <= usize::MAX,
                        usize::MAX <= u64::MAX,
                ;
            }
            repeated_chars = repeated_chars + str_len(n_gram.as_str()) as u128;
            idx = idx + n;
        } else {
            unique.push(n_gram);
            proof {
                assert(string_views(unique@) =~= seen.push(n_gram@));
                assert(idx * usize::MAX <= (idx + 1) * usize::MAX) by (nonlinear_arith);
            }
            idx += 1;
        }
    }
    clamp(repeated_chars)
}

/// The base of the rolling hash of `find_all_duplicate_fast`.
pub const HASH_BASE: u64 = 1315423911;

/// The hash of a word: its bytes as the digits of a number to the base
/// `HASH_BASE`, in 64 bits.
pub open spec fn word_hash(bytes: Seq<u8>) -> u64
    decreases bytes.len(),
{
    if bytes.len() == 0 {
        0
    } else {
        word_hash(bytes.drop_last()).wrapping_mul(HASH_BASE).wrapping_add(bytes.last() as u64)
    }
}

/// `HASH_BASE` to the power of `i`, in 64 bits.
pub open spec fn base_power(i: nat) -> u64
    decreases i,
{
    if i == 0 {
        1
    } else {
        base_power((i - 1) as nat).wrapping_mul(HASH_BASE)
    }
}

/// The hash of the first `i` words: their hashes as the digits of a number
/// to the base `HASH_BASE`, in 64 bits.
pub open spec fn prefix_hash(words: Seq<Seq<char>>, i: int) -> u64
    decreases i,
{
    if i <= 0 {
        0
    } else {
        prefix_hash(words, i - 1).wrapping_mul(HASH_BASE).wrapping_add(
            word_hash(bytes_of(words[i - 1])),
        )
    }
}

/// The hash of the `n` words from word `i` on.
pub open spec fn window_hash(words: Seq<Seq<char>>, i: int, n: int) -> u64 {
    prefix_hash(words, i + n).wrapping_sub(
        prefix_hash(words, i).wrapping_mul(base_power(n as nat)),
    )
}

/// The number of bytes of the words from `from` up to `to`.
pub open spec fn span_bytes(words: Seq<Seq<char>>, from: int, to: int) -> nat
    decreases to - from,
{
    if to <= from {
        0
    } else {
        span_bytes(words, from, to - 1) + byte_len(words[to - 1])
    }
}

/// As `repeat_scan`, with n-grams told apart by their hashes alone.
pub open spec fn hashed_scan(
    words: Seq<Seq<char>>,
    n: int,
    idx: int,
    seen: Set<u64>,
    acc: nat,
) -> nat
    decreases words.len() - idx,
{
    if n <= 0 || idx < 0 || idx + n > words.len() {
        acc
    } else {
        let hash = window_hash(words, idx, n);
        if seen.contains(hash) {
            hashed_scan(words, n, idx + n, seen, acc + span_bytes(words, idx, idx + n))
        } else {
            hashed_scan(words, n, idx + 1, seen.insert(hash), acc)
        }
    }
}

/// The hash of a word.
fn hash_word(word: &str) -> (h: u64)
    ensures
        h == word_hash(bytes_of(word@)),
{
    let bytes = word.as_bytes();
    let mut h: u64 = 0;
    let mut i: usize = 0;
    while i < bytes.len()
        invariant
            i <= bytes@.len(),
            h == word_hash(bytes@.take(i as int)),
        decreases bytes@.len() - i,
    {
        proof {
            assert(bytes@.take(i + 1).drop_last() =~= bytes@.take(i as int));
        }
        h = h.wrapping_mul(HASH_BASE).wrapping_add(bytes[i] as u64);
        i += 1;
    }
    proof {
        assert(bytes@.take(bytes@.len() as int) =~= bytes@);
    }
    h
}

/// Remembers a hash. Returns whether it is new.
fn remember(seen: &mut HashSet<u64>, hash: u64) -> (fresh: bool)
    ensures
        final(seen)@ == old(seen)@.insert(hash),
        fresh == !old(seen)@.contains(hash),
{
    broadcast use vstd::std_specs::hash::group_hash_axioms;

    seen.insert(hash)
}

/// The number of bytes of the `n` words from word `from` on.
fn window_len(lens: &Vec<usize>, from: usize, n: usize, Ghost(views): Ghost<Seq<Seq<char>>>) -> (len:
    u128)
    requires
        from + n <= lens@.len(),
        lens@.len() == views.len(),
        forall|k: int| 0 <= k < lens@.len() ==> #[trigger] lens@[k] == byte_len(views[k]),
    ensures
        len == span_bytes(views, from as int, from + n),
        len <= n * usize::MAX,
{
    let mut len: u128 = 0;
    let count: usize = lens.len();
    let mut j: usize = 0;
    while j < n
        invariant
            j <= n,
            count == lens@.len(),
            from + n <= lens@.len(),
            lens@.len() == views.len(),
            forall|k: int| 0 <= k < lens@.len() ==> #[trigger] lens@[k] == byte_len(views[k]),
            len == span_bytes(views, from as int, from + j),
            len <= j * usize::MAX,
        decreases n - j,
    {
        proof {
            assert(j * usize::MAX + usize::MAX == (j + 1) * usize::MAX) by (nonlinear_arith);
            assert((j + 1) * usize::MAX <= u128::MAX) by (nonlinear_arith)
                requires
                    0 <= j < usize::MAX,
                    usize::MAX <= u64::MAX,
            ;
        }
        len = len + lens[from + j] as u128;
        j += 1;
    }
    len
}

/// As `find_all_duplicate`, but with n-grams told apart by a rolling hash
/// of 64 bits, so that two different n-grams of the same hash count as
/// one. No n-grams of no words, and none where there are fewer words than
/// `n`. The sum stops at the largest machine word.
pub fn find_all_duplicate_fast(words: &[String], n: usize) -> (r: usize)
    ensures
        r == if words@.len() < n || n == 0 {
            0
        } else {
            clamped(hashed_scan(string_views(words@), n as int, 0, Set::empty(), 0))
        },
{
    let m: usize = words.len();
    if m < n || n == 0 {
        return 0;
    }
    let ghost views = string_views(words@);
    let mut pow: Vec<u64> = Vec::new();
    pow.push(1u64);
    let mut pref: Vec<u64> = Vec::new();
    pref.push(0u64);
    let mut lens: Vec<usize> = Vec::new();
    let mut i: usize = 0;
    while i < m
        invariant
            i <= m,
            m == words@.len(),
            views == string_views(words@),
            pow@.len() == i + 1,
            pref@.len() == i + 1,
            lens@.len() == i,
            forall|j: int| 0 <= j <= i ==> #[trigger] pow@[j] == base_power(j as nat),
            forall|j: int| 0 <= j <= i ==> #[trigger] pref@[j] == prefix_hash(views, j),
            forall|j: int| 0 <= j < i ==> #[trigger] lens@[j] == byte_len(views[j]),
        decreases m - i,
    {
        proof {
            assert(views[i as int] == words@[i as int]@);
        }
        let word = words[i].as_str();
        let next_pow: u64 = pow[i].wrapping_mul(HASH_BASE);
        let next_pref: u64 = pref[i].wrapping_mul(HASH_BASE).wrapping_add(hash_word(word));
        pow.push(next_pow);
        pref.push(next_pref);
        lens.push(str_len(word));
        i += 1;
    }
    let mut seen: HashSet<u64> = HashSet::new();
    let mut dup_chars: u128 = 0;
    let mut i: usize = 0;
    while i <= m - n
        invariant
            1 <= n <= m,
            m == views.len(),
            i <= m,
            pow@.len() == m + 1,
            pref@.len() == m + 1,
            lens@.len() == m,
            pow@[n as int] == base_power(n as nat),
            forall|j: int| 0 <= j <= m ==> #[trigger] pref@[j] == prefix_hash(views, j),
            forall|j: int| 0 <= j < m ==> #[trigger] lens@[j] == byte_len(views[j]),
            dup_chars <= i * usize::MAX,
            hashed_scan(views, n as int, 0, Set::empty(), 0) == hashed_scan(
                views,
                n as int,
                i as int,
                seen@,
                dup_chars as nat,
            ),
        decreases m - i,
    {
        let h: u64 = pref[i + n].wrapping_sub(pref[i].wrapping_mul(pow[n]));
        proof {
            assert(h == window_hash(views, i as int, n as int));
        }
        let ghost before = seen@;
        if !remember(&mut seen, h) {
            let repeated: u128 = window_len(&lens, i, n, Ghost(views));
            proof {
                assert(i * usize::MAX + n * usize::MAX == (i + n) * usize::MAX)
                    by (nonlinear_arith);
                assert((i + n) * usize::MAX <= u128::MAX) by (nonlinear_arith)
                    requires
                        0 <= i + n <= usize::MAX,
                        usize::MAX <= u64::MAX,
                ;
                assert(seen@ =~= before);
            }
            dup_chars = dup_chars + repeated;
            i = i + n;
        } else {
            proof {
                assert(i * usize::MAX <= (i + 1) * usize::MAX) by (nonlinear_arith);
            }
            i += 1;
        }
    }
    clamp(dup_chars)
}

/// The tokens into which the tokenizer for the language splits a text;
/// nothing if no tokenizer can be built.
pub uninterp spec fn vtext_tokens(lang: Seq<char>, text: Seq<char>) -> Option<Seq<Seq<char>>>;

/// Whether a character is a letter or a number, as Unicode defines them.
pub uninterp spec fn is_alphanumeric(c: char) -> bool;

/// The bytes of a straight apostrophe.
pub open spec fn straight_apostrophe() -> Seq<u8> {
    seq![0x27u8]
}

/// The bytes of a curly apostrophe.
pub open spec fn curly_apostrophe() -> Seq<u8> {
    seq![0xE2u8, 0x80u8, 0x99u8]
}

/// The bytes of `n't`, with a straight apostrophe.
pub open spec fn straight_not() -> Seq<u8> {
    seq![0x6Eu8, 0x27u8, 0x74u8]
}

/// The bytes of `n't`, with a curly apostrophe.
pub open spec fn curly_not() -> Seq<u8> {
    seq![0x6Eu8, 0xE2u8, 0x80u8, 0x99u8, 0x74u8]
}

/// Whether the tokenizer for English can split a segment at its
/// contraction. It takes the first apostrophe of the segment, a straight one
/// before a curly one, and where the segment ends in `n't` with that kind
/// of apostrophe it cuts one byte before it; so a character of one byte has
/// to stand there.
pub open spec fn contraction_splits(segment: Seq<u8>) -> bool {
    let straight = first_occurrence(segment, straight_apostrophe(), 0);
    let curly = first_occurrence(segment, curly_apostrophe(), 0);
    if straight >= 0 {
        has_suffix(segment, straight_not()) ==> straight >= 1 && segment[straight - 1] < 0x80
    } else if curly >= 0 {
        has_suffix(segment, curly_not()) ==> curly >= 1 && segment[curly - 1] < 0x80
    } else {
        true
    }
}

/// Whether the tokenizer for the language can work on the text: for
/// English, every word-boundary segment of the text splits at its
/// contraction; any other language makes no such cut.
pub open spec fn can_tokenize(lang: Seq<char>, text: Seq<char>) -> bool {
    lang == "en"@ ==> forall|i: int|
        0 <= i < word_bound_indices(text).len() ==> contraction_splits(
            bytes_of((#[trigger] word_bound_indices(text)[i]).1),
        )
}

/// `vtext::tokenize::VTextTokenizerParams` for the language, built, and
/// `Tokenizer::tokenize` on the text, collected. The tokens depend on
/// language and text alone. The tokenizer walks the word-boundary segments
/// of the text and, for English, slices a segment that ends in `n't` one
/// byte before its first apostrophe; it panics where that is no character
/// boundary, which the precondition leaves out.
#[verifier::external_body]
fn vtext_tokenize(text: &str, lang: &str) -> (tokens: Option<Vec<String>>)
    requires
        can_tokenize(lang@, text@),
    ensures
        tokens is Some <==> vtext_tokens(lang@, text@) is Some,
        tokens matches Some(t) ==> string_views(t@) == vtext_tokens(lang@, text@)->0,
{
    match VTextTokenizerParams::default().lang(lang).build() {
        Ok(tokenizer) => Some(tokenizer.tokenize(text).map(str::to_string).collect()),
        Err(_) => None,
    }
}

/// `char::is_alphanumeric`.
#[verifier::external_body]
fn char_is_alphanumeric(c: char) -> (b: bool)
    ensures
        b == is_alphanumeric(c),
{
    c.is_alphanumeric()
}

/// Whether a word stays when punctuation is ignored: it begins with a
/// letter or a number, or, unless white space is ignored too, with white
/// space.
pub open spec fn is_wordlike(word: Seq<char>, ignore_whitespace: bool) -> bool {
    word.len() > 0 && (is_alphanumeric(word[0]) || (!ignore_whitespace && is_white_space(word[0])))
}

/// The words as `split_words` returns them: trimmed if white space is
/// ignored, and only the word-like ones if punctuation is ignored.
pub open spec fn cleaned_words(
    tokens: Seq<Seq<char>>,
    ignore_punctuation: bool,
    ignore_whitespace: bool,
) -> Seq<Seq<char>>
    decreases tokens.len(),
{
    if tokens.len() == 0 {
        Seq::empty()
    } else {
        let rest = cleaned_words(tokens.drop_last(), ignore_punctuation, ignore_whitespace);
        let word = if ignore_whitespace {
            trimmed(tokens.last())
        } else {
            tokens.last()
        };
        if !ignore_punctuation || is_wordlike(word, ignore_whitespace) {
            rest.push(word)
        } else {
            rest
        }
    }
}

/// Why a text cannot be split into words.
#[derive(Clone, Copy, Debug, PartialEq, Eq, Structural)]
pub enum SplitError {
    /// No tokenizer could be built for the language.
    NoTokenizer,
    /// A segment of the text ends in `n't` and has no character of one byte
    /// before its first apostrophe, so that the tokenizer for English
    /// cannot split it.
    Contraction,
}

/// Whether the tokenizer for English can split a segment at its
/// contraction.
pub fn segment_splits(segment: &str) -> (safe: bool)
    ensures
        safe == contraction_splits(segment.spec_bytes()),
{
    let bytes = segment.as_bytes();
    let n: usize = bytes.len();
    let straight: Vec<u8> = vec![0x27u8];
    let curly: Vec<u8> = vec![0xE2u8, 0x80u8, 0x99u8];
    let straight_end: Vec<u8> = vec![0x6Eu8, 0x27u8, 0x74u8];
    let curly_end: Vec<u8> = vec![0x6Eu8, 0xE2u8, 0x80u8, 0x99u8, 0x74u8];
    proof {
        assert(straight@ =~= straight_apostrophe());
        assert(curly@ =~= curly_apostrophe());
        assert(straight_end@ =~= straight_not());
        assert(curly_end@ =~= curly_not());
    }
    match find_bytes(bytes, straight.as_slice(), 0) {
        Some(at) => {
            if n >= 3 && bytes_occur_at(bytes, straight_end.as_slice(), n - 3) {
                at >= 1 && bytes[at - 1] < 0x80
            } else {
                true
            }
        },
        None => match find_bytes(bytes, curly.as_slice(), 0) {
            Some(at) => {
                if n >= 5 && bytes_occur_at(bytes, curly_end.as_slice(), n - 5) {
                    at >= 1 && bytes[at - 1] < 0x80
                } else {
                    true
                }
            },
            None => true,
        },
    }
}

/// Whether the tokenizer for the language can work on the text.
pub fn text_can_be_tokenized(text: &str, lang: &str) -> (safe: bool)
    ensures
        safe == can_tokenize(lang@, text@),
{
    if !str_eq(lang, "en") {
        return true;
    }
    let segments = word_segments(text);
    let mut i: usize = 0;
    while i < segments.len()
        invariant
            i <= segments@.len(),
            lang@ == "en"@,
            located_views(segments@) == word_bound_indices(text@),
            forall|j: int|
                0 <= j < i ==> contraction_splits(
                    bytes_of((#[trigger] word_bound_indices(text@)[j]).1),
                ),
        decreases segments@.len() - i,
    {
        proof {
            assert(located_views(segments@)[i as int].1 == segments@[i as int].1@);
        }
        if !segment_splits(segments[i].1) {
            proof {
                assert(located_views(segments@).len() == segments@.len());
                assert(0 <= i < word_bound_indices(text@).len());
                assert(!contraction_splits(bytes_of(word_bound_indices(text@)[i as int].1)));
            }
            return false;
        }
        i += 1;
    }
    proof {
        assert(located_views(segments@).len() == segments@.len());
    }
    true
}

/// Cleans a list of tokens: trims each if white space is ignored, and
/// keeps only the word-like ones if punctuation is ignored.
pub fn clean_words(tokens: &Vec<String>, ignore_punctuation: bool, ignore_whitespace: bool) -> (r:
    Vec<String>)
    ensures
        string_views(r@) == cleaned_words(
            string_views(tokens@),
            ignore_punctuation,
            ignore_whitespace,
        ),
{
    let ghost views = string_views(tokens@);
    let mut out: Vec<String> = Vec::new();
    let mut i: usize = 0;
    proof {
        assert(string_views(out@) =~= Seq::empty());
    }
    while i < tokens.len()
        invariant
            i <= tokens@.len(),
            views == string_views(tokens@),
            string_views(out@) == cleaned_words(
                views.take(i as int),
                ignore_punctuation,
                ignore_whitespace,
            ),
        decreases tokens@.len() - i,
    {
        proof {
            assert(views.take(i + 1).drop_last() =~= views.take(i as int));
            assert(views[i as int] == tokens@[i as int]@);
        }
        let word: &str = if ignore_whitespace {
            trim(tokens[i].as_str())
        } else {
            tokens[i].as_str()
        };
        let keep: bool = if !ignore_punctuation {
            true
        } else if word.is_empty() {
            false
        } else {
            let first: char = word.get_char(0);
            char_is_alphanumeric(first) || (!ignore_whitespace && is_whitespace(first))
        };
        if keep {
            let ghost before = string_views(out@);
            out.push(String::from_str(word));
            proof {
                assert(string_views(out@) =~= before.push(word@));
            }
        }
        i += 1;
    }
    proof {
        assert(views.take(tokens@.len() as int) =~= views);
    }
    out
}

/// The words of a text: the words that the document already holds, if it
/// holds any, and else the tokens of the tokenizer for the language; in
/// either case cleaned as `clean_words` does. A text on which the
/// tokenizer cannot work is refused.
pub fn split_words(
    text: &str,
    cached: Option<&Vec<String>>,
    lang: &str,
    ignore_punctuation: bool,
    ignore_whitespace: bool,
) -> (r: Result<Vec<String>, SplitError>)
    ensures
        ({
            let held = match cached {
                Some(words) => string_views(words@),
                None => Seq::empty(),
            };
            if held.len() > 0 {
                r matches Ok(words) && string_views(words@) == cleaned_words(
                    held,
                    ignore_punctuation,
                    ignore_whitespace,
                )
            } else if !can_tokenize(lang@, text@) {
                r == Err::<Vec<String>, SplitError>(SplitError::Contraction)
            } else {
                match vtext_tokens(lang@, text@) {
                    Some(tokens) => r matches Ok(words) && string_views(words@) == cleaned_words(
                        tokens,
                        ignore_punctuation,
                        ignore_whitespace,
                    ),
                    None => r == Err::<Vec<String>, SplitError>(SplitError::NoTokenizer),
                }
            }
        }),
{
    match cached {
        Some(words) => {
            if words.len() > 0 {
                return Ok(clean_words(words, ignore_punctuation, ignore_whitespace));
            }
        },
        None => {},
    }
    if !text_can_be_tokenized(text, lang) {
        return Err(SplitError::Contraction);
    }
    match vtext_tokenize(text, lang) {
        Some(tokens) => Ok(clean_words(&tokens, ignore_punctuation, ignore_whitespace)),
        None => Err(SplitError::NoTokenizer),
    }
}

} // verus!
