//! Tokens: the word-like segments of a text, with the byte offsets at which
//! they start.

use unicode_segmentation::UnicodeSegmentation;
use vstd::prelude::*;
use vstd::string::StringSliceAdditionalSpecFns;
use vstd::utf8::is_char_boundary;

use crate::text::{byte_len, has_visible_char, is_white_space, is_whitespace, str_views};

verus! {

/// The segments into which the Unicode word-boundary rules split a text,
/// each with the byte offset at which it starts. They depend on the text
/// alone.
pub uninterp spec fn word_bound_indices(text: Seq<char>) -> Seq<(int, Seq<char>)>;

/// Offsets and characters of a list of located string slices.
pub open spec fn located_views(items: Seq<(usize, &str)>) -> Seq<(int, Seq<char>)> {
    items.map_values(|p: (usize, &str)| (p.0 as int, p.1@))
}

/// The segments are parts of the text: each starts at a character boundary,
/// holds the bytes of the text from its offset on, and ends before the next
/// one starts.
pub open spec fn segments_fit(text: &str, segs: Seq<(usize, &str)>) -> bool {
    &&& forall|i: int|
        0 <= i < segs.len() ==> {
            let (offset, part) = #[trigger] segs[i];
            &&& offset + part.spec_bytes().len() <= text.spec_bytes().len()
            &&& is_char_boundary(text.spec_bytes(), offset as int)
            &&& part.spec_bytes() == text.spec_bytes().subrange(
                offset as int,
                offset + part.spec_bytes().len(),
            )
        }
    &&& forall|i: int, j: int|
        0 <= i < j < segs.len() ==> (#[trigger] segs[i]).0 + segs[i].1.spec_bytes().len() <= (
        #[trigger] segs[j]).0
}

/// The segments cover the text without gap: the first starts at the start
/// of the text, each ends where the next one starts, and the last ends at
/// the end of the text. A text without segments is empty.
pub open spec fn segments_tile(text: Seq<char>, segs: Seq<(int, Seq<char>)>) -> bool {
    &&& segs.len() == 0 ==> byte_len(text) == 0
    &&& segs.len() > 0 ==> segs[0].0 == 0 && segs.last().0 + byte_len(segs.last().1) == byte_len(
        text,
    )
    &&& forall|i: int|
        0 <= i < segs.len() - 1 ==> (#[trigger] segs[i]).0 + byte_len(segs[i].1) == segs[i + 1].0
}

/// The segments that hold a character other than white space.
pub open spec fn visible_segments(segs: Seq<(int, Seq<char>)>) -> Seq<(int, Seq<char>)>
    decreases segs.len(),
{
    if segs.len() == 0 {
        Seq::empty()
    } else {
        let rest = visible_segments(segs.drop_last());
        if has_visible_char(segs.last().1) {
            rest.push(segs.last())
        } else {
            rest
        }
    }
}

/// The tokens of a text with their byte offsets: its word-boundary segments
/// but for those that are white space only.
pub open spec fn indexed_tokens(text: Seq<char>) -> Seq<(int, Seq<char>)> {
    visible_segments(word_bound_indices(text))
}

/// The tokens of a text.
pub open spec fn tokens_of(text: Seq<char>) -> Seq<Seq<char>> {
    indexed_tokens(text).map_values(|p: (int, Seq<char>)| p.1)
}

/// `UnicodeSegmentation::split_word_bound_indices`, collected: the
/// substrings of the text between word boundaries, in order, each with the
/// byte offset at which it starts in the text. Each segment is cut off the
/// front of what is left of the text, so that the segments cover the text
/// without gap.
#[verifier::external_body]
fn split_word_bound_indices<'a>(s: &'a str) -> (r: Vec<(usize, &'a str)>)
    ensures
        located_views(r@) == word_bound_indices(s@),
        segments_fit(s, r@),
        segments_tile(s@, located_views(r@)),
{
    s.split_word_bound_indices().collect()
}

/// The segments into which the word-boundary rules split `s`, white space
/// and all, with the byte offsets at which they start. They cover `s`
/// without gap.
pub fn word_segments<'a>(s: &'a str) -> (r: Vec<(usize, &'a str)>)
    ensures
        located_views(r@) == word_bound_indices(s@),
        segments_fit(s, r@),
        segments_tile(s@, word_bound_indices(s@)),
{
    split_word_bound_indices(s)
}

/// Whether some character of `w` is not white space.
pub fn not_whitespace(w: &str) -> (b: bool)
    ensures
        b == has_visible_char(w@),
{
    for c in it: w.chars()
        invariant
            it.seq() == w@,
            forall|j: int| 0 <= j < it.index() ==> is_white_space(#[trigger] w@[j]),
    {
        if !is_whitespace(c) {
            return true;
        }
    }
    false
}

/// The tokens of `s` with the byte offsets at which they start: the
/// segments of `s` that are not white space only. The segments cover `s`
/// without gap, so that what lies between the tokens is white space.
pub fn tokenize_indices<'a>(s: &'a str) -> (r: Vec<(usize, &'a str)>)
    ensures
        located_views(r@) == indexed_tokens(s@),
        segments_fit(s, r@),
        segments_tile(s@, word_bound_indices(s@)),
{
    let segs = word_segments(s);
    let mut out: Vec<(usize, &'a str)> = Vec::new();
    let mut i: usize = 0;
    while i < segs.len()
        invariant
            i <= segs@.len(),
            segments_fit(s, segs@),
            segments_fit(s, out@),
            located_views(out@) == visible_segments(located_views(segs@).take(i as int)),
            forall|a: int, j: int|
                0 <= a < out@.len() && i <= j < segs@.len() ==> (#[trigger] out@[a]).0
                    + out@[a].1.spec_bytes().len() <= (#[trigger] segs@[j]).0,
        decreases segs@.len() - i,
    {
        let (offset, part) = segs[i];
        proof {
            assert(located_views(segs@).take(i + 1).drop_last() =~= located_views(segs@).take(
                i as int,
            ));
            assert(located_views(segs@)[i as int] == (offset as int, part@));
        }
        if not_whitespace(part) {
            let ghost before = out@;
            out.push((offset, part));
            proof {
                assert(located_views(out@) =~= located_views(before).push((offset as int, part@)));
                assert forall|a: int| 0 <= a < out@.len() implies {
                    let (o, p) = #[trigger] out@[a];
                    &&& o + p.spec_bytes().len() <= s.spec_bytes().len()
                    &&& is_char_boundary(s.spec_bytes(), o as int)
                    &&& p.spec_bytes() == s.spec_bytes().subrange(
                        o as int,
                        o + p.spec_bytes().len(),
                    )
                } by {
                    if a < before.len() {
                        assert(out@[a] == before[a]);
                    } else {
                        assert(out@[a] == segs@[i as int]);
                    }
                }
                assert forall|a: int, b: int| 0 <= a < b < out@.len() implies (
                #[trigger] out@[a]).0 + out@[a].1.spec_bytes().len() <= (#[trigger] out@[b]).0 by {
                    assert(out@[a] == before[a]);
                    if b < before.len() {
                        assert(out@[b] == before[b]);
                    } else {
                        assert(out@[b] == segs@[i as int]);
                    }
                }
                assert forall|a: int, j: int|
                    0 <= a < out@.len() && i + 1 <= j < segs@.len() implies (
                #[trigger] out@[a]).0 + out@[a].1.spec_bytes().len() <= (#[trigger] segs@[j]).0 by {
                    if a < before.len() {
                        assert(out@[a] == before[a]);
                    } else {
                        assert(out@[a] == segs@[i as int]);
                    }
                }
            }
        }
        i += 1;
    }
    proof {
        assert(located_views(segs@).take(segs@.len() as int) =~= located_views(segs@));
    }
    out
}

/// The tokens of `s`: its word-boundary segments but for those that are
/// white space only. The same text always gives the same tokens.
pub fn tokenize<'a>(s: &'a str) -> (r: Vec<&'a str>)
    ensures
        str_views(r@) == tokens_of(s@),
{
    let located = tokenize_indices(s);
    let mut out: Vec<&'a str> = Vec::new();
    let mut i: usize = 0;
    while i < located.len()
        invariant
            i <= located@.len(),
            out@.len() == i,
            forall|j: int| 0 <= j < i ==> #[trigger] out@[j] == located@[j].1,
        decreases located@.len() - i,
    {
        out.push(located[i].1);
        i += 1;
    }
    proof {
        assert(str_views(out@) =~= located_views(located@).map_values(
            |p: (int, Seq<char>)| p.1,
        ));
    }
    out
}

} // verus!
