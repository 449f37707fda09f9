//! Units: the slices of a text against which containment is measured. In
//! paragraph mode the text is cut at the byte offset of every line feed, so
//! that each paragraph but the first begins with its line feed; in document
//! mode the whole text is one unit.

use vstd::prelude::*;
use vstd::string::StringSliceAdditionalSpecFns;
use vstd::utf8::{decode_utf8, is_char_boundary, is_continuation_byte};

use crate::text::lemma_boundary_at;

verus! {

/// The byte of a line feed.
pub const LINE_FEED: u8 = 10;

/// The characters that the bytes from `start` up to `end` encode.
pub open spec fn slice_chars(bytes: Seq<u8>, start: int, end: int) -> Seq<char> {
    decode_utf8(bytes.subrange(start, end))
}

/// The offsets of the line feeds among the first `upto` bytes, ascending.
pub open spec fn newline_offsets(bytes: Seq<u8>, upto: int) -> Seq<usize>
    decreases upto,
{
    if upto <= 0 {
        Seq::empty()
    } else {
        let rest = newline_offsets(bytes, upto - 1);
        if bytes[upto - 1] == LINE_FEED {
            rest.push((upto - 1) as usize)
        } else {
            rest
        }
    }
}

/// The boundaries of the units of a text: zero and the length, and in
/// between, unless the whole document is one unit, the offset of every
/// line feed.
pub open spec fn unit_bounds(bytes: Seq<u8>, whole_document: bool) -> Seq<usize> {
    if whole_document {
        seq![0usize, bytes.len() as usize]
    } else {
        seq![0usize] + newline_offsets(bytes, bytes.len() as int) + seq![bytes.len() as usize]
    }
}

/// The boundaries run from zero to the length of the text without ever
/// going back, and each is a character boundary of the text.
pub open spec fn bounds_fit(text: &str, bounds: Seq<usize>) -> bool {
    &&& bounds.len() >= 2
    &&& bounds[0] == 0
    &&& bounds.last() == text.spec_bytes().len()
    &&& forall|i: int, j: int| 0 <= i <= j < bounds.len() ==> bounds[i] <= bounds[j]
    &&& forall|i: int|
        0 <= i < bounds.len() ==> is_char_boundary(text.spec_bytes(), #[trigger] bounds[i] as int)
}

/// The boundaries of the units of `text`.
pub fn unit_boundaries(text: &str, whole_document: bool) -> (bounds: Vec<usize>)
    ensures
        bounds@ == unit_bounds(text.spec_bytes(), whole_document),
        bounds_fit(text, bounds@),
{
    let bytes = text.as_bytes();
    let len: usize = bytes.len();
    let mut bounds: Vec<usize> = Vec::new();
    bounds.push(0);
    proof {
        lemma_boundary_at(text, 0);
        lemma_boundary_at(text, len as int);
    }
    if !whole_document {
        let mut i: usize = 0;
        while i < len
            invariant
                i <= len,
                len == bytes@.len(),
                bytes@ == text.spec_bytes(),
                bounds@ == seq![0usize] + newline_offsets(bytes@, i as int),
                forall|a: int, b: int| 0 <= a <= b < bounds@.len() ==> bounds@[a] <= bounds@[b],
                forall|a: int| 0 <= a < bounds@.len() ==> #[trigger] bounds@[a] <= i,
                forall|a: int|
                    0 <= a < bounds@.len() ==> is_char_boundary(
                        text.spec_bytes(),
                        #[trigger] bounds@[a] as int,
                    ),
            decreases len - i,
        {
            if bytes[i] == LINE_FEED {
                proof {
                    assert(!is_continuation_byte(bytes@[i as int]));
                    lemma_boundary_at(text, i as int);
                }
                bounds.push(i);
            }
            i += 1;
        }
    }
    bounds.push(len);
    proof {
        assert(bounds@ =~= unit_bounds(text.spec_bytes(), whole_document));
    }
    bounds
}

} // verus!
