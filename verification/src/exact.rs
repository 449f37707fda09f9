//! The exact engine: the whole text is looked up in the filter as a single
//! token.

use vstd::prelude::*;
use vstd::string::StringSliceAdditionalSpecFns;

use crate::bloom::{holds_all, ngram_hashes, with_hashes, BloomFilter};
use crate::document::DocumentEdit;
use crate::text::{str_len, str_views};

verus! {

/// The hashes under which the filter knows a whole text.
pub open spec fn text_hashes(seeds: Seq<[u64; 4]>, text: Seq<char>) -> Seq<u64> {
    ngram_hashes(seeds, seq![text])
}

/// What the exact engine does once the hashes of the text are known: a text
/// whose hashes are all contained is a duplicate, any other text is
/// inserted unless the filter is not to be updated. Returns the edit, the
/// number of removed bytes and the number of bytes of the text. A duplicate
/// has its text emptied, or, with `annotate`, is only marked.
pub fn judge_exact(
    filter: &mut BloomFilter,
    hashes: &Vec<u64>,
    total_bytes: usize,
    no_update_bloom_filter: bool,
    annotate: bool,
) -> (r: (DocumentEdit, usize, usize))
    requires
        old(filter).usable(),
    ensures
        ({
            let duplicate = old(filter).holds(hashes@);
            &&& r.2 == total_bytes
            &&& r.1 == if duplicate {
                total_bytes
            } else {
                0
            }
            &&& final(filter).seeds() == old(filter).seeds()
            &&& final(filter).words().len() == old(filter).words().len()
            &&& final(filter).words() == if !duplicate && !no_update_bloom_filter {
                with_hashes(old(filter).words(), hashes@)
            } else {
                old(filter).words()
            }
            &&& !duplicate ==> r.0.is_unchanged()
            &&& duplicate && !annotate ==> r.0.is_text(Seq::empty())
            &&& duplicate && annotate ==> {
                &&& r.0.text is None
                &&& r.0.duplicate_spans is None
                &&& r.0.contained_ngram_count is None
                &&& r.0.contained_ngram_count_before_dedupe is None
                &&& r.0.exact_duplicate
            }
        }),
{
    if filter.contains_hashes(hashes) {
        let edit = if annotate {
            DocumentEdit {
                text: None,
                duplicate_spans: None,
                contained_ngram_count: None,
                contained_ngram_count_before_dedupe: None,
                exact_duplicate: true,
            }
        } else {
            DocumentEdit::replace_text(String::new())
        };
        (edit, total_bytes, total_bytes)
    } else {
        if !no_update_bloom_filter {
            filter.insert_hashes(hashes);
        }
        (DocumentEdit::unchanged(), 0, total_bytes)
    }
}

/// What `process_line_exact` returns and leaves in the filter.
pub open spec fn process_line_exact_post(
    text: &str,
    seeds: Seq<[u64; 4]>,
    words: Seq<u32>,
    no_update_bloom_filter: bool,
    annotate: bool,
    r: (DocumentEdit, usize, usize),
    new_words: Seq<u32>,
) -> bool {
    let hashes = text_hashes(seeds, text@);
    let duplicate = holds_all(words, hashes);
    &&& r.2 == text.spec_bytes().len()
    &&& r.1 == if duplicate {
        text.spec_bytes().len()
    } else {
        0
    }
    &&& new_words.len() == words.len()
    &&& new_words == if !duplicate && !no_update_bloom_filter {
        with_hashes(words, hashes)
    } else {
        words
    }
    &&& !duplicate ==> r.0.is_unchanged()
    &&& duplicate && !annotate ==> r.0.is_text(Seq::empty())
    &&& duplicate && annotate ==> {
        &&& r.0.text is None
        &&& r.0.duplicate_spans is None
        &&& r.0.contained_ngram_count is None
        &&& r.0.contained_ngram_count_before_dedupe is None
        &&& r.0.exact_duplicate
    }
}

/// Deduplicates one text as a whole: the text is hashed as an n-gram of one
/// token and judged by `judge_exact`.
pub fn process_line_exact(
    text: &str,
    bloom_filter: &mut BloomFilter,
    no_update_bloom_filter: bool,
    annotate: bool,
) -> (r: (DocumentEdit, usize, usize))
    requires
        old(bloom_filter).usable(),
    ensures
        process_line_exact_post(
            text,
            old(bloom_filter).seeds(),
            old(bloom_filter).words(),
            no_update_bloom_filter,
            annotate,
            r,
            final(bloom_filter).words(),
        ),
        final(bloom_filter).seeds() == old(bloom_filter).seeds(),
        final(bloom_filter).words().len() == old(bloom_filter).words().len(),
{
    let mut gram: Vec<&str> = Vec::new();
    gram.push(text);
    proof {
        assert(str_views(gram@) =~= seq![text@]);
    }
    let hashes = bloom_filter.hashes(gram.as_slice());
    judge_exact(bloom_filter, &hashes, str_len(text), no_update_bloom_filter, annotate)
}

} // verus!
