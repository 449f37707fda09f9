//! One document at a time: the choice of the engine, and the tally that a
//! shard file keeps of its documents.

use vstd::prelude::*;
use vstd::string::StringSliceAdditionalSpecFns;

use crate::bloom::BloomFilter;
use crate::both::{process_line_both, process_line_both_post};
use crate::document::{DocumentEdit, RemoveType};
use crate::exact::{process_line_exact, process_line_exact_post};
use crate::paragraph::{
    pass, process_line, process_line_oldboth, process_line_oldboth_post, process_line_post,
    removed_length, text_units,
};
use crate::ratio::{clamp, clamped, Threshold};
use crate::substring::{process_line_substring, process_line_substring_post};
use crate::text::{trim, trimmed};
use crate::units::unit_bounds;

verus! {

/// How documents are deduplicated.
#[derive(Clone, Copy, Debug)]
pub struct DedupConfig {
    /// The fewest tokens that make a shingle of a short unit.
    pub min_ngram_size: usize,
    /// The number of tokens of a full shingle.
    pub max_ngram_size: usize,
    /// The fewest tokens of a duplicate substring.
    pub substr_seqlen: usize,
    /// The share of contained shingles that makes a duplicate.
    pub filtering_threshold: Threshold,
    /// The engine.
    pub remove_type: RemoveType,
    /// Whether the filter stays as it is.
    pub no_update_bloom_filter: bool,
    /// Whether documents are annotated instead of changed.
    pub annotate: bool,
}

/// The words of the filter after the document rule was applied to a text.
pub open spec fn words_after_document_rule(
    text: &str,
    seeds: Seq<[u64; 4]>,
    words: Seq<u32>,
    cfg: DedupConfig,
) -> Seq<u32> {
    let bounds = unit_bounds(text.spec_bytes(), true);
    pass(
        text_units(
            seeds,
            text.spec_bytes(),
            bounds,
            cfg.min_ngram_size as nat,
            cfg.max_ngram_size as nat,
        ),
        words,
        cfg.filtering_threshold,
        !cfg.no_update_bloom_filter,
        bounds.len() - 1,
    ).words
}

/// Whether the document rule removes a text that is not empty.
pub open spec fn document_rule_removes(
    text: &str,
    seeds: Seq<[u64; 4]>,
    words: Seq<u32>,
    cfg: DedupConfig,
) -> bool {
    let bounds = unit_bounds(text.spec_bytes(), true);
    removed_length(
        bounds,
        pass(
            text_units(
                seeds,
                text.spec_bytes(),
                bounds,
                cfg.min_ngram_size as nat,
                cfg.max_ngram_size as nat,
            ),
            words,
            cfg.filtering_threshold,
            !cfg.no_update_bloom_filter,
            bounds.len() - 1,
        ).removed,
        bounds.len() - 1,
    ) > 0
}

/// What `process_document` returns and leaves in the filter: what the
/// engine of the configuration does. The naive two-level engine applies the
/// document rule, and the paragraph rule to a text that the document rule
/// did not remove, against the filter as the document rule left it.
pub open spec fn process_document_post(
    text: &str,
    seeds: Seq<[u64; 4]>,
    words: Seq<u32>,
    cfg: DedupConfig,
    r: (DocumentEdit, usize, usize),
    new_words: Seq<u32>,
) -> bool {
    match cfg.remove_type {
        RemoveType::Exact => process_line_exact_post(
            text,
            seeds,
            words,
            cfg.no_update_bloom_filter,
            cfg.annotate,
            r,
            new_words,
        ),
        RemoveType::Substring => process_line_substring_post(
            text,
            seeds,
            words,
            cfg.max_ngram_size,
            cfg.no_update_bloom_filter,
            cfg.annotate,
            cfg.substr_seqlen,
            cfg.filtering_threshold,
            r,
            new_words,
        ),
        RemoveType::Both => process_line_both_post(
            text,
            seeds,
            words,
            cfg.min_ngram_size,
            cfg.max_ngram_size,
            cfg.filtering_threshold,
            cfg.no_update_bloom_filter,
            cfg.annotate,
            r,
            new_words,
        ),
        RemoveType::OldBoth => process_line_oldboth_post(
            text,
            seeds,
            words,
            cfg.min_ngram_size,
            cfg.max_ngram_size,
            cfg.filtering_threshold,
            cfg.no_update_bloom_filter,
            cfg.annotate,
            r,
            new_words,
        ),
        RemoveType::NaiveBoth => if document_rule_removes(text, seeds, words, cfg) {
            process_line_post(
                text,
                seeds,
                words,
                cfg.min_ngram_size,
                cfg.max_ngram_size,
                RemoveType::Document,
                cfg.filtering_threshold,
                cfg.no_update_bloom_filter,
                cfg.annotate,
                r,
                new_words,
            )
        } else {
            process_line_post(
                text,
                seeds,
                words_after_document_rule(text, seeds, words, cfg),
                cfg.min_ngram_size,
                cfg.max_ngram_size,
                RemoveType::Paragraph,
                cfg.filtering_threshold,
                cfg.no_update_bloom_filter,
                cfg.annotate,
                r,
                new_words,
            )
        },
        RemoveType::Paragraph => process_line_post(
            text,
            seeds,
            words,
            cfg.min_ngram_size,
            cfg.max_ngram_size,
            RemoveType::Paragraph,
            cfg.filtering_threshold,
            cfg.no_update_bloom_filter,
            cfg.annotate,
            r,
            new_words,
        ),
        RemoveType::Document => process_line_post(
            text,
            seeds,
            words,
            cfg.min_ngram_size,
            cfg.max_ngram_size,
            RemoveType::Document,
            cfg.filtering_threshold,
            cfg.no_update_bloom_filter,
            cfg.annotate,
            r,
            new_words,
        ),
    }
}

/// Deduplicates the text of one document with the engine that the
/// configuration names. Returns the edit to make on the document, and the
/// removed and total amounts that the engine reports. With `annotate` no
/// engine changes the text.
pub fn process_document(text: &str, bloom_filter: &mut BloomFilter, cfg: &DedupConfig) -> (r: (
    DocumentEdit,
    usize,
    usize,
))
    requires
        old(bloom_filter).usable(),
    ensures
        process_document_post(
            text,
            old(bloom_filter).seeds(),
            old(bloom_filter).words(),
            *cfg,
            r,
            final(bloom_filter).words(),
        ),
        final(bloom_filter).seeds() == old(bloom_filter).seeds(),
        final(bloom_filter).words().len() == old(bloom_filter).words().len(),
        cfg.annotate ==> r.0.text is None,
{
    match cfg.remove_type {
        RemoveType::Exact => process_line_exact(
            text,
            bloom_filter,
            cfg.no_update_bloom_filter,
            cfg.annotate,
        ),
        RemoveType::Substring => process_line_substring(
            text,
            bloom_filter,
            cfg.max_ngram_size,
            cfg.no_update_bloom_filter,
            cfg.annotate,
            cfg.substr_seqlen,
            cfg.filtering_threshold,
        ),
        RemoveType::Both => process_line_both(
            text,
            bloom_filter,
            cfg.min_ngram_size,
            cfg.max_ngram_size,
            cfg.filtering_threshold,
            cfg.no_update_bloom_filter,
            cfg.annotate,
        ),
        RemoveType::OldBoth => process_line_oldboth(
            text,
            bloom_filter,
            cfg.min_ngram_size,
            cfg.max_ngram_size,
            cfg.filtering_threshold,
            cfg.no_update_bloom_filter,
            cfg.annotate,
        ),
        RemoveType::NaiveBoth => {
            let first = process_line(
                text,
                bloom_filter,
                cfg.min_ngram_size,
                cfg.max_ngram_size,
                RemoveType::Document,
                cfg.filtering_threshold,
                cfg.no_update_bloom_filter,
                cfg.annotate,
            );
            if first.1 > 0 {
                first
            } else {
                process_line(
                    text,
                    bloom_filter,
                    cfg.min_ngram_size,
                    cfg.max_ngram_size,
                    RemoveType::Paragraph,
                    cfg.filtering_threshold,
                    cfg.no_update_bloom_filter,
                    cfg.annotate,
                )
            }
        },
        RemoveType::Paragraph => process_line(
            text,
            bloom_filter,
            cfg.min_ngram_size,
            cfg.max_ngram_size,
            RemoveType::Paragraph,
            cfg.filtering_threshold,
            cfg.no_update_bloom_filter,
            cfg.annotate,
        ),
        RemoveType::Document => process_line(
            text,
            bloom_filter,
            cfg.min_ngram_size,
            cfg.max_ngram_size,
            RemoveType::Document,
            cfg.filtering_threshold,
            cfg.no_update_bloom_filter,
            cfg.annotate,
        ),
    }
}

/// Whether an engine can run: the filter has a word for every hash to
/// select.
pub open spec fn can_process(words: Seq<u32>) -> bool {
    words.len() > 0
}

/// Deduplicates the text of one document as `process_document` does, or
/// does nothing and returns nothing where the engine cannot run.
pub fn try_process_document(text: &str, bloom_filter: &mut BloomFilter, cfg: &DedupConfig) -> (r:
    Option<(DocumentEdit, usize, usize)>)
    ensures
        r is Some <==> can_process(old(bloom_filter).words()),
        r matches Some(done) ==> process_document_post(
            text,
            old(bloom_filter).seeds(),
            old(bloom_filter).words(),
            *cfg,
            done,
            final(bloom_filter).words(),
        ) && (cfg.annotate ==> done.0.text is None),
        r is None ==> final(bloom_filter).words() == old(bloom_filter).words(),
        final(bloom_filter).seeds() == old(bloom_filter).seeds(),
        final(bloom_filter).words().len() == old(bloom_filter).words().len(),
{
    if bloom_filter.num_words() == 0 {
        return None;
    }
    Some(process_document(text, bloom_filter, cfg))
}

/// Whether a text is empty but for white space.
pub fn is_blank(text: &str) -> (b: bool)
    ensures
        b == (trimmed(text@).len() == 0),
{
    trim(text).is_empty()
}

/// What a shard file has seen of its documents so far.
#[derive(Clone, Copy, Debug, PartialEq, Eq, Structural)]
pub struct FileTally {
    /// The number of documents read.
    pub count: usize,
    /// The number of documents whose text came out blank.
    pub fully_skipped: usize,
    /// The sum of the removed amounts.
    pub removed_text_bytes: usize,
    /// The sum of the total amounts.
    pub total_text_bytes: usize,
}

/// The sum of two amounts, which stops at the largest machine word.
pub open spec fn sum_clamped(a: usize, b: usize) -> usize {
    clamped((a + b) as nat)
}

/// The sum of two amounts, which stops at the largest machine word.
pub fn add_clamped(a: usize, b: usize) -> (r: usize)
    ensures
        r == sum_clamped(a, b),
{
    clamp(a as u128 + b as u128)
}

impl FileTally {
    /// The tally of a file of which nothing was read yet.
    pub fn new() -> (t: FileTally)
        ensures
            t == (FileTally {
                count: 0,
                fully_skipped: 0,
                removed_text_bytes: 0,
                total_text_bytes: 0,
            }),
    {
        FileTally { count: 0, fully_skipped: 0, removed_text_bytes: 0, total_text_bytes: 0 }
    }

    /// The text of a document after its edit.
    pub open spec fn text_after(text: &str, edit: &DocumentEdit) -> Seq<char> {
        match edit.text {
            Some(t) => t@,
            None => text@,
        }
    }

    /// Takes note of one document and of what its engine reported. Returns
    /// whether the document goes to the output: a document whose text is
    /// blank after the edit is skipped.
    pub fn record(&mut self, text: &str, edit: &DocumentEdit, removed: usize, total: usize) -> (keep:
        bool)
        ensures
            keep == (trimmed(Self::text_after(text, edit)).len() != 0),
            *final(self) == (FileTally {
                count: sum_clamped(old(self).count, 1),
                fully_skipped: if keep {
                    old(self).fully_skipped
                } else {
                    sum_clamped(old(self).fully_skipped, 1)
                },
                removed_text_bytes: sum_clamped(old(self).removed_text_bytes, removed),
                total_text_bytes: sum_clamped(old(self).total_text_bytes, total),
            }),
    {
        let blank: bool = match &edit.text {
            Some(t) => is_blank(t.as_str()),
            None => is_blank(text),
        };
        self.count = add_clamped(self.count, 1);
        if blank {
            self.fully_skipped = add_clamped(self.fully_skipped, 1);
        }
        self.removed_text_bytes = add_clamped(self.removed_text_bytes, removed);
        self.total_text_bytes = add_clamped(self.total_text_bytes, total);
        !blank
    }

    /// Whether the file has anything to write: at least one of its
    /// documents was not skipped.
    pub fn has_output(&self) -> (b: bool)
        ensures
            b == (self.fully_skipped < self.count),
    {
        self.fully_skipped < self.count
    }
}

} // verus!
