//! What a deduplication engine is told and what it answers.

use vstd::prelude::*;

verus! {

/// What counts as a duplicate, and what is removed for it.
#[derive(Clone, Copy, Debug, PartialEq, Eq, Structural)]
pub enum RemoveType {
    /// Each paragraph of enough tokens is checked and removed by itself.
    Paragraph,
    /// The whole document is checked as one unit and removed as a whole.
    Document,
    /// Paragraphs are removed, and the whole document where enough of all
    /// its n-grams are known.
    Both,
    /// The document rule first, then the paragraph rule on what survives.
    NaiveBoth,
    /// The paragraph rule, then the document cleared where enough of all
    /// n-grams of the paragraphs were known.
    OldBoth,
    /// Runs of known n-grams are cut out of the text.
    Substring,
    /// The whole text is looked up as a single token.
    Exact,
}

/// The changes that an engine asks for on a document. Fields that are
/// `None`, or `false`, leave the document as it is.
#[derive(Debug)]
pub struct DocumentEdit {
    /// The new `text`.
    pub text: Option<String>,
    /// The new `bff_duplicate_spans`.
    pub duplicate_spans: Option<Vec<(usize, usize)>>,
    /// The new `bff_contained_ngram_count`.
    pub contained_ngram_count: Option<usize>,
    /// The new `bff_contained_ngram_count_before_dedupe`.
    pub contained_ngram_count_before_dedupe: Option<usize>,
    /// Whether `bff_exact_duplicate` is set to true.
    pub exact_duplicate: bool,
}

impl DocumentEdit {
    /// The edit that changes nothing.
    pub open spec fn is_unchanged(&self) -> bool {
        &&& self.text is None
        &&& self.duplicate_spans is None
        &&& self.contained_ngram_count is None
        &&& self.contained_ngram_count_before_dedupe is None
        &&& !self.exact_duplicate
    }

    /// The edit that replaces the text by `text` and nothing else.
    pub open spec fn is_text(&self, text: Seq<char>) -> bool {
        &&& self.text matches Some(t) && t@ == text
        &&& self.duplicate_spans is None
        &&& self.contained_ngram_count is None
        &&& self.contained_ngram_count_before_dedupe is None
        &&& !self.exact_duplicate
    }

    /// The edit that leaves the text alone and records what would have been
    /// removed.
    pub open spec fn is_annotation(&self, spans: Seq<(usize, usize)>, count: usize) -> bool {
        &&& self.text is None
        &&& self.duplicate_spans matches Some(s) && s@ == spans
        &&& self.contained_ngram_count == Some(count)
        &&& self.contained_ngram_count_before_dedupe is None
        &&& !self.exact_duplicate
    }

    /// The edit that changes nothing.
    pub fn unchanged() -> (edit: DocumentEdit)
        ensures
            edit.is_unchanged(),
    {
        DocumentEdit {
            text: None,
            duplicate_spans: None,
            contained_ngram_count: None,
            contained_ngram_count_before_dedupe: None,
            exact_duplicate: false,
        }
    }

    /// The edit that replaces the text.
    pub fn replace_text(text: String) -> (edit: DocumentEdit)
        ensures
            edit.is_text(text@),
    {
        DocumentEdit {
            text: Some(text),
            duplicate_spans: None,
            contained_ngram_count: None,
            contained_ngram_count_before_dedupe: None,
            exact_duplicate: false,
        }
    }

    /// The edit that records duplicate spans and the number of contained
    /// n-grams.
    pub fn annotation(spans: Vec<(usize, usize)>, count: usize) -> (edit: DocumentEdit)
        ensures
            edit.is_annotation(spans@, count),
    {
        DocumentEdit {
            text: None,
            duplicate_spans: Some(spans),
            contained_ngram_count: Some(count),
            contained_ngram_count_before_dedupe: None,
            exact_duplicate: false,
        }
    }
}

} // verus!
