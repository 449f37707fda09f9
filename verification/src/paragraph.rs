//! The paragraph and document engines: every unit of the text is judged by
//! the share of its shingles that the filter contains, removed where that
//! share is above the threshold, and inserted into the filter otherwise.

use vstd::prelude::*;
use vstd::string::StringExecFns;
use vstd::string::StringSliceAdditionalSpecFns;

use crate::bloom::{with_batches, BloomFilter};
use crate::document::{DocumentEdit, RemoveType};
use crate::ratio::{clamp, clamped, Threshold};
use crate::shingle::{
    contained_total, count_contained, hash_lists, hash_shingles, insert_all, shingle_hashes,
};
use crate::text::str_slice;
use crate::tokenize::{tokenize, tokens_of};
use crate::units::{bounds_fit, slice_chars, unit_boundaries, unit_bounds};

verus! {

/// A unit is removed when more of its shingles are contained than the
/// threshold allows. A unit without shingles stays.
pub open spec fn unit_removed(words: Seq<u32>, hashes: Seq<Seq<u64>>, threshold: Threshold) -> bool {
    threshold.is_exceeded(contained_total(words, hashes) as int, hashes.len() as int)
}

/// The words of the filter after a unit is judged: a unit that stays is
/// inserted, unless the filter is not to be updated.
pub open spec fn words_after_unit(
    words: Seq<u32>,
    hashes: Seq<Seq<u64>>,
    threshold: Threshold,
    update: bool,
) -> Seq<u32> {
    if update && !unit_removed(words, hashes, threshold) {
        with_batches(words, hashes)
    } else {
        words
    }
}

/// The hashes of the shingles of unit `k` of a text.
pub open spec fn unit_hashes(
    seeds: Seq<[u64; 4]>,
    bytes: Seq<u8>,
    bounds: Seq<usize>,
    k: int,
    min_ngram_size: nat,
    max_ngram_size: nat,
) -> Seq<Seq<u64>> {
    shingle_hashes(
        seeds,
        tokens_of(slice_chars(bytes, bounds[k] as int, bounds[k + 1] as int)),
        min_ngram_size,
        max_ngram_size,
    )
}

/// The hashes of the shingles of every unit of a text.
pub open spec fn text_units(
    seeds: Seq<[u64; 4]>,
    bytes: Seq<u8>,
    bounds: Seq<usize>,
    min_ngram_size: nat,
    max_ngram_size: nat,
) -> Seq<Seq<Seq<u64>>> {
    Seq::new(
        (bounds.len() - 1) as nat,
        |k: int| unit_hashes(seeds, bytes, bounds, k, min_ngram_size, max_ngram_size),
    )
}

/// Where a pass over the units of a text stands: the words of the filter,
/// which units were removed, and how many shingles were found contained.
pub struct PassState {
    pub words: Seq<u32>,
    pub removed: Seq<bool>,
    pub contained: nat,
    pub shingles: nat,
}

/// The state after the first `k` units have been judged in order, each
/// against the filter as the units before it left it.
pub open spec fn pass(
    units: Seq<Seq<Seq<u64>>>,
    words: Seq<u32>,
    threshold: Threshold,
    update: bool,
    k: int,
) -> PassState
    decreases k,
{
    if k <= 0 {
        PassState { words, removed: Seq::empty(), contained: 0, shingles: 0 }
    } else {
        let before = pass(units, words, threshold, update, k - 1);
        let hashes = units[k - 1];
        PassState {
            words: words_after_unit(before.words, hashes, threshold, update),
            removed: before.removed.push(unit_removed(before.words, hashes, threshold)),
            contained: before.contained + contained_total(before.words, hashes),
            shingles: before.shingles + hashes.len(),
        }
    }
}

/// The spans of the removed units among the first `k`.
pub open spec fn removed_spans(bounds: Seq<usize>, removed: Seq<bool>, k: int) -> Seq<
    (usize, usize),
>
    decreases k,
{
    if k <= 0 {
        Seq::empty()
    } else {
        let rest = removed_spans(bounds, removed, k - 1);
        if removed[k - 1] {
            rest.push((bounds[k - 1], bounds[k]))
        } else {
            rest
        }
    }
}

/// The summed length of the removed units among the first `k`.
pub open spec fn removed_length(bounds: Seq<usize>, removed: Seq<bool>, k: int) -> nat
    decreases k,
{
    if k <= 0 {
        0
    } else {
        removed_length(bounds, removed, k - 1) + if removed[k - 1] {
            (bounds[k] - bounds[k - 1]) as nat
        } else {
            0nat
        }
    }
}

/// The text of the first `k` units without the removed ones: the bytes of
/// every unit that stays, its leading line feed included, in order.
pub open spec fn kept_text(bytes: Seq<u8>, bounds: Seq<usize>, removed: Seq<bool>, k: int) -> Seq<
    char,
>
    decreases k,
{
    if k <= 0 {
        Seq::empty()
    } else {
        let rest = kept_text(bytes, bounds, removed, k - 1);
        if removed[k - 1] {
            rest
        } else {
            rest + slice_chars(bytes, bounds[k - 1] as int, bounds[k] as int)
        }
    }
}

/// Law: a pass that does not update the filter leaves it as it was, so a
/// second pass over the same text judges every unit as the first one did.
pub proof fn law_stable_filter_repeats(
    units: Seq<Seq<Seq<u64>>>,
    words: Seq<u32>,
    threshold: Threshold,
    k: int,
)
    ensures
        pass(units, words, threshold, false, k).words == words,
        pass(units, pass(units, words, threshold, false, k).words, threshold, false, k) == pass(
            units,
            words,
            threshold,
            false,
            k,
        ),
    decreases k,
{
    if k > 0 {
        law_stable_filter_repeats(units, words, threshold, k - 1);
    }
}

/// Judges one unit by the hashes of its shingles: counts the shingles that
/// the filter contains, removes the unit if their share is above the
/// threshold, and inserts all shingles of a unit that stays when `update`
/// is set.
pub fn judge_unit(
    filter: &mut BloomFilter,
    hashes: &Vec<Vec<u64>>,
    threshold: &Threshold,
    update: bool,
) -> (r: (bool, usize))
    requires
        old(filter).usable(),
    ensures
        r.0 == unit_removed(old(filter).words(), hash_lists(hashes@), *threshold),
        r.1 == contained_total(old(filter).words(), hash_lists(hashes@)),
        final(filter).words() == words_after_unit(
            old(filter).words(),
            hash_lists(hashes@),
            *threshold,
            update,
        ),
        final(filter).words().len() == old(filter).words().len(),
        final(filter).seeds() == old(filter).seeds(),
{
    let contained: usize = count_contained(filter, hashes);
    let removed: bool = threshold.exceeded_by(contained, hashes.len());
    if !removed && update {
        insert_all(filter, hashes);
    }
    (removed, contained)
}

/// What a pass over the units of a text found and did.
#[derive(Debug)]
pub struct PassOutcome {
    /// The spans of the removed units, in order.
    pub spans: Vec<(usize, usize)>,
    /// The text of the units that stay.
    pub kept: String,
    /// The number of bytes in removed units.
    pub removed_bytes: usize,
    /// The number of bytes in the text.
    pub total_bytes: usize,
    /// The number of units.
    pub total_units: usize,
    /// The number of shingles found contained, over all units.
    pub contained: usize,
    /// The number of shingles, over all units.
    pub shingles: usize,
}

/// Counts the removed units among the first `k`.
pub open spec fn removed_units(removed: Seq<bool>, k: int) -> nat
    decreases k,
{
    if k <= 0 {
        0
    } else {
        removed_units(removed, k - 1) + if removed[k - 1] {
            1nat
        } else {
            0nat
        }
    }
}

/// Judges the units of a text in order: paragraphs, or the whole document
/// as one unit. Every unit is tokenized and shingled, judged against the
/// filter as the units before it left it, and inserted if it stays and
/// `update` is set. The two counts of shingles stop at the largest machine
/// word.
pub fn unit_pass(
    text: &str,
    bloom_filter: &mut BloomFilter,
    min_ngram_size: usize,
    max_ngram_size: usize,
    whole_document: bool,
    filtering_threshold: Threshold,
    update: bool,
) -> (out: PassOutcome)
    requires
        old(bloom_filter).usable(),
    ensures
        ({
            let bytes = text.spec_bytes();
            let bounds = unit_bounds(bytes, whole_document);
            let units = text_units(
                old(bloom_filter).seeds(),
                bytes,
                bounds,
                min_ngram_size as nat,
                max_ngram_size as nat,
            );
            let n = bounds.len() - 1;
            let end = pass(units, old(bloom_filter).words(), filtering_threshold, update, n);
            &&& final(bloom_filter).words() == end.words
            &&& final(bloom_filter).seeds() == old(bloom_filter).seeds()
            &&& final(bloom_filter).words().len() == old(bloom_filter).words().len()
            &&& out.spans@ == removed_spans(bounds, end.removed, n)
            &&& out.spans@.len() == removed_units(end.removed, n)
            &&& out.kept@ == kept_text(bytes, bounds, end.removed, n)
            &&& out.removed_bytes == removed_length(bounds, end.removed, n)
            &&& out.total_bytes == bytes.len()
            &&& out.total_units == n
            &&& out.contained == clamped(end.contained)
            &&& out.shingles == clamped(end.shingles)
        }),
{
    let bounds = unit_boundaries(text, whole_document);
    let n: usize = bounds.len() - 1;
    let ghost bytes = text.spec_bytes();
    let ghost words0 = bloom_filter.words();
    let ghost units = text_units(
        bloom_filter.seeds(),
        bytes,
        bounds@,
        min_ngram_size as nat,
        max_ngram_size as nat,
    );
    let mut spans: Vec<(usize, usize)> = Vec::new();
    let mut output = String::new();
    let mut removed_bytes: usize = 0;
    let mut contained: u128 = 0;
    let mut shingles: u128 = 0;
    let ghost mut flags: Seq<bool> = Seq::empty();
    let mut k: usize = 0;
    while k < n
        invariant
            k <= n,
            n == bounds@.len() - 1,
            bounds_fit(text, bounds@),
            bytes == text.spec_bytes(),
            bloom_filter.usable(),
            bloom_filter.seeds() == old(bloom_filter).seeds(),
            bloom_filter.words().len() == old(bloom_filter).words().len(),
            words0 == old(bloom_filter).words(),
            units == text_units(
                old(bloom_filter).seeds(),
                bytes,
                bounds@,
                min_ngram_size as nat,
                max_ngram_size as nat,
            ),
            pass(units, words0, filtering_threshold, update, k as int) == (PassState {
                words: bloom_filter.words(),
                removed: flags,
                contained: contained as nat,
                shingles: shingles as nat,
            }),
            flags.len() == k,
            contained <= k * usize::MAX,
            shingles <= k * usize::MAX,
            spans@ == removed_spans(bounds@, flags, k as int),
            spans@.len() == removed_units(flags, k as int),
            output@ == kept_text(bytes, bounds@, flags, k as int),
            removed_bytes == removed_length(bounds@, flags, k as int),
            removed_bytes <= bounds@[k as int],
        decreases n - k,
    {
        let start: usize = bounds[k];
        let end: usize = bounds[k + 1];
        proof {
            assert(bounds@[k as int] <= bounds@[k + 1]);
            assert(bounds@[k + 1] <= bounds@[n as int]);
        }
        let paragraph = str_slice(text, start, end);
        let tokens = tokenize(paragraph);
        let hashes = hash_shingles(bloom_filter, &tokens, min_ngram_size, max_ngram_size);
        proof {
            assert(hash_lists(hashes@) == units[k as int]);
        }
        let (removed, found) = judge_unit(bloom_filter, &hashes, &filtering_threshold, update);
        proof {
            assert(k * usize::MAX + usize::MAX == (k + 1) * usize::MAX) by (nonlinear_arith);
            assert((k + 1) * usize::MAX <= u128::MAX) by (nonlinear_arith)
                requires
                    0 <= k < usize::MAX,
                    usize::MAX <= u64::MAX,
            ;
            let ghost earlier = flags;
            flags = flags.push(removed);
            lemma_frame(bytes, bounds@, earlier, flags, k as int);
            assert(flags[k as int] == removed);
        }
        contained = contained + found as u128;
        shingles = shingles + hashes.len() as u128;
        if removed {
            spans.push((start, end));
            removed_bytes = removed_bytes + (end - start);
        } else {
            output.append(paragraph);
        }
        k += 1;
    }
    PassOutcome {
        spans,
        kept: output,
        removed_bytes,
        total_bytes: bounds[n],
        total_units: n,
        contained: clamp(contained),
        shingles: clamp(shingles),
    }
}

/// What `process_line` returns and leaves in the filter.
pub open spec fn process_line_post(
    text: &str,
    seeds: Seq<[u64; 4]>,
    words: Seq<u32>,
    min_ngram_size: usize,
    max_ngram_size: usize,
    remove_type: RemoveType,
    filtering_threshold: Threshold,
    no_update_bloom_filter: bool,
    annotate: bool,
    r: (DocumentEdit, usize, usize),
    new_words: Seq<u32>,
) -> bool {
    let bytes = text.spec_bytes();
    let bounds = unit_bounds(bytes, remove_type == RemoveType::Document);
    let units = text_units(
        seeds,
        bytes,
        bounds,
        min_ngram_size as nat,
        max_ngram_size as nat,
    );
    let n = bounds.len() - 1;
    let end = pass(
        units,
        words,
        filtering_threshold,
        !no_update_bloom_filter,
        n,
    );
    let whole = remove_type == RemoveType::Both && filtering_threshold.is_exceeded(
        clamped(end.contained) as int,
        clamped(end.shingles) as int,
    );
    &&& new_words == end.words
    &&& new_words.len() == words.len()
    &&& r.1 == removed_length(bounds, end.removed, n)
    &&& r.2 == bytes.len()
    &&& annotate ==> r.0.is_annotation(
        if whole {
            seq![(0usize, bytes.len() as usize)]
        } else {
            removed_spans(bounds, end.removed, n)
        },
        clamped(end.contained),
    )
    &&& !annotate ==> r.0.is_text(
        if whole {
            Seq::<char>::empty()
        } else {
            kept_text(bytes, bounds, end.removed, n)
        },
    )
}

/// Deduplicates one text by units: paragraphs, or the whole document for
/// `RemoveType::Document`. Returns the edit to make, the number of bytes in
/// removed units and the number of bytes in the text. With `annotate` the
/// text stays and the removed spans are recorded with the number of
/// contained shingles; otherwise the text is replaced by its kept units.
/// For `RemoveType::Both` the whole text goes, as one span, where the share
/// of contained shingles over all paragraphs is above the threshold; the
/// number of removed bytes stays that of the removed paragraphs.
pub fn process_line(
    text: &str,
    bloom_filter: &mut BloomFilter,
    min_ngram_size: usize,
    max_ngram_size: usize,
    remove_type: RemoveType,
    filtering_threshold: Threshold,
    no_update_bloom_filter: bool,
    annotate: bool,
) -> (r: (DocumentEdit, usize, usize))
    requires
        old(bloom_filter).usable(),
    ensures
        process_line_post(
            text,
            old(bloom_filter).seeds(),
            old(bloom_filter).words(),
            min_ngram_size,
            max_ngram_size,
            remove_type,
            filtering_threshold,
            no_update_bloom_filter,
            annotate,
            r,
            final(bloom_filter).words(),
        ),
        final(bloom_filter).seeds() == old(bloom_filter).seeds(),
        final(bloom_filter).words().len() == old(bloom_filter).words().len(),
{
    let out = unit_pass(
        text,
        bloom_filter,
        min_ngram_size,
        max_ngram_size,
        remove_type == RemoveType::Document,
        filtering_threshold,
        !no_update_bloom_filter,
    );
    let whole: bool = remove_type == RemoveType::Both && filtering_threshold.exceeded_by(
        out.contained,
        out.shingles,
    );
    let edit = if annotate {
        let spans = if whole {
            let mut all: Vec<(usize, usize)> = Vec::new();
            all.push((0, out.total_bytes));
            proof {
                assert(all@ =~= seq![(0usize, out.total_bytes)]);
            }
            all
        } else {
            out.spans
        };
        DocumentEdit::annotation(spans, out.contained)
    } else {
        let kept = if whole {
            String::new()
        } else {
            out.kept
        };
        DocumentEdit::replace_text(kept)
    };
    (edit, out.removed_bytes, out.total_bytes)
}

/// What `process_line_oldboth` returns and leaves in the filter.
pub open spec fn process_line_oldboth_post(
    text: &str,
    seeds: Seq<[u64; 4]>,
    words: Seq<u32>,
    min_ngram_size: usize,
    max_ngram_size: usize,
    filtering_threshold: Threshold,
    no_update_bloom_filter: bool,
    annotate: bool,
    r: (DocumentEdit, usize, usize),
    new_words: Seq<u32>,
) -> bool {
    let bytes = text.spec_bytes();
    let bounds = unit_bounds(bytes, false);
    let units = text_units(
        seeds,
        bytes,
        bounds,
        min_ngram_size as nat,
        max_ngram_size as nat,
    );
    let n = bounds.len() - 1;
    let end = pass(
        units,
        words,
        filtering_threshold,
        !no_update_bloom_filter,
        n,
    );
    let cleared = filtering_threshold.is_exceeded(
        clamped(end.contained) as int,
        clamped(end.shingles) as int,
    );
    &&& new_words == end.words
    &&& new_words.len() == words.len()
    &&& r.1 == removed_units(end.removed, n)
    &&& r.2 == n
    &&& annotate ==> r.0.is_annotation(
        removed_spans(bounds, end.removed, n),
        clamped(end.contained),
    )
    &&& !annotate ==> {
        &&& r.0.text matches Some(t) && t@ == if cleared {
            Seq::<char>::empty()
        } else {
            kept_text(bytes, bounds, end.removed, n)
        }
        &&& r.0.duplicate_spans is None
        &&& r.0.contained_ngram_count is None
        &&& r.0.contained_ngram_count_before_dedupe == Some(clamped(end.contained))
        &&& !r.0.exact_duplicate
    }
}

/// The paragraph rule as it was before the two-level engine: paragraphs
/// are judged as `process_line` judges them, and the whole text is cleared
/// where, over all paragraphs, the share of contained shingles is above the
/// threshold. Returns the edit, the number of removed paragraphs and the
/// number of paragraphs. With `annotate` only the removed paragraphs are
/// recorded; otherwise the number of contained shingles goes with the new
/// text.
pub fn process_line_oldboth(
    text: &str,
    bloom_filter: &mut BloomFilter,
    min_ngram_size: usize,
    max_ngram_size: usize,
    filtering_threshold: Threshold,
    no_update_bloom_filter: bool,
    annotate: bool,
) -> (r: (DocumentEdit, usize, usize))
    requires
        old(bloom_filter).usable(),
    ensures
        process_line_oldboth_post(
            text,
            old(bloom_filter).seeds(),
            old(bloom_filter).words(),
            min_ngram_size,
            max_ngram_size,
            filtering_threshold,
            no_update_bloom_filter,
            annotate,
            r,
            final(bloom_filter).words(),
        ),
        final(bloom_filter).seeds() == old(bloom_filter).seeds(),
        final(bloom_filter).words().len() == old(bloom_filter).words().len(),
{
    let out = unit_pass(
        text,
        bloom_filter,
        min_ngram_size,
        max_ngram_size,
        false,
        filtering_threshold,
        !no_update_bloom_filter,
    );
    let removed_items: usize = out.spans.len();
    let total_items: usize = out.total_units;
    let edit = if annotate {
        DocumentEdit::annotation(out.spans, out.contained)
    } else {
        let new_text = if filtering_threshold.exceeded_by(out.contained, out.shingles) {
            String::new()
        } else {
            out.kept
        };
        DocumentEdit {
            text: Some(new_text),
            duplicate_spans: None,
            contained_ngram_count: None,
            contained_ngram_count_before_dedupe: Some(out.contained),
            exact_duplicate: false,
        }
    };
    (edit, removed_items, total_items)
}

/// What is rendered of the first `k` units depends on the flags of those
/// units alone.
pub proof fn lemma_frame(
    bytes: Seq<u8>,
    bounds: Seq<usize>,
    a: Seq<bool>,
    b: Seq<bool>,
    k: int,
)
    requires
        forall|j: int| 0 <= j < k ==> a[j] == b[j],
    ensures
        removed_spans(bounds, a, k) == removed_spans(bounds, b, k),
        removed_length(bounds, a, k) == removed_length(bounds, b, k),
        removed_units(a, k) == removed_units(b, k),
        kept_text(bytes, bounds, a, k) == kept_text(bytes, bounds, b, k),
    decreases k,
{
    if k > 0 {
        lemma_frame(bytes, bounds, a, b, k - 1);
    }
}

/// Renders the judgement of the units of a text: the spans of the removed
/// units, the text of the units that stay, and the number of bytes in
/// removed units.
pub fn render_units(text: &str, bounds: &Vec<usize>, removed: &Vec<bool>) -> (r: (
    Vec<(usize, usize)>,
    String,
    usize,
))
    requires
        bounds_fit(text, bounds@),
        removed@.len() == bounds@.len() - 1,
    ensures
        r.0@ == removed_spans(bounds@, removed@, removed@.len() as int),
        r.1@ == kept_text(text.spec_bytes(), bounds@, removed@, removed@.len() as int),
        r.2 == removed_length(bounds@, removed@, removed@.len() as int),
{
    let n: usize = removed.len();
    let mut spans: Vec<(usize, usize)> = Vec::new();
    let mut output = String::new();
    let mut removed_bytes: usize = 0;
    let mut k: usize = 0;
    while k < n
        invariant
            k <= n,
            n == removed@.len(),
            n == bounds@.len() - 1,
            bounds_fit(text, bounds@),
            spans@ == removed_spans(bounds@, removed@, k as int),
            output@ == kept_text(text.spec_bytes(), bounds@, removed@, k as int),
            removed_bytes == removed_length(bounds@, removed@, k as int),
            removed_bytes <= bounds@[k as int],
        decreases n - k,
    {
        let start: usize = bounds[k];
        let end: usize = bounds[k + 1];
        proof {
            assert(bounds@[k as int] <= bounds@[k + 1]);
            assert(bounds@[k + 1] <= bounds@[n as int]);
        }
        if removed[k] {
            spans.push((start, end));
            removed_bytes = removed_bytes + (end - start);
        } else {
            output.append(str_slice(text, start, end));
        }
        k += 1;
    }
    (spans, output, removed_bytes)
}

/// Law: the paragraph engine repeats itself on a filter that it does not
/// update. Whatever two runs of `process_line` on the same text return,
/// the second after the first and neither updating the filter, the filter
/// is after each as it was before, and the second run returns what a first
/// run would: the same removed and total bytes, and an edit of which the
/// same holds.
pub proof fn law_paragraph_mode_repeats(
    text: &str,
    seeds: Seq<[u64; 4]>,
    words: Seq<u32>,
    min_ngram_size: usize,
    max_ngram_size: usize,
    remove_type: RemoveType,
    filtering_threshold: Threshold,
    annotate: bool,
    first: (DocumentEdit, usize, usize),
    words_after_first: Seq<u32>,
    second: (DocumentEdit, usize, usize),
    words_after_second: Seq<u32>,
)
    requires
        process_line_post(
            text,
            seeds,
            words,
            min_ngram_size,
            max_ngram_size,
            remove_type,
            filtering_threshold,
            true,
            annotate,
            first,
            words_after_first,
        ),
        process_line_post(
            text,
            seeds,
            words_after_first,
            min_ngram_size,
            max_ngram_size,
            remove_type,
            filtering_threshold,
            true,
            annotate,
            second,
            words_after_second,
        ),
    ensures
        words_after_first == words,
        words_after_second == words,
        second.1 == first.1,
        second.2 == first.2,
        process_line_post(
            text,
            seeds,
            words,
            min_ngram_size,
            max_ngram_size,
            remove_type,
            filtering_threshold,
            true,
            annotate,
            second,
            words_after_second,
        ),
{
    let bytes = text.spec_bytes();
    let bounds = unit_bounds(bytes, remove_type == RemoveType::Document);
    let units = text_units(seeds, bytes, bounds, min_ngram_size as nat, max_ngram_size as nat);
    law_stable_filter_repeats(units, words, filtering_threshold, bounds.len() - 1);
}

} // verus!
