//! The substring engine: runs of shingles that the filter contains are cut
//! out of the text, token by token, where they are long enough.

use vstd::prelude::*;
use vstd::string::StringExecFns;
use vstd::string::StringSliceAdditionalSpecFns;
use vstd::utf8::is_char_boundary;

use crate::bloom::{holds_all, with_batches, BloomFilter};
use crate::document::DocumentEdit;
use crate::intervals::{
    bounded_by, fuzzy_sandwich, fuzzy_sandwich_intervals, interleave_from, invert_intervals,
    inverted, keep_wide, lemma_fuzzy_sandwich, lemma_interleave, lemma_inverted, lemma_merge_run,
    lemma_merge_run_bounds, lemma_merged, lemma_wide_enough, merge_intervals, merge_run,
    merge_sorted_interval_pair, separated, sorted_by_start, sorted_disjoint, starts_bounded_by,
    well_formed, wide_enough,
};
use crate::ratio::Threshold;
use crate::shingle::{
    contained_count, contained_total, hash_lists, hash_shingles, shingle_hashes, shingles,
    window_size,
};
use crate::text::{lemma_boundary_at, str_len, str_slice, str_views, trim_end, trimmed_end};
use crate::tokenize::{indexed_tokens, located_views, segments_fit, tokenize_indices, tokens_of};
use crate::units::slice_chars;

verus! {

/// The runs of consecutive contained shingles among the first `upto`, as
/// half-open ranges of shingle indices.
pub open spec fn contained_runs(words: Seq<u32>, hashes: Seq<Seq<u64>>, upto: int) -> Seq<
    (usize, usize),
>
    decreases upto,
{
    if upto <= 0 {
        Seq::empty()
    } else {
        let rest = contained_runs(words, hashes, upto - 1);
        let idx = (upto - 1) as usize;
        if !holds_all(words, hashes[upto - 1]) {
            rest
        } else if rest.len() > 0 && rest.last().1 == idx {
            rest.drop_last().push((rest.last().0, (idx + 1) as usize))
        } else {
            rest.push((idx, (idx + 1) as usize))
        }
    }
}

/// The tokens that runs of shingles span: a shingle takes in the
/// `max_ngram_size - 1` tokens behind its first one.
pub open spec fn widened(runs: Seq<(usize, usize)>, max_ngram_size: usize) -> Seq<(usize, usize)> {
    runs.map_values(|r: (usize, usize)| (r.0, (r.1 + max_ngram_size - 1) as usize))
}

/// Below a threshold of one, intervals are joined across small gaps by a
/// fuzzy scan from either end, and the two results coalesced.
pub open spec fn fuzzy_joined(v: Seq<(usize, usize)>, threshold: Threshold) -> Seq<(usize, usize)> {
    if threshold.is_fraction() {
        merge_run(
            interleave_from(
                fuzzy_sandwich(v, true, threshold),
                fuzzy_sandwich(v, false, threshold),
                0,
                0,
            ),
        )
    } else {
        v
    }
}

/// The token intervals that count as duplicate: the coalesced spans of the
/// contained shingles, joined across small gaps, of at least
/// `substr_seqlen` tokens.
pub open spec fn duplicate_tokens(
    words: Seq<u32>,
    hashes: Seq<Seq<u64>>,
    max_ngram_size: usize,
    substr_seqlen: usize,
    threshold: Threshold,
) -> Seq<(usize, usize)> {
    wide_enough(
        fuzzy_joined(
            merge_run(widened(contained_runs(words, hashes, hashes.len() as int), max_ngram_size)),
            threshold,
        ),
        substr_seqlen,
    )
}

/// The hashes of the shingles that lie wholly within a token interval.
pub open spec fn window_hashes(hashes: Seq<Seq<u64>>, iv: (usize, usize), max_ngram_size: usize) -> Seq<
    Seq<u64>,
> {
    if iv.0 + max_ngram_size <= iv.1 {
        hashes.subrange(iv.0 as int, iv.1 - max_ngram_size + 1)
    } else {
        Seq::empty()
    }
}

/// The words of the filter after the shingles within each of the first `k`
/// kept intervals have been inserted.
pub open spec fn words_after_kept(
    words: Seq<u32>,
    hashes: Seq<Seq<u64>>,
    kept: Seq<(usize, usize)>,
    max_ngram_size: usize,
    k: int,
) -> Seq<u32>
    decreases k,
{
    if k <= 0 {
        words
    } else {
        with_batches(
            words_after_kept(words, hashes, kept, max_ngram_size, k - 1),
            window_hashes(hashes, kept[k - 1], max_ngram_size),
        )
    }
}

/// The byte offset at which each token starts, and behind them the length
/// of the text.
pub open spec fn token_offsets(located: Seq<(int, Seq<char>)>, len: int) -> Seq<usize> {
    Seq::new(
        located.len() + 1,
        |i: int|
            if i < located.len() {
                located[i].0 as usize
            } else {
                len as usize
            },
    )
}

/// Token intervals as byte intervals of the text.
pub open spec fn to_bytes(intervals: Seq<(usize, usize)>, offsets: Seq<usize>) -> Seq<
    (usize, usize),
> {
    intervals.map_values(|iv: (usize, usize)| (offsets[iv.0 as int], offsets[iv.1 as int]))
}

/// The characters of the first `k` byte intervals, one behind the other.
pub open spec fn joined_slices(bytes: Seq<u8>, intervals: Seq<(usize, usize)>, k: int) -> Seq<char>
    decreases k,
{
    if k <= 0 {
        Seq::empty()
    } else {
        joined_slices(bytes, intervals, k - 1) + slice_chars(
            bytes,
            intervals[k - 1].0 as int,
            intervals[k - 1].1 as int,
        )
    }
}

/// The summed width of the first `k` intervals.
pub open spec fn covered_length(intervals: Seq<(usize, usize)>, k: int) -> int
    decreases k,
{
    if k <= 0 {
        0
    } else {
        covered_length(intervals, k - 1) + (intervals[k - 1].1 - intervals[k - 1].0)
    }
}

/// The runs of consecutive contained shingles, and the number of contained
/// shingles.
pub fn find_contained_runs(filter: &BloomFilter, hashes: &Vec<Vec<u64>>) -> (r: (
    Vec<(usize, usize)>,
    usize,
))
    requires
        filter.usable(),
    ensures
        r.0@ == contained_runs(filter.words(), hash_lists(hashes@), hashes@.len() as int),
        r.1 == contained_total(filter.words(), hash_lists(hashes@)),
        well_formed(r.0@),
        separated(r.0@),
        bounded_by(r.0@, hashes@.len() as int),
{
    let mut runs: Vec<(usize, usize)> = Vec::new();
    let mut count: usize = 0;
    let mut idx: usize = 0;
    while idx < hashes.len()
        invariant
            filter.usable(),
            idx <= hashes@.len(),
            runs@ == contained_runs(filter.words(), hash_lists(hashes@), idx as int),
            count == contained_count(filter.words(), hash_lists(hashes@), idx as int),
            count <= idx,
            well_formed(runs@),
            separated(runs@),
            bounded_by(runs@, idx as int),
        decreases hashes@.len() - idx,
    {
        proof {
            assert(hash_lists(hashes@)[idx as int] == hashes@[idx as int]@);
        }
        if filter.contains_hashes(&hashes[idx]) {
            count += 1;
            let n: usize = runs.len();
            let ghost before = runs@;
            if n > 0 && runs[n - 1].1 == idx {
                let (start, _) = runs[n - 1];
                runs.pop();
                runs.push((start, idx + 1));
                proof {
                    assert forall|i: int| 0 <= i < runs@.len() implies (#[trigger] runs@[i]).0
                        <= runs@[i].1 && runs@[i].1 <= idx + 1 by {
                        if i < n - 1 {
                            assert(runs@[i] == before[i]);
                        } else {
                            assert(before[n - 1].0 <= before[n - 1].1);
                        }
                    }
                    assert forall|i: int, j: int| 0 <= i < j < runs@.len() implies (
                    #[trigger] runs@[i]).1 < (#[trigger] runs@[j]).0 by {
                        assert(runs@[i] == before[i]);
                        assert(before[i].1 < before[j].0);
                    }
                }
            } else {
                runs.push((idx, idx + 1));
                proof {
                    assert forall|i: int| 0 <= i < runs@.len() implies (#[trigger] runs@[i]).0
                        <= runs@[i].1 && runs@[i].1 <= idx + 1 by {
                        if i < n {
                            assert(runs@[i] == before[i]);
                        }
                    }
                    assert forall|i: int, j: int| 0 <= i < j < runs@.len() implies (
                    #[trigger] runs@[i]).1 < (#[trigger] runs@[j]).0 by {
                        assert(runs@[i] == before[i]);
                        if j < n {
                            assert(runs@[j] == before[j]);
                        } else {
                            assert(before[i].1 <= before[n - 1].1) by {
                                if i < n - 1 {
                                    assert(before[i].1 < before[n - 1].0);
                                    assert(before[n - 1].0 <= before[n - 1].1);
                                }
                            }
                            assert(before[n - 1].1 <= idx);
                        }
                    }
                }
            }
        } else {
            proof {
                assert forall|i: int| 0 <= i < runs@.len() implies (#[trigger] runs@[i]).1 <= idx
                    + 1 by {}
            }
        }
        idx += 1;
    }
    (runs, count)
}

/// The token intervals that runs of shingles span, where a shingle holds
/// `max_ngram_size` tokens: at least one.
pub fn widen_runs(runs: &Vec<(usize, usize)>, max_ngram_size: usize, shingle_count: usize) -> (r:
    Vec<(usize, usize)>)
    requires
        max_ngram_size >= 1,
        shingle_count + max_ngram_size - 1 <= usize::MAX,
        well_formed(runs@),
        separated(runs@),
        bounded_by(runs@, shingle_count as int),
    ensures
        r@ == widened(runs@, max_ngram_size),
        well_formed(r@),
        sorted_by_start(r@),
        bounded_by(r@, shingle_count + max_ngram_size - 1),
{
    let mut out: Vec<(usize, usize)> = Vec::new();
    let mut i: usize = 0;
    while i < runs.len()
        invariant
            i <= runs@.len(),
            max_ngram_size >= 1,
            shingle_count + max_ngram_size - 1 <= usize::MAX,
            well_formed(runs@),
            separated(runs@),
            bounded_by(runs@, shingle_count as int),
            out@.len() == i,
            forall|j: int|
                0 <= j < i ==> #[trigger] out@[j] == (
                    runs@[j].0,
                    (runs@[j].1 + max_ngram_size - 1) as usize,
                ),
        decreases runs@.len() - i,
    {
        let (s, e) = runs[i];
        proof {
            assert(runs@[i as int].1 <= shingle_count);
        }
        out.push((s, e + (max_ngram_size - 1)));
        i += 1;
    }
    proof {
        assert(out@ =~= widened(runs@, max_ngram_size));
        assert forall|j: int| 0 <= j < out@.len() implies (#[trigger] out@[j]).0 <= out@[j].1
            && out@[j].1 <= shingle_count + max_ngram_size - 1 by {
            assert(runs@[j].0 <= runs@[j].1);
            assert(runs@[j].1 <= shingle_count);
        }
        assert forall|a: int, b: int| 0 <= a < b < out@.len() implies (#[trigger] out@[a]).0 <= (
        #[trigger] out@[b]).0 by {
            assert(runs@[a].1 < runs@[b].0);
            assert(runs@[a].0 <= runs@[a].1);
        }
    }
    out
}

/// Joins coalesced intervals across small gaps where the threshold is below
/// one, and leaves them as they are otherwise.
pub fn join_fuzzy(v: Vec<(usize, usize)>, threshold: Threshold, limit: usize) -> (r: Vec<
    (usize, usize),
>)
    requires
        well_formed(v@),
        separated(v@),
        bounded_by(v@, limit as int),
    ensures
        r@ == fuzzy_joined(v@, threshold),
        well_formed(r@),
        separated(r@),
        bounded_by(r@, limit as int),
{
    if threshold.less_than_one() {
        proof {
            assert(sorted_disjoint(v@)) by {
                assert forall|i: int, j: int| 0 <= i < j < v@.len() implies (#[trigger] v@[i]).1
                    <= (#[trigger] v@[j]).0 by {
                    assert(v@[i].1 < v@[j].0);
                }
            }
            lemma_fuzzy_sandwich(v@, true, threshold, limit as int);
            lemma_fuzzy_sandwich(v@, false, threshold, limit as int);
        }
        let forward = fuzzy_sandwich_intervals(&v, true, threshold);
        let backward = fuzzy_sandwich_intervals(&v, false, threshold);
        proof {
            let mixed = interleave_from(forward@, backward@, 0, 0);
            lemma_interleave(forward@, backward@, 0, 0, limit as int);
            lemma_merge_run(mixed);
            assert(starts_bounded_by(mixed, usize::MAX as int));
            lemma_merge_run_bounds(mixed, usize::MAX as int, limit as int);
        }
        merge_sorted_interval_pair(forward, backward)
    } else {
        v
    }
}

/// Decides which tokens of a text are duplicate, from the hashes of its
/// shingles: returns the duplicate token intervals, the intervals in
/// between, and the number of contained shingles. Every duplicate interval
/// holds at least `substr_seqlen` tokens. A shingle holds `max_ngram_size`
/// tokens, at least one, so that the shingles and the tokens of the text
/// count up as the third condition says.
pub fn plan_substring(
    filter: &BloomFilter,
    hashes: &Vec<Vec<u64>>,
    total_tokens: usize,
    max_ngram_size: usize,
    substr_seqlen: usize,
    fuzzy_threshold: Threshold,
) -> (r: (Vec<(usize, usize)>, Vec<(usize, usize)>, usize))
    requires
        filter.usable(),
        max_ngram_size >= 1,
        hashes@.len() + max_ngram_size - 1 == total_tokens,
    ensures
        r.0@ == duplicate_tokens(
            filter.words(),
            hash_lists(hashes@),
            max_ngram_size,
            substr_seqlen,
            fuzzy_threshold,
        ),
        r.1@ == inverted(r.0@, total_tokens),
        r.2 == contained_total(filter.words(), hash_lists(hashes@)),
        well_formed(r.0@),
        separated(r.0@),
        bounded_by(r.0@, total_tokens as int),
        forall|i: int| 0 <= i < r.0@.len() ==> (#[trigger] r.0@[i]).1 - r.0@[i].0 >= substr_seqlen,
        sorted_disjoint(r.1@),
        bounded_by(r.1@, total_tokens as int),
{
    let (runs, count) = find_contained_runs(filter, hashes);
    let spans = widen_runs(&runs, max_ngram_size, hashes.len());
    proof {
        lemma_merged(spans@, true, total_tokens as int);
    }
    let merged = merge_intervals(spans, true);
    let joined = join_fuzzy(merged, fuzzy_threshold, total_tokens);
    proof {
        lemma_wide_enough(joined@, substr_seqlen, total_tokens as int);
    }
    let wide = keep_wide(&joined, substr_seqlen);
    proof {
        lemma_inverted(wide@, total_tokens);
    }
    let (duplicate, kept) = invert_intervals(wide, true, total_tokens);
    (duplicate, kept, count)
}

/// Inserts the shingles that lie wholly within one of the kept token
/// intervals, interval by interval. A shingle holds `max_ngram_size`
/// tokens, at least one.
pub fn insert_kept_windows(
    filter: &mut BloomFilter,
    hashes: &Vec<Vec<u64>>,
    kept: &Vec<(usize, usize)>,
    max_ngram_size: usize,
)
    requires
        old(filter).usable(),
        max_ngram_size >= 1,
        well_formed(kept@),
        bounded_by(kept@, hashes@.len() + max_ngram_size - 1),
    ensures
        final(filter).words() == words_after_kept(
            old(filter).words(),
            hash_lists(hashes@),
            kept@,
            max_ngram_size,
            kept@.len() as int,
        ),
        final(filter).words().len() == old(filter).words().len(),
        final(filter).seeds() == old(filter).seeds(),
{
    let ghost lists = hash_lists(hashes@);
    let mut k: usize = 0;
    while k < kept.len()
        invariant
            k <= kept@.len(),
            max_ngram_size >= 1,
            lists == hash_lists(hashes@),
            well_formed(kept@),
            bounded_by(kept@, hashes@.len() + max_ngram_size - 1),
            filter.usable(),
            filter.words().len() == old(filter).words().len(),
            filter.seeds() == old(filter).seeds(),
            filter.words() == words_after_kept(
                old(filter).words(),
                lists,
                kept@,
                max_ngram_size,
                k as int,
            ),
        decreases kept@.len() - k,
    {
        let (s, e) = kept[k];
        let ghost start_words = filter.words();
        proof {
            assert(kept@[k as int].0 <= kept@[k as int].1);
            assert(kept@[k as int].1 <= hashes@.len() + max_ngram_size - 1);
        }
        if e >= max_ngram_size && s <= e - max_ngram_size {
            let stop: usize = e - max_ngram_size + 1;
            let mut i: usize = s;
            while i < stop
                invariant
                    s <= i <= stop,
                    stop <= hashes@.len(),
                    lists == hash_lists(hashes@),
                    filter.usable(),
                    filter.words().len() == old(filter).words().len(),
                    filter.seeds() == old(filter).seeds(),
                    filter.words() == with_batches(start_words, lists.subrange(s as int, i as int)),
                decreases stop - i,
            {
                proof {
                    assert(lists.subrange(s as int, i + 1).drop_last() =~= lists.subrange(
                        s as int,
                        i as int,
                    ));
                    assert(lists[i as int] == hashes@[i as int]@);
                }
                filter.insert_hashes(&hashes[i]);
                i += 1;
            }
        } else {
            proof {
                assert(window_hashes(lists, kept@[k as int], max_ngram_size) =~= Seq::empty());
            }
        }
        k += 1;
    }
}

/// Token intervals as byte intervals of the text.
pub fn to_byte_intervals(intervals: &Vec<(usize, usize)>, offsets: &Vec<usize>) -> (r: Vec<
    (usize, usize),
>)
    requires
        bounded_by(intervals@, offsets@.len() - 1),
        well_formed(intervals@),
    ensures
        r@ == to_bytes(intervals@, offsets@),
{
    let mut out: Vec<(usize, usize)> = Vec::new();
    let mut i: usize = 0;
    while i < intervals.len()
        invariant
            i <= intervals@.len(),
            bounded_by(intervals@, offsets@.len() - 1),
            well_formed(intervals@),
            out@.len() == i,
            forall|j: int|
                0 <= j < i ==> #[trigger] out@[j] == (
                    offsets@[intervals@[j].0 as int],
                    offsets@[intervals@[j].1 as int],
                ),
        decreases intervals@.len() - i,
    {
        let (s, e) = intervals[i];
        proof {
            assert(intervals@[i as int].0 <= intervals@[i as int].1);
            assert(intervals@[i as int].1 <= offsets@.len() - 1);
        }
        out.push((offsets[s], offsets[e]));
        i += 1;
    }
    proof {
        assert(out@ =~= to_bytes(intervals@, offsets@));
    }
    out
}

/// The byte intervals are ordered parts of the text that start and end at
/// character boundaries.
pub open spec fn slices_fit(text: &str, intervals: Seq<(usize, usize)>) -> bool {
    &&& forall|i: int|
        0 <= i < intervals.len() ==> {
            let (s, e) = #[trigger] intervals[i];
            &&& s <= e <= text.spec_bytes().len()
            &&& is_char_boundary(text.spec_bytes(), s as int)
            &&& is_char_boundary(text.spec_bytes(), e as int)
        }
    &&& forall|i: int, j: int|
        0 <= i < j < intervals.len() ==> (#[trigger] intervals[i]).1 <= (#[trigger] intervals[j]).0
}

/// The parts of the text that the byte intervals name, one behind the
/// other, and their summed length.
pub fn join_slices(text: &str, intervals: &Vec<(usize, usize)>) -> (r: (String, usize))
    requires
        slices_fit(text, intervals@),
    ensures
        r.0@ == joined_slices(text.spec_bytes(), intervals@, intervals@.len() as int),
        r.1 == covered_length(intervals@, intervals@.len() as int),
        r.1 <= text.spec_bytes().len(),
{
    let mut out = String::new();
    let mut len: usize = 0;
    let mut k: usize = 0;
    while k < intervals.len()
        invariant
            k <= intervals@.len(),
            slices_fit(text, intervals@),
            out@ == joined_slices(text.spec_bytes(), intervals@, k as int),
            len == covered_length(intervals@, k as int),
            k == 0 ==> len == 0,
            k > 0 ==> len <= intervals@[k - 1].1,
        decreases intervals@.len() - k,
    {
        let (s, e) = intervals[k];
        proof {
            assert(intervals@[k as int].0 <= intervals@[k as int].1);
            if k > 0 {
                assert(intervals@[k - 1].1 <= intervals@[k as int].0);
            }
        }
        out.append(str_slice(text, s, e));
        len = len + (e - s);
        k += 1;
    }
    proof {
        if intervals@.len() > 0 {
            assert(intervals@[intervals@.len() - 1].1 <= text.spec_bytes().len());
        }
    }
    (out, len)
}

/// The offsets never go back, stay within the text and are character
/// boundaries of it.
pub open spec fn offsets_fit(text: &str, offsets: Seq<usize>) -> bool {
    &&& forall|i: int, j: int| 0 <= i <= j < offsets.len() ==> offsets[i] <= offsets[j]
    &&& forall|i: int|
        0 <= i < offsets.len() ==> #[trigger] offsets[i] <= text.spec_bytes().len()
            && is_char_boundary(text.spec_bytes(), offsets[i] as int)
}

/// Byte intervals made of fitting offsets from ordered token intervals are
/// ordered parts of the text.
pub proof fn lemma_to_bytes_fit(text: &str, intervals: Seq<(usize, usize)>, offsets: Seq<usize>)
    requires
        offsets_fit(text, offsets),
        sorted_disjoint(intervals),
        bounded_by(intervals, offsets.len() - 1),
    ensures
        slices_fit(text, to_bytes(intervals, offsets)),
{
    let mapped = to_bytes(intervals, offsets);
    assert forall|i: int| 0 <= i < mapped.len() implies {
        let (s, e) = #[trigger] mapped[i];
        &&& s <= e <= text.spec_bytes().len()
        &&& is_char_boundary(text.spec_bytes(), s as int)
        &&& is_char_boundary(text.spec_bytes(), e as int)
    } by {
        assert(intervals[i].0 <= intervals[i].1);
        assert(intervals[i].1 <= offsets.len() - 1);
    }
    assert forall|i: int, j: int| 0 <= i < j < mapped.len() implies (#[trigger] mapped[i]).1 <= (
    #[trigger] mapped[j]).0 by {
        assert(intervals[i].1 <= intervals[j].0);
        assert(intervals[j].0 <= intervals[j].1);
        assert(intervals[j].1 <= offsets.len() - 1);
    }
}

/// What `process_line_substring` returns and leaves in the filter.
pub open spec fn process_line_substring_post(
    text: &str,
    seeds: Seq<[u64; 4]>,
    words: Seq<u32>,
    max_ngram_size: usize,
    no_update_bloom_filter: bool,
    annotate: bool,
    substr_seqlen: usize,
    fuzzy_threshold: Threshold,
    r: (DocumentEdit, usize, usize),
    new_words: Seq<u32>,
) -> bool {
    let bytes = text.spec_bytes();
    let located = indexed_tokens(text@);
    let window = window_size(max_ngram_size as nat) as usize;
    let hashes = shingle_hashes(seeds, tokens_of(text@), window as nat, window as nat);
    let offsets = token_offsets(located, bytes.len() as int);
    let duplicate = duplicate_tokens(words, hashes, window, substr_seqlen, fuzzy_threshold);
    let kept = inverted(duplicate, located.len() as usize);
    let kept_bytes = to_bytes(kept, offsets);
    &&& new_words.len() == words.len()
    &&& r.2 == bytes.len()
    &&& hashes.len() == 0 ==> {
        &&& r.0.is_unchanged()
        &&& r.1 == 0
        &&& new_words == words
    }
    &&& hashes.len() > 0 ==> {
        &&& new_words == if no_update_bloom_filter {
            words
        } else {
            words_after_kept(words, hashes, kept, window, kept.len() as int)
        }
        &&& r.1 == bytes.len() - covered_length(kept_bytes, kept_bytes.len() as int)
        &&& annotate ==> r.0.is_annotation(
            to_bytes(duplicate, offsets),
            contained_total(words, hashes) as usize,
        )
        &&& !annotate ==> r.0.is_text(
            trimmed_end(joined_slices(bytes, kept_bytes, kept_bytes.len() as int)),
        )
        &&& forall|i: int|
            0 <= i < duplicate.len() ==> (#[trigger] duplicate[i]).1 - duplicate[i].0
                >= substr_seqlen
    }
}

/// Deduplicates one text by substrings. The text is tokenized and every
/// window of `max_ngram_size` tokens hashed, every single token where that
/// is zero; a text with fewer tokens is left alone. Runs of contained shingles become token intervals, which are
/// coalesced, joined across small gaps where the threshold is below one,
/// and kept as duplicate where they hold at least `substr_seqlen` tokens.
/// The shingles within the other intervals are inserted, unless the filter
/// is not to be updated. Returns the edit, the number of removed bytes and
/// the number of bytes of the text. With `annotate` the duplicate byte intervals are
/// recorded with the number of contained shingles; otherwise the text is
/// replaced by what lies between them, without white space at its end.
pub fn process_line_substring(
    text: &str,
    bloom_filter: &mut BloomFilter,
    max_ngram_size: usize,
    no_update_bloom_filter: bool,
    annotate: bool,
    substr_seqlen: usize,
    fuzzy_threshold: Threshold,
) -> (r: (DocumentEdit, usize, usize))
    requires
        old(bloom_filter).usable(),
    ensures
        process_line_substring_post(
            text,
            old(bloom_filter).seeds(),
            old(bloom_filter).words(),
            max_ngram_size,
            no_update_bloom_filter,
            annotate,
            substr_seqlen,
            fuzzy_threshold,
            r,
            final(bloom_filter).words(),
        ),
        final(bloom_filter).seeds() == old(bloom_filter).seeds(),
        final(bloom_filter).words().len() == old(bloom_filter).words().len(),
{
    let located = tokenize_indices(text);
    let total_tokens: usize = located.len();
    let total_bytes: usize = str_len(text);
    let mut tokens: Vec<&str> = Vec::new();
    let mut offsets: Vec<usize> = Vec::new();
    let mut i: usize = 0;
    while i < total_tokens
        invariant
            i <= total_tokens,
            total_tokens == located@.len(),
            segments_fit(text, located@),
            tokens@.len() == i,
            offsets@.len() == i,
            forall|j: int| 0 <= j < i ==> #[trigger] tokens@[j] == located@[j].1,
            forall|j: int| 0 <= j < i ==> #[trigger] offsets@[j] == located@[j].0,
        decreases total_tokens - i,
    {
        offsets.push(located[i].0);
        tokens.push(located[i].1);
        i += 1;
    }
    proof {
        assert(str_views(tokens@) =~= tokens_of(text@)) by {
            assert(str_views(tokens@) =~= located_views(located@).map_values(
                |p: (int, Seq<char>)| p.1,
            ));
        }
    }
    let window: usize = if max_ngram_size == 0 {
        1
    } else {
        max_ngram_size
    };
    let hashes = hash_shingles(bloom_filter, &tokens, window, window);
    if hashes.len() == 0 {
        return (DocumentEdit::unchanged(), 0, total_bytes);
    }
    offsets.push(total_bytes);
    proof {
        let grams = shingles(tokens_of(text@), window as nat, window as nat);
        assert(hash_lists(hashes@).len() == grams.len());
        assert(grams.len() == total_tokens - window + 1);
        lemma_boundary_at(text, total_bytes as int);
        assert(offsets@ =~= token_offsets(indexed_tokens(text@), total_bytes as int)) by {
            assert forall|j: int| 0 <= j < offsets@.len() implies offsets@[j] == token_offsets(
                located_views(located@),
                total_bytes as int,
            )[j] by {
                if j < total_tokens {
                    assert(located_views(located@)[j].0 == located@[j].0);
                }
            }
        }
        assert(offsets_fit(text, offsets@)) by {
            assert forall|a: int| 0 <= a < offsets@.len() implies #[trigger] offsets@[a]
                <= text.spec_bytes().len() && is_char_boundary(
                text.spec_bytes(),
                offsets@[a] as int,
            ) by {
                if a < total_tokens {
                    assert(located@[a].0 + located@[a].1.spec_bytes().len()
                        <= text.spec_bytes().len());
                }
            }
            assert forall|a: int, b: int| 0 <= a <= b < offsets@.len() implies offsets@[a]
                <= offsets@[b] by {
                if a < b && b < total_tokens {
                    assert(located@[a].0 + located@[a].1.spec_bytes().len() <= located@[b].0);
                } else if a < b {
                    assert(located@[a].0 + located@[a].1.spec_bytes().len()
                        <= text.spec_bytes().len());
                }
            }
        }
    }
    let (duplicate, kept, count) = plan_substring(
        bloom_filter,
        &hashes,
        total_tokens,
        window,
        substr_seqlen,
        fuzzy_threshold,
    );
    if !no_update_bloom_filter {
        insert_kept_windows(bloom_filter, &hashes, &kept, window);
    }
    proof {
        lemma_to_bytes_fit(text, kept@, offsets@);
    }
    let kept_bytes = to_byte_intervals(&kept, &offsets);
    let (output, kept_len) = join_slices(text, &kept_bytes);
    let edit = if annotate {
        DocumentEdit::annotation(to_byte_intervals(&duplicate, &offsets), count)
    } else {
        let trimmed = trim_end(output.as_str());
        DocumentEdit::replace_text(String::from_str(trimmed))
    };
    (edit, total_bytes - kept_len, total_bytes)
}

} // verus!
