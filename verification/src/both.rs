//! The two-level engine: paragraphs are removed by the share of their own
//! contained shingles, the whole document where the share over all shingles
//! reaches the threshold. Shingles that cross a paragraph boundary belong to
//! no paragraph; they are inserted only where no paragraph they might touch
//! was removed.

use vstd::prelude::*;
use vstd::string::StringExecFns;
use vstd::string::StringSliceAdditionalSpecFns;

use crate::bloom::{
    with_batches, with_hashes, BloomFilter,
};
use crate::document::DocumentEdit;
use crate::paragraph::{kept_text, removed_length, removed_spans, render_units};
use crate::ratio::Threshold;
use crate::shingle::{
    contained_count, contained_total, count_contained, hash_lists, hash_shingles, insert_all,
    shingle_hashes, window_size,
};
use crate::substring::token_offsets;
use crate::text::{str_len, str_views, trim_end, trimmed_end};
use crate::tokenize::{indexed_tokens, located_views, tokenize_indices, tokens_of};
use crate::units::{unit_boundaries, unit_bounds};

verus! {

/// The last of the first `upto` units that starts at or before offset `t`.
pub open spec fn unit_of(bounds: Seq<usize>, t: usize, upto: int) -> int
    decreases upto,
{
    if upto <= 1 {
        0
    } else if bounds[upto - 1] <= t {
        upto - 1
    } else {
        unit_of(bounds, t, upto - 1)
    }
}

/// The paragraph that shingle `i` lies in: the one in which its first token
/// starts, if its last token starts there too; `-1` for a shingle that
/// crosses a paragraph boundary. `starts` holds the byte offset of each
/// token.
pub open spec fn home(bounds: Seq<usize>, starts: Seq<usize>, window: int, i: int) -> int {
    let k = unit_of(bounds, starts[i], bounds.len() - 1);
    if starts[i + window - 1] < bounds[k + 1] {
        k
    } else {
        -1
    }
}

/// The shingles among the first `upto` whose home is `k`, in order.
pub open spec fn members(
    bounds: Seq<usize>,
    starts: Seq<usize>,
    window: int,
    k: int,
    upto: int,
) -> Seq<usize>
    decreases upto,
{
    if upto <= 0 {
        Seq::empty()
    } else {
        let rest = members(bounds, starts, window, k, upto - 1);
        if home(bounds, starts, window, upto - 1) == k {
            rest.push((upto - 1) as usize)
        } else {
            rest
        }
    }
}

/// The hash lists at the given indices.
pub open spec fn picked(hashes: Seq<Seq<u64>>, indices: Seq<usize>) -> Seq<Seq<u64>> {
    indices.map_values(|i: usize| hashes[i as int])
}

/// A unit of the two-level engine is removed when the share of its
/// contained shingles reaches the threshold. A unit without shingles stays.
pub open spec fn share_reached(words: Seq<u32>, hashes: Seq<Seq<u64>>, threshold: Threshold) -> bool {
    threshold.is_reached(contained_total(words, hashes) as int, hashes.len() as int)
}

/// What the engine knows of a text once its shingles are sorted by
/// paragraph.
pub struct Sorted {
    /// The hashes of every full shingle, in the order of the text.
    pub windows: Seq<Seq<u64>>,
    /// For every full shingle, the byte offset of its last token.
    pub last_starts: Seq<usize>,
    /// For every paragraph, its full shingles.
    pub paragraphs: Seq<Seq<usize>>,
    /// The shingles that cross a paragraph boundary.
    pub overflow: Seq<usize>,
    /// The hashes of the one shingle of a text too short for a full one.
    pub short_text: Seq<Seq<u64>>,
    /// The boundaries of the paragraphs.
    pub bounds: Seq<usize>,
}

impl Sorted {
    /// The hashes of the shingles of paragraph `k`.
    pub open spec fn paragraph_hashes(self, k: int) -> Seq<Seq<u64>> {
        picked(self.windows, self.paragraphs[k])
    }

    /// Whether paragraph `k` is removed, judged against the filter as it
    /// was before the text.
    pub open spec fn paragraph_removed(self, words: Seq<u32>, threshold: Threshold, k: int) -> bool {
        share_reached(words, self.paragraph_hashes(k), threshold)
    }

    /// The flags of removal of the first `k` paragraphs.
    pub open spec fn removed_flags(self, words: Seq<u32>, threshold: Threshold, k: int) -> Seq<
        bool,
    > {
        Seq::new(k as nat, |j: int| self.paragraph_removed(words, threshold, j))
    }

    /// The indices are within the lists they point into.
    pub open spec fn wf(self) -> bool {
        &&& self.last_starts.len() == self.windows.len()
        &&& self.paragraphs.len() == self.bounds.len() - 1
        &&& self.bounds.len() >= 2
        &&& forall|k: int, j: int|
            0 <= k < self.paragraphs.len() && 0 <= j < self.paragraphs[k].len() ==> (
            #[trigger] self.paragraphs[k][j]) < self.windows.len()
        &&& forall|j: int|
            0 <= j < self.overflow.len() ==> (#[trigger] self.overflow[j]) < self.windows.len()
    }
}

/// Works through the crossing shingles from `cursor` on, after a paragraph
/// that starts at `start` was judged: a shingle whose last token starts
/// before the paragraph has survived and is inserted; any other is dropped
/// if the paragraph was removed, and otherwise waits, with all behind it,
/// for the next paragraph. Returns the words and the new cursor.
pub open spec fn drained(
    s: Sorted,
    words: Seq<u32>,
    cursor: int,
    start: usize,
    removed: bool,
    update: bool,
) -> (Seq<u32>, int)
    decreases s.overflow.len() - cursor,
{
    if cursor < 0 || cursor >= s.overflow.len() {
        (words, cursor)
    } else {
        let i = s.overflow[cursor] as int;
        if s.last_starts[i] < start {
            drained(
                s,
                if update {
                    with_hashes(words, s.windows[i])
                } else {
                    words
                },
                cursor + 1,
                start,
                removed,
                update,
            )
        } else if removed {
            drained(s, words, cursor + 1, start, removed, update)
        } else {
            (words, cursor)
        }
    }
}

/// The words of the filter and the cursor into the crossing shingles after
/// the first `k` paragraphs: a paragraph that stays has its shingles
/// inserted, then the crossing shingles are worked through.
pub open spec fn walked(
    s: Sorted,
    words: Seq<u32>,
    removed: Seq<bool>,
    update: bool,
    k: int,
) -> (Seq<u32>, int)
    decreases k,
{
    if k <= 0 {
        (words, 0)
    } else {
        let (w, c) = walked(s, words, removed, update, k - 1);
        let w1 = if !removed[k - 1] && update {
            with_batches(w, s.paragraph_hashes(k - 1))
        } else {
            w
        };
        drained(s, w1, c, s.bounds[k - 1], removed[k - 1], update)
    }
}

/// The words of the filter at the end: after all paragraphs, the crossing
/// shingles that still wait are inserted, and the shingle of a short text.
pub open spec fn finished(s: Sorted, words: Seq<u32>, removed: Seq<bool>, update: bool) -> Seq<u32> {
    let (w, c) = walked(s, words, removed, update, s.paragraphs.len() as int);
    if update {
        with_batches(with_batches(w, picked(s.windows, s.overflow.skip(c))), s.short_text)
    } else {
        w
    }
}

/// The index lists that a vector of index vectors holds.
pub open spec fn index_lists(v: Seq<Vec<usize>>) -> Seq<Seq<usize>> {
    v.map_values(|p: Vec<usize>| p@)
}

/// The shingles of a text, sorted by paragraph.
#[derive(Debug)]
pub struct SortedShingles {
    /// The hashes of every full shingle, in the order of the text.
    pub windows: Vec<Vec<u64>>,
    /// For every full shingle, the byte offset of its last token.
    pub last_starts: Vec<usize>,
    /// For every paragraph, its full shingles.
    pub paragraphs: Vec<Vec<usize>>,
    /// The shingles that cross a paragraph boundary.
    pub overflow: Vec<usize>,
    /// The hashes of the one shingle of a text too short for a full one.
    pub short_text: Vec<Vec<u64>>,
    /// The boundaries of the paragraphs.
    pub bounds: Vec<usize>,
}

impl View for SortedShingles {
    type V = Sorted;

    open spec fn view(&self) -> Sorted {
        Sorted {
            windows: hash_lists(self.windows@),
            last_starts: self.last_starts@,
            paragraphs: index_lists(self.paragraphs@),
            overflow: self.overflow@,
            short_text: hash_lists(self.short_text@),
            bounds: self.bounds@,
        }
    }
}

/// With boundaries that never go back, the unit of an offset is the one
/// that starts at or before it while the next one starts behind it.
pub proof fn lemma_unit_of(bounds: Seq<usize>, t: usize, upto: int, p: int)
    requires
        0 <= p < upto <= bounds.len(),
        forall|i: int, j: int| 0 <= i <= j < bounds.len() ==> bounds[i] <= bounds[j],
        p == 0 || bounds[p] <= t,
        p + 1 < upto ==> bounds[p + 1] > t,
    ensures
        unit_of(bounds, t, upto) == p,
    decreases upto,
{
    if upto > 1 {
        if p == upto - 1 {
        } else {
            assert(bounds[p + 1] <= bounds[upto - 1]);
            lemma_unit_of(bounds, t, upto - 1, p);
        }
    }
}

/// Sorts the full shingles of a text by paragraph. `starts` holds the byte
/// offset of each token, `windows` the hashes of each window of `window`
/// tokens.
pub fn sort_windows(
    bounds: Vec<usize>,
    starts: &Vec<usize>,
    windows: Vec<Vec<u64>>,
    window: usize,
) -> (sorted: SortedShingles)
    requires
        window >= 1,
        bounds@.len() >= 2,
        forall|i: int, j: int| 0 <= i <= j < bounds@.len() ==> bounds@[i] <= bounds@[j],
        forall|i: int, j: int| 0 <= i <= j < starts@.len() ==> starts@[i] <= starts@[j],
        windows@.len() == 0 || windows@.len() + window - 1 <= starts@.len(),
    ensures
        sorted@.wf(),
        sorted@.windows == hash_lists(windows@),
        sorted@.bounds == bounds@,
        sorted@.short_text == Seq::<Seq<u64>>::empty(),
        sorted@.last_starts == Seq::new(windows@.len(), |i: int| starts@[i + window - 1]),
        sorted@.paragraphs == Seq::new(
            (bounds@.len() - 1) as nat,
            |k: int| members(bounds@, starts@, window as int, k, windows@.len() as int),
        ),
        sorted@.overflow == members(bounds@, starts@, window as int, -1, windows@.len() as int),
{
    let count: usize = windows.len();
    let units: usize = bounds.len() - 1;
    let token_count: usize = starts.len();
    let ghost b = bounds@;
    let ghost st = starts@;
    let ghost w = window as int;
    let mut paragraphs: Vec<Vec<usize>> = Vec::new();
    let mut current: Vec<usize> = Vec::new();
    let mut overflow: Vec<usize> = Vec::new();
    let mut last_starts: Vec<usize> = Vec::new();
    let mut p: usize = 0;
    let mut i: usize = 0;
    while i < count
        invariant
            i <= count,
            count == windows@.len(),
            units == bounds@.len() - 1,
            units >= 1,
            b == bounds@,
            st == starts@,
            w == window as int,
            window >= 1,
            forall|x: int, y: int| 0 <= x <= y < b.len() ==> b[x] <= b[y],
            forall|x: int, y: int| 0 <= x <= y < st.len() ==> st[x] <= st[y],
            count == 0 || count + window - 1 <= st.len(),
            token_count == st.len(),
            p < units,
            paragraphs@.len() == p,
            forall|j: int| 0 <= j < p ==> (#[trigger] paragraphs@[j])@ == members(b, st, w, j, i as int),
            current@ == members(b, st, w, p as int, i as int),
            forall|j: int| p < j < units ==> #[trigger] members(b, st, w, j, i as int) == Seq::<
                usize,
            >::empty(),
            overflow@ == members(b, st, w, -1, i as int),
            last_starts@.len() == i,
            forall|j: int| 0 <= j < i ==> #[trigger] last_starts@[j] == st[j + window - 1],
            forall|j: int| 0 <= j < current@.len() ==> #[trigger] current@[j] < count,
            forall|j: int| 0 <= j < overflow@.len() ==> #[trigger] overflow@[j] < count,
            forall|k: int, j: int|
                0 <= k < paragraphs@.len() && 0 <= j < paragraphs@[k]@.len() ==> (
                #[trigger] paragraphs@[k]@[j]) < count,
            i < count ==> (p == 0 || b[p as int] <= st[i as int]),
        decreases count - i,
    {
        let first: usize = starts[i];
        let last: usize = starts[i + (window - 1)];
        while p + 1 < units && bounds[p + 1] <= first
            invariant
                i < count,
                count == windows@.len(),
                units == bounds@.len() - 1,
                b == bounds@,
                st == starts@,
                w == window as int,
                window >= 1,
                count + window - 1 <= st.len(),
                first == st[i as int],
                p < units,
                paragraphs@.len() == p,
                forall|j: int|
                    0 <= j < p ==> (#[trigger] paragraphs@[j])@ == members(b, st, w, j, i as int),
                current@ == members(b, st, w, p as int, i as int),
                forall|j: int| p < j < units ==> #[trigger] members(b, st, w, j, i as int) == Seq::<
                    usize,
                >::empty(),
                forall|j: int| 0 <= j < current@.len() ==> #[trigger] current@[j] < count,
                forall|k: int, j: int|
                    0 <= k < paragraphs@.len() && 0 <= j < paragraphs@[k]@.len() ==> (
                    #[trigger] paragraphs@[k]@[j]) < count,
                p == 0 || b[p as int] <= first,
            decreases units - p,
        {
            let ghost before = paragraphs@;
            paragraphs.push(current);
            current = Vec::new();
            p += 1;
            proof {
                assert forall|j: int| 0 <= j < p implies (#[trigger] paragraphs@[j])@ == members(
                    b,
                    st,
                    w,
                    j,
                    i as int,
                ) by {
                    if j < p - 1 {
                        assert(paragraphs@[j] == before[j]);
                    }
                }
                assert forall|k: int, j: int|
                    0 <= k < paragraphs@.len() && 0 <= j < paragraphs@[k]@.len() implies (
                #[trigger] paragraphs@[k]@[j]) < count by {
                    if k < p - 1 {
                        assert(paragraphs@[k] == before[k]);
                    }
                }
            }
        }
        proof {
            lemma_unit_of(b, first, units as int, p as int);
        }
        let fits: bool = last < bounds[p + 1];
        let ghost before = paragraphs@;
        if fits {
            current.push(i);
        } else {
            overflow.push(i);
        }
        last_starts.push(last);
        proof {
            assert(home(b, st, w, i as int) == if fits {
                p as int
            } else {
                -1
            });
            assert forall|j: int| 0 <= j < p implies (#[trigger] paragraphs@[j])@ == members(
                b,
                st,
                w,
                j,
                i + 1,
            ) by {}
            assert forall|j: int| p < j < units implies #[trigger] members(b, st, w, j, i + 1)
                == Seq::<usize>::empty() by {
                assert(members(b, st, w, j, i as int) == Seq::<usize>::empty());
            }
            if i + 1 < count {
                assert(st[i as int] <= st[i + 1]);
            }
        }
        i += 1;
    }
    loop
        invariant
            count == windows@.len(),
            units == bounds@.len() - 1,
            b == bounds@,
            st == starts@,
            w == window as int,
            p < units,
            paragraphs@.len() <= units,
            paragraphs@.len() == p || paragraphs@.len() > p,
            forall|j: int|
                0 <= j < paragraphs@.len() ==> (#[trigger] paragraphs@[j])@ == members(
                    b,
                    st,
                    w,
                    j,
                    count as int,
                ),
            paragraphs@.len() == p ==> current@ == members(b, st, w, p as int, count as int),
            forall|j: int| p < j < units ==> #[trigger] members(b, st, w, j, count as int) == Seq::<
                usize,
            >::empty(),
            paragraphs@.len() > p ==> current@ == Seq::<usize>::empty(),
            forall|k: int, j: int|
                0 <= k < paragraphs@.len() && 0 <= j < paragraphs@[k]@.len() ==> (
                #[trigger] paragraphs@[k]@[j]) < count,
            forall|j: int| 0 <= j < current@.len() ==> #[trigger] current@[j] < count,
        ensures
            paragraphs@.len() == units,
            forall|j: int|
                0 <= j < paragraphs@.len() ==> (#[trigger] paragraphs@[j])@ == members(
                    b,
                    st,
                    w,
                    j,
                    count as int,
                ),
            forall|k: int, j: int|
                0 <= k < paragraphs@.len() && 0 <= j < paragraphs@[k]@.len() ==> (
                #[trigger] paragraphs@[k]@[j]) < count,
        decreases units - paragraphs@.len(),
    {
        if paragraphs.len() >= units {
            break;
        }
        let ghost before = paragraphs@;
        let ghost at = paragraphs@.len() as int;
        paragraphs.push(current);
        current = Vec::new();
        proof {
            assert forall|j: int| 0 <= j < paragraphs@.len() implies (
            #[trigger] paragraphs@[j])@ == members(b, st, w, j, count as int) by {
                if j < at {
                    assert(paragraphs@[j] == before[j]);
                } else if at > p {
                    assert(members(b, st, w, at, count as int) == Seq::<usize>::empty());
                }
            }
            assert forall|k: int, j: int|
                0 <= k < paragraphs@.len() && 0 <= j < paragraphs@[k]@.len() implies (
            #[trigger] paragraphs@[k]@[j]) < count by {
                if k < at {
                    assert(paragraphs@[k] == before[k]);
                }
            }
        }
    }
    let sorted = SortedShingles {
        windows,
        last_starts,
        paragraphs,
        overflow,
        short_text: Vec::new(),
        bounds,
    };
    proof {
        assert(sorted@.last_starts =~= Seq::new(count as nat, |i: int| st[i + window - 1]));
        assert(sorted@.paragraphs =~= Seq::new(
            units as nat,
            |k: int| members(b, st, w, k, count as int),
        ));
        assert(sorted@.short_text =~= Seq::<Seq<u64>>::empty());
        assert forall|k: int, j: int|
            0 <= k < sorted@.paragraphs.len() && 0 <= j < sorted@.paragraphs[k].len() implies (
        #[trigger] sorted@.paragraphs[k][j]) < sorted@.windows.len() by {
            assert(sorted@.paragraphs[k] == sorted.paragraphs@[k]@);
        }
    }
    sorted
}

/// How many of the shingles at the given indices the filter contains.
pub fn count_picked(filter: &BloomFilter, windows: &Vec<Vec<u64>>, indices: &Vec<usize>) -> (n:
    usize)
    requires
        filter.usable(),
        forall|j: int| 0 <= j < indices@.len() ==> #[trigger] indices@[j] < windows@.len(),
    ensures
        n == contained_total(filter.words(), picked(hash_lists(windows@), indices@)),
        n <= indices@.len(),
{
    let ghost lists = picked(hash_lists(windows@), indices@);
    let mut n: usize = 0;
    let mut j: usize = 0;
    while j < indices.len()
        invariant
            filter.usable(),
            j <= indices@.len(),
            lists == picked(hash_lists(windows@), indices@),
            forall|x: int| 0 <= x < indices@.len() ==> #[trigger] indices@[x] < windows@.len(),
            n <= j,
            n == contained_count(filter.words(), lists, j as int),
        decreases indices@.len() - j,
    {
        let i: usize = indices[j];
        proof {
            assert(lists[j as int] == hash_lists(windows@)[i as int]);
            assert(hash_lists(windows@)[i as int] == windows@[i as int]@);
        }
        if filter.contains_hashes(&windows[i]) {
            n += 1;
        }
        j += 1;
    }
    n
}

/// Inserts the shingles at the given indices, from `from` on, in order.
pub fn insert_picked(
    filter: &mut BloomFilter,
    windows: &Vec<Vec<u64>>,
    indices: &Vec<usize>,
    from: usize,
)
    requires
        old(filter).usable(),
        from <= indices@.len(),
        forall|j: int| 0 <= j < indices@.len() ==> #[trigger] indices@[j] < windows@.len(),
    ensures
        final(filter).words() == with_batches(
            old(filter).words(),
            picked(hash_lists(windows@), indices@.skip(from as int)),
        ),
        final(filter).words().len() == old(filter).words().len(),
        final(filter).seeds() == old(filter).seeds(),
{
    let ghost lists = hash_lists(windows@);
    let mut j: usize = from;
    while j < indices.len()
        invariant
            from <= j <= indices@.len(),
            lists == hash_lists(windows@),
            forall|x: int| 0 <= x < indices@.len() ==> #[trigger] indices@[x] < windows@.len(),
            filter.usable(),
            filter.words().len() == old(filter).words().len(),
            filter.seeds() == old(filter).seeds(),
            filter.words() == with_batches(
                old(filter).words(),
                picked(lists, indices@.subrange(from as int, j as int)),
            ),
        decreases indices@.len() - j,
    {
        let i: usize = indices[j];
        proof {
            let grown = picked(lists, indices@.subrange(from as int, j + 1));
            assert(grown.drop_last() =~= picked(lists, indices@.subrange(from as int, j as int)));
            assert(grown.last() == lists[i as int]);
            assert(lists[i as int] == windows@[i as int]@);
        }
        filter.insert_hashes(&windows[i]);
        j += 1;
    }
    proof {
        assert(indices@.subrange(from as int, indices@.len() as int) =~= indices@.skip(
            from as int,
        ));
    }
}

/// Judges every paragraph by its own shingles against the filter as it is.
pub fn judge_paragraphs(filter: &BloomFilter, sorted: &SortedShingles, threshold: &Threshold) -> (r:
    Vec<bool>)
    requires
        filter.usable(),
        sorted@.wf(),
    ensures
        r@ == sorted@.removed_flags(filter.words(), *threshold, sorted@.paragraphs.len() as int),
{
    let mut flags: Vec<bool> = Vec::new();
    let mut k: usize = 0;
    while k < sorted.paragraphs.len()
        invariant
            filter.usable(),
            sorted@.wf(),
            k <= sorted.paragraphs@.len(),
            flags@.len() == k,
            forall|j: int|
                0 <= j < k ==> #[trigger] flags@[j] == sorted@.paragraph_removed(
                    filter.words(),
                    *threshold,
                    j,
                ),
        decreases sorted.paragraphs@.len() - k,
    {
        proof {
            assert(sorted@.paragraphs[k as int] == sorted.paragraphs@[k as int]@);
            assert forall|j: int| 0 <= j < sorted.paragraphs@[k as int]@.len() implies (
            #[trigger] sorted.paragraphs@[k as int]@[j]) < sorted.windows@.len() by {
                assert(sorted@.paragraphs[k as int][j] < sorted@.windows.len());
            }
        }
        let found: usize = count_picked(filter, &sorted.windows, &sorted.paragraphs[k]);
        flags.push(threshold.reached_by(found, sorted.paragraphs[k].len()));
        k += 1;
    }
    proof {
        assert(flags@ =~= sorted@.removed_flags(
            filter.words(),
            *threshold,
            sorted@.paragraphs.len() as int,
        ));
    }
    flags
}

/// Updates the filter for a text whose paragraphs have been judged: walks
/// the paragraphs in order, inserts the shingles of those that stay and
/// the crossing shingles that survive, and at the end the crossing shingles
/// that still wait and the shingle of a short text.
pub fn apply_both(
    filter: &mut BloomFilter,
    sorted: &SortedShingles,
    removed: &Vec<bool>,
    update: bool,
)
    requires
        old(filter).usable(),
        sorted@.wf(),
        removed@.len() == sorted@.paragraphs.len(),
    ensures
        final(filter).words() == finished(sorted@, old(filter).words(), removed@, update),
        final(filter).words().len() == old(filter).words().len(),
        final(filter).seeds() == old(filter).seeds(),
{
    let ghost s = sorted@;
    let ghost words0 = filter.words();
    let units: usize = sorted.paragraphs.len();
    let mut cursor: usize = 0;
    let mut k: usize = 0;
    while k < units
        invariant
            k <= units,
            units == sorted.paragraphs@.len(),
            s == sorted@,
            s.wf(),
            removed@.len() == units,
            cursor <= sorted.overflow@.len(),
            filter.usable(),
            filter.words().len() == old(filter).words().len(),
            filter.seeds() == old(filter).seeds(),
            walked(s, words0, removed@, update, k as int) == (filter.words(), cursor as int),
        decreases units - k,
    {
        let gone: bool = removed[k];
        proof {
            assert(s.paragraphs[k as int] == sorted.paragraphs@[k as int]@);
            assert forall|j: int| 0 <= j < sorted.paragraphs@[k as int]@.len() implies (
            #[trigger] sorted.paragraphs@[k as int]@[j]) < sorted.windows@.len() by {
                assert(s.paragraphs[k as int][j] < s.windows.len());
            }
        }
        if !gone && update {
            proof {
                assert(sorted.paragraphs@[k as int]@.skip(0) =~= sorted.paragraphs@[k as int]@);
            }
            insert_picked(filter, &sorted.windows, &sorted.paragraphs[k], 0);
        }
        let start: usize = sorted.bounds[k];
        let ghost goal = drained(s, filter.words(), cursor as int, start, gone, update);
        loop
            invariant
                s == sorted@,
                s.wf(),
                cursor <= sorted.overflow@.len(),
                filter.usable(),
                filter.words().len() == old(filter).words().len(),
                filter.seeds() == old(filter).seeds(),
                drained(s, filter.words(), cursor as int, start, gone, update) == goal,
            ensures
                cursor <= sorted.overflow@.len(),
                filter.usable(),
                filter.words().len() == old(filter).words().len(),
                filter.seeds() == old(filter).seeds(),
                goal == (filter.words(), cursor as int),
            decreases sorted.overflow@.len() - cursor,
        {
            if cursor >= sorted.overflow.len() {
                break;
            }
            let i: usize = sorted.overflow[cursor];
            proof {
                assert(s.overflow[cursor as int] < s.windows.len());
                assert(s.windows[i as int] == sorted.windows@[i as int]@);
            }
            if sorted.last_starts[i] < start {
                if update {
                    filter.insert_hashes(&sorted.windows[i]);
                }
                cursor += 1;
            } else if gone {
                cursor += 1;
            } else {
                break;
            }
        }
        k += 1;
    }
    if update {
        proof {
            assert forall|j: int| 0 <= j < sorted.overflow@.len() implies (
            #[trigger] sorted.overflow@[j]) < sorted.windows@.len() by {
                assert(s.overflow[j] < s.windows.len());
            }
        }
        insert_picked(filter, &sorted.windows, &sorted.overflow, cursor);
        insert_all(filter, &sorted.short_text);
    }
}

/// The shingles of a text, sorted by paragraph: what `process_line_both`
/// decides on.
pub open spec fn sorted_of(
    seeds: Seq<[u64; 4]>,
    text: Seq<char>,
    bytes: Seq<u8>,
    min_ngram_size: nat,
    max_ngram_size: nat,
) -> Sorted {
    let window = window_size(max_ngram_size);
    let all = shingle_hashes(seeds, tokens_of(text), min_ngram_size, max_ngram_size);
    let full = tokens_of(text).len() >= window;
    let windows = if full {
        all
    } else {
        Seq::empty()
    };
    let starts = token_offsets(indexed_tokens(text), bytes.len() as int);
    let bounds = unit_bounds(bytes, false);
    Sorted {
        windows,
        last_starts: Seq::new(windows.len(), |i: int| starts[i + window - 1]),
        paragraphs: Seq::new(
            (bounds.len() - 1) as nat,
            |k: int| members(bounds, starts, window as int, k, windows.len() as int),
        ),
        overflow: members(bounds, starts, window as int, -1, windows.len() as int),
        short_text: if full {
            Seq::empty()
        } else {
            all
        },
        bounds,
    }
}

/// What `process_line_both` returns and leaves in the filter.
pub open spec fn process_line_both_post(
    text: &str,
    seeds: Seq<[u64; 4]>,
    words: Seq<u32>,
    min_ngram_size: usize,
    max_ngram_size: usize,
    filtering_threshold: Threshold,
    no_update_bloom_filter: bool,
    annotate: bool,
    r: (DocumentEdit, usize, usize),
    new_words: Seq<u32>,
) -> bool {
    let bytes = text.spec_bytes();
    let all = shingle_hashes(
        seeds,
        tokens_of(text@),
        min_ngram_size as nat,
        max_ngram_size as nat,
    );
    let s = sorted_of(seeds, text@, bytes, min_ngram_size as nat, max_ngram_size as nat);
    let n = s.paragraphs.len() as int;
    let flags = s.removed_flags(words, filtering_threshold, n);
    let whole = share_reached(words, all, filtering_threshold);
    &&& new_words.len() == words.len()
    &&& r.2 == bytes.len()
    &&& all.len() == 0 ==> {
        &&& r.0.is_unchanged()
        &&& r.1 == 0
        &&& new_words == words
    }
    &&& all.len() > 0 && whole ==> {
        &&& new_words == words
        &&& r.1 == bytes.len()
        &&& annotate ==> r.0.is_annotation(
            seq![(0usize, bytes.len() as usize)],
            contained_total(words, all) as usize,
        )
        &&& !annotate ==> r.0.is_text(Seq::empty())
    }
    &&& all.len() > 0 && !whole ==> {
        &&& new_words == finished(
            s,
            words,
            flags,
            !no_update_bloom_filter,
        )
        &&& r.1 == removed_length(s.bounds, flags, n)
        &&& annotate ==> r.0.is_annotation(
            removed_spans(s.bounds, flags, n),
            contained_total(words, all) as usize,
        )
        &&& !annotate ==> r.0.is_text(trimmed_end(kept_text(bytes, s.bounds, flags, n)))
    }
}

/// Deduplicates one text on two levels. The text is tokenized once and
/// every window of `max_ngram_size` tokens hashed; a text too short for one
/// window, but of at least `min_ngram_size` tokens, is one shingle. A text
/// without shingles is left alone. Where the share of contained shingles
/// over the whole text reaches the threshold, the whole text is removed
/// and the filter stays as it is. Otherwise every paragraph is judged by
/// the shingles that lie within it, against the filter as it was before,
/// and the filter is updated as `finished` says. Returns the edit, the
/// number of bytes in what was removed and the number of bytes of the text.
/// With `annotate` the removed spans are recorded with the number of
/// contained shingles; otherwise the text is replaced by the paragraphs
/// that stay, without white space at its end.
pub fn process_line_both(
    text: &str,
    bloom_filter: &mut BloomFilter,
    min_ngram_size: usize,
    max_ngram_size: usize,
    filtering_threshold: Threshold,
    no_update_bloom_filter: bool,
    annotate: bool,
) -> (r: (DocumentEdit, usize, usize))
    requires
        old(bloom_filter).usable(),
    ensures
        process_line_both_post(
            text,
            old(bloom_filter).seeds(),
            old(bloom_filter).words(),
            min_ngram_size,
            max_ngram_size,
            filtering_threshold,
            no_update_bloom_filter,
            annotate,
            r,
            final(bloom_filter).words(),
        ),
        final(bloom_filter).seeds() == old(bloom_filter).seeds(),
        final(bloom_filter).words().len() == old(bloom_filter).words().len(),
{
    let total_bytes: usize = str_len(text);
    let bounds = unit_boundaries(text, false);
    let located = tokenize_indices(text);
    let total_tokens: usize = located.len();
    let mut tokens: Vec<&str> = Vec::new();
    let mut starts: Vec<usize> = Vec::new();
    let mut i: usize = 0;
    while i < total_tokens
        invariant
            i <= total_tokens,
            total_tokens == located@.len(),
            tokens@.len() == i,
            starts@.len() == i,
            forall|j: int| 0 <= j < i ==> #[trigger] tokens@[j] == located@[j].1,
            forall|j: int| 0 <= j < i ==> #[trigger] starts@[j] == located@[j].0,
        decreases total_tokens - i,
    {
        starts.push(located[i].0);
        tokens.push(located[i].1);
        i += 1;
    }
    starts.push(total_bytes);
    proof {
        assert(str_views(tokens@) =~= tokens_of(text@)) by {
            assert(str_views(tokens@) =~= located_views(located@).map_values(
                |p: (int, Seq<char>)| p.1,
            ));
        }
        assert(starts@ =~= token_offsets(indexed_tokens(text@), total_bytes as int)) by {
            assert forall|j: int| 0 <= j < starts@.len() implies starts@[j] == token_offsets(
                located_views(located@),
                total_bytes as int,
            )[j] by {
                if j < total_tokens {
                    assert(located_views(located@)[j].0 == located@[j].0);
                }
            }
        }
        assert forall|a: int, b: int| 0 <= a <= b < starts@.len() implies starts@[a]
            <= starts@[b] by {
            if a < b && b < total_tokens {
                assert(located@[a].0 + located@[a].1.spec_bytes().len() <= located@[b].0);
            } else if a < b {
                assert(located@[a].0 + located@[a].1.spec_bytes().len()
                    <= text.spec_bytes().len());
            }
        }
    }
    let all = hash_shingles(bloom_filter, &tokens, min_ngram_size, max_ngram_size);
    let total: usize = all.len();
    if total == 0 {
        return (DocumentEdit::unchanged(), 0, total_bytes);
    }
    let total_contains: usize = count_contained(bloom_filter, &all);
    if filtering_threshold.reached_by(total_contains, total) {
        let edit = if annotate {
            let mut whole: Vec<(usize, usize)> = Vec::new();
            whole.push((0, total_bytes));
            proof {
                assert(whole@ =~= seq![(0usize, total_bytes)]);
            }
            DocumentEdit::annotation(whole, total_contains)
        } else {
            DocumentEdit::replace_text(String::new())
        };
        return (edit, total_bytes, total_bytes);
    }
    let window: usize = if max_ngram_size == 0 {
        1
    } else {
        max_ngram_size
    };
    let ghost goal = sorted_of(
        bloom_filter.seeds(),
        text@,
        text.spec_bytes(),
        min_ngram_size as nat,
        max_ngram_size as nat,
    );
    let sorted = if total_tokens >= window {
        sort_windows(bounds, &starts, all, window)
    } else {
        let mut short = sort_windows(bounds, &starts, Vec::new(), window);
        short.short_text = all;
        short
    };
    proof {
        assert(sorted@.last_starts =~= goal.last_starts);
        assert(sorted@.paragraphs =~= goal.paragraphs);
        assert(sorted@.windows =~= goal.windows);
        assert(sorted@.short_text =~= goal.short_text);
        assert(sorted@ == goal);
    }
    let flags = judge_paragraphs(bloom_filter, &sorted, &filtering_threshold);
    apply_both(bloom_filter, &sorted, &flags, !no_update_bloom_filter);
    let (spans, output, removed_bytes) = render_units(text, &sorted.bounds, &flags);
    let edit = if annotate {
        DocumentEdit::annotation(spans, total_contains)
    } else {
        let trimmed = trim_end(output.as_str());
        DocumentEdit::replace_text(String::from_str(trimmed))
    };
    (edit, removed_bytes, total_bytes)
}

} // verus!
