//! Shingles: the windows of consecutive tokens of a unit of text, and the
//! hashes under which the filter knows them.

use vstd::prelude::*;
use vstd::slice::slice_subrange;

use crate::bloom::{holds_all, ngram_hashes, with_batches, BloomFilter};
use crate::text::str_views;

verus! {

/// The hash lists that a vector of hash vectors holds.
pub open spec fn hash_lists(v: Seq<Vec<u64>>) -> Seq<Seq<u64>> {
    v.map_values(|h: Vec<u64>| h@)
}

/// The number of tokens in a full shingle: `max_ngram_size`, and one where
/// that is zero.
pub open spec fn window_size(max_ngram_size: nat) -> nat {
    if max_ngram_size == 0 {
        1
    } else {
        max_ngram_size
    }
}

/// The shingles of a unit: every window of `max_ngram_size` consecutive
/// tokens; for a unit with fewer tokens than that, but at least
/// `min_ngram_size`, the one shingle of all its tokens; none for a unit
/// shorter still.
pub open spec fn shingles(tokens: Seq<Seq<char>>, min_ngram_size: nat, max_ngram_size: nat) -> Seq<
    Seq<Seq<char>>,
> {
    let window = window_size(max_ngram_size);
    if tokens.len() >= window {
        Seq::new((tokens.len() - window + 1) as nat, |i: int| tokens.subrange(i, i + window))
    } else if tokens.len() >= min_ngram_size {
        seq![tokens]
    } else {
        Seq::empty()
    }
}

/// The hashes of the shingles of a unit, one list per shingle.
pub open spec fn shingle_hashes(
    seeds: Seq<[u64; 4]>,
    tokens: Seq<Seq<char>>,
    min_ngram_size: nat,
    max_ngram_size: nat,
) -> Seq<Seq<u64>> {
    shingles(tokens, min_ngram_size, max_ngram_size).map_values(
        |gram: Seq<Seq<char>>| ngram_hashes(seeds, gram),
    )
}

/// How many of the first `upto` hash lists the words contain.
pub open spec fn contained_count(words: Seq<u32>, hashes: Seq<Seq<u64>>, upto: int) -> nat
    decreases upto,
{
    if upto <= 0 {
        0
    } else {
        contained_count(words, hashes, upto - 1) + if holds_all(words, hashes[upto - 1]) {
            1nat
        } else {
            0nat
        }
    }
}

/// How many of the hash lists the words contain.
pub open spec fn contained_total(words: Seq<u32>, hashes: Seq<Seq<u64>>) -> nat {
    contained_count(words, hashes, hashes.len() as int)
}

/// The hashes of the shingles of a unit that has the given tokens.
pub fn hash_shingles(
    filter: &BloomFilter,
    tokens: &Vec<&str>,
    min_ngram_size: usize,
    max_ngram_size: usize,
) -> (hashes: Vec<Vec<u64>>)
    ensures
        hash_lists(hashes@) == shingle_hashes(
            filter.seeds(),
            str_views(tokens@),
            min_ngram_size as nat,
            max_ngram_size as nat,
        ),
{
    let window: usize = if max_ngram_size == 0 {
        1
    } else {
        max_ngram_size
    };
    let ghost views = str_views(tokens@);
    let ghost goal = shingle_hashes(
        filter.seeds(),
        views,
        min_ngram_size as nat,
        max_ngram_size as nat,
    );
    let mut out: Vec<Vec<u64>> = Vec::new();
    let n: usize = tokens.len();
    if n >= window {
        let count: usize = n - window + 1;
        let mut i: usize = 0;
        while i < count
            invariant
                n == tokens@.len(),
                window >= 1,
                n >= window,
                count == n - window + 1,
                i <= count,
                views == str_views(tokens@),
                goal == shingle_hashes(
                    filter.seeds(),
                    views,
                    min_ngram_size as nat,
                    max_ngram_size as nat,
                ),
                window == window_size(max_ngram_size as nat),
                out@.len() == i,
                forall|j: int| 0 <= j < i ==> (#[trigger] out@[j])@ == goal[j],
            decreases count - i,
        {
            let gram = slice_subrange(tokens.as_slice(), i, i + window);
            proof {
                assert(str_views(gram@) =~= views.subrange(i as int, i + window));
            }
            out.push(filter.hashes(gram));
            i += 1;
        }
    } else if n >= min_ngram_size {
        let gram = tokens.as_slice();
        proof {
            assert(str_views(gram@) =~= views);
        }
        out.push(filter.hashes(gram));
    }
    proof {
        assert(hash_lists(out@) =~= goal);
    }
    out
}

/// How many of the hash lists the filter contains.
pub fn count_contained(filter: &BloomFilter, hashes: &Vec<Vec<u64>>) -> (n: usize)
    requires
        filter.usable(),
    ensures
        n == contained_total(filter.words(), hash_lists(hashes@)),
        n <= hashes@.len(),
{
    let mut n: usize = 0;
    let mut i: usize = 0;
    while i < hashes.len()
        invariant
            filter.usable(),
            i <= hashes@.len(),
            n <= i,
            n == contained_count(filter.words(), hash_lists(hashes@), i as int),
        decreases hashes@.len() - i,
    {
        proof {
            assert(hash_lists(hashes@)[i as int] == hashes@[i as int]@);
        }
        if filter.contains_hashes(&hashes[i]) {
            n += 1;
        }
        i += 1;
    }
    n
}

/// Inserts every hash list into the filter, in order.
pub fn insert_all(filter: &mut BloomFilter, hashes: &Vec<Vec<u64>>)
    requires
        old(filter).usable(),
    ensures
        final(filter).words() == with_batches(old(filter).words(), hash_lists(hashes@)),
        final(filter).words().len() == old(filter).words().len(),
        final(filter).seeds() == old(filter).seeds(),
{
    let mut i: usize = 0;
    while i < hashes.len()
        invariant
            i <= hashes@.len(),
            filter.usable(),
            filter.words().len() == old(filter).words().len(),
            filter.seeds() == old(filter).seeds(),
            filter.words() == with_batches(
                old(filter).words(),
                hash_lists(hashes@).take(i as int),
            ),
        decreases hashes@.len() - i,
    {
        proof {
            assert(hash_lists(hashes@).take(i + 1).drop_last() =~= hash_lists(hashes@).take(
                i as int,
            ));
            assert(hash_lists(hashes@)[i as int] == hashes@[i as int]@);
        }
        filter.insert_hashes(&hashes[i]);
        i += 1;
    }
    proof {
        assert(hash_lists(hashes@).take(hashes@.len() as int) =~= hash_lists(hashes@));
    }
}

} // verus!
