//! The Bloom filter: a fixed array of 32-bit words in which every hash of an
//! n-gram selects one bit. Bits are only ever set, never cleared.

use std::hash::{BuildHasher, Hash, Hasher};

use ahash::RandomState;
use rand::Rng;
use std::collections::VecDeque;
use vstd::prelude::*;

use crate::text::str_views;

verus! {

/// The hash that the seeded hasher gives to an ordered sequence of tokens.
/// Within one build of the library it depends on the four seed words and on
/// the tokens alone. The hasher picks its algorithm when it is compiled, by
/// the instructions that the target machine offers, so a build for another
/// target may give other hashes: a filter that was written to a file finds
/// its n-grams again only in a build like the one that filled it.
pub uninterp spec fn seeded_ngram_hash(
    k0: u64,
    k1: u64,
    k2: u64,
    k3: u64,
    tokens: Seq<Seq<char>>,
) -> u64;

/// One hash per seed, in the order of the seeds.
pub open spec fn ngram_hashes(seeds: Seq<[u64; 4]>, tokens: Seq<Seq<char>>) -> Seq<u64> {
    Seq::new(
        seeds.len(),
        |i: int| seeded_ngram_hash(seeds[i][0], seeds[i][1], seeds[i][2], seeds[i][3], tokens),
    )
}

/// The word that a hash selects among `words` words.
pub open spec fn word_index(hash: u64, words: nat) -> int {
    (hash / 32) as int % (words as int)
}

/// The bit that a hash selects within its word.
pub open spec fn bit_index(hash: u64) -> u32 {
    (hash % 32) as u32
}

/// Whether bit `bit` of `word` is set.
pub open spec fn bit_is_set(word: u32, bit: u32) -> bool {
    word & (1u32 << bit) != 0
}

/// Whether the bit that `hash` selects is set.
pub open spec fn hash_is_set(words: Seq<u32>, hash: u64) -> bool {
    bit_is_set(words[word_index(hash, words.len())], bit_index(hash))
}

/// Whether every hash of `hashes` finds its bit set.
pub open spec fn holds_all(words: Seq<u32>, hashes: Seq<u64>) -> bool {
    forall|i: int| 0 <= i < hashes.len() ==> hash_is_set(words, #[trigger] hashes[i])
}

/// The words after the bit of `hash` is set.
pub open spec fn with_hash(words: Seq<u32>, hash: u64) -> Seq<u32> {
    let idx = word_index(hash, words.len());
    words.update(idx, words[idx] | (1u32 << bit_index(hash)))
}

/// The words after the bits of all of `hashes` are set.
pub open spec fn with_hashes(words: Seq<u32>, hashes: Seq<u64>) -> Seq<u32>
    decreases hashes.len(),
{
    if hashes.len() == 0 {
        words
    } else {
        with_hash(with_hashes(words, hashes.drop_last()), hashes.last())
    }
}

/// The words after each batch of hashes has been inserted in turn.
pub open spec fn with_batches(words: Seq<u32>, batches: Seq<Seq<u64>>) -> Seq<u32>
    decreases batches.len(),
{
    if batches.len() == 0 {
        words
    } else {
        with_hashes(with_batches(words, batches.drop_last()), batches.last())
    }
}

/// The number of set bits among the lowest `upto` bits of `word`.
pub open spec fn ones_below(word: u32, upto: nat) -> nat
    decreases upto,
{
    if upto == 0 {
        0
    } else {
        ones_below(word, (upto - 1) as nat) + if bit_is_set(word, (upto - 1) as u32) {
            1nat
        } else {
            0nat
        }
    }
}

/// The number of set bits in all of `words`.
pub open spec fn set_bit_count(words: Seq<u32>) -> nat
    decreases words.len(),
{
    if words.len() == 0 {
        0
    } else {
        set_bit_count(words.drop_last()) + ones_below(words.last(), 32)
    }
}

/// Setting a bit sets it, and changes no other bit of the word.
pub proof fn lemma_set_bit(word: u32, bit: u32, other: u32)
    requires
        bit < 32,
        other < 32,
    ensures
        bit_is_set(word | (1u32 << bit), other) <==> (other == bit || bit_is_set(word, other)),
{
    assert(((word | (1u32 << bit)) & (1u32 << other) != 0) <==> (other == bit || (word & (1u32
        << other) != 0))) by (bit_vector)
        requires
            bit < 32,
            other < 32,
    ;
}

/// Inserting a hash sets its bit, keeps the number of words, and clears no
/// bit that any other hash selects.
pub proof fn lemma_with_hash(words: Seq<u32>, hash: u64, other: u64)
    requires
        words.len() > 0,
    ensures
        with_hash(words, hash).len() == words.len(),
        hash_is_set(with_hash(words, hash), hash),
        hash_is_set(words, other) ==> hash_is_set(with_hash(words, hash), other),
{
    let n = words.len();
    let idx = word_index(hash, n);
    lemma_set_bit(words[idx], bit_index(hash), bit_index(hash));
    lemma_set_bit(words[idx], bit_index(hash), bit_index(other));
}

/// Inserting hashes keeps the number of words and clears no bit.
pub proof fn lemma_with_hashes_keeps(words: Seq<u32>, hashes: Seq<u64>, other: u64)
    requires
        words.len() > 0,
    ensures
        with_hashes(words, hashes).len() == words.len(),
        hash_is_set(words, other) ==> hash_is_set(with_hashes(words, hashes), other),
    decreases hashes.len(),
{
    if hashes.len() > 0 {
        lemma_with_hashes_keeps(words, hashes.drop_last(), other);
        lemma_with_hash(with_hashes(words, hashes.drop_last()), hashes.last(), other);
    }
}

/// After hashes are inserted, each of them finds its bit set.
pub proof fn lemma_with_hashes_sets(words: Seq<u32>, hashes: Seq<u64>)
    requires
        words.len() > 0,
    ensures
        holds_all(with_hashes(words, hashes), hashes),
    decreases hashes.len(),
{
    if hashes.len() > 0 {
        let front = hashes.drop_last();
        let mid = with_hashes(words, front);
        lemma_with_hashes_sets(words, front);
        lemma_with_hashes_keeps(words, front, hashes.last());
        assert forall|i: int| 0 <= i < hashes.len() implies hash_is_set(
            with_hashes(words, hashes),
            #[trigger] hashes[i],
        ) by {
            lemma_with_hash(mid, hashes.last(), hashes[i]);
            if i < front.len() {
                assert(front[i] == hashes[i]);
            }
        }
    }
}

/// What was contained before an insertion is contained after it.
pub proof fn lemma_insert_keeps_contained(words: Seq<u32>, hashes: Seq<u64>, earlier: Seq<u64>)
    requires
        words.len() > 0,
        holds_all(words, earlier),
    ensures
        holds_all(with_hashes(words, hashes), earlier),
{
    assert forall|i: int| 0 <= i < earlier.len() implies hash_is_set(
        with_hashes(words, hashes),
        #[trigger] earlier[i],
    ) by {
        lemma_with_hashes_keeps(words, hashes, earlier[i]);
    }
}

/// Inserting batches keeps the number of words.
pub proof fn lemma_with_batches_len(words: Seq<u32>, batches: Seq<Seq<u64>>)
    requires
        words.len() > 0,
    ensures
        with_batches(words, batches).len() == words.len(),
    decreases batches.len(),
{
    if batches.len() > 0 {
        lemma_with_batches_len(words, batches.drop_last());
        lemma_with_hashes_keeps(with_batches(words, batches.drop_last()), batches.last(), 0);
    }
}

/// Law: the filter has no false negatives. After any sequence of
/// insertions, every batch of hashes that was inserted is contained,
/// whatever was inserted after it.
pub proof fn law_no_false_negatives(words: Seq<u32>, batches: Seq<Seq<u64>>, k: int)
    requires
        words.len() > 0,
        0 <= k < batches.len(),
    ensures
        holds_all(with_batches(words, batches), batches[k]),
    decreases batches.len(),
{
    let front = batches.drop_last();
    let mid = with_batches(words, front);
    lemma_with_batches_len(words, front);
    if k == batches.len() - 1 {
        lemma_with_hashes_sets(mid, batches.last());
    } else {
        law_no_false_negatives(words, front, k);
        assert(front[k] == batches[k]);
        lemma_insert_keeps_contained(mid, batches.last(), batches[k]);
    }
}

/// A Bloom filter over n-grams of tokens.
pub struct BloomFilter {
    bits: Vec<u32>,
    hash_builder_seeds: Vec<[u64; 4]>,
}

/// The seeded hash of an n-gram: `ahash::RandomState::with_seeds` on the
/// four seed words, then the hash of the tokens as a `VecDeque<&str>` fed to
/// the hasher it builds. The hasher has no state but the seeds, so within
/// one build of the library the result is the named function of seeds and
/// tokens.
#[verifier::external_body]
fn hash_ngram(seed: &[u64; 4], ngram: &[&str]) -> (hash: u64)
    ensures
        hash == seeded_ngram_hash(seed[0], seed[1], seed[2], seed[3], str_views(ngram@)),
{
    let mut hasher = RandomState::with_seeds(seed[0], seed[1], seed[2], seed[3]).build_hasher();
    let window: VecDeque<&str> = ngram.iter().copied().collect();
    window.hash(&mut hasher);
    hasher.finish()
}

/// Four fresh seed words from `rand::thread_rng`. Nothing is known of them.
#[verifier::external_body]
fn random_seed() -> (seed: [u64; 4]) {
    rand::thread_rng().gen::<[u64; 4]>()
}

/// The number of bits that are set in a word.
pub fn count_ones(word: u32) -> (n: u32)
    ensures
        n == ones_below(word, 32),
{
    let mut n: u32 = 0;
    let mut bit: u32 = 0;
    while bit < 32
        invariant
            bit <= 32,
            n <= bit,
            n == ones_below(word, bit as nat),
        decreases 32 - bit,
    {
        if word & (1u32 << bit) != 0 {
            n += 1;
        }
        bit += 1;
    }
    n
}

impl BloomFilter {
    /// The words of the filter.
    pub closed spec fn words(&self) -> Seq<u32> {
        self.bits@
    }

    /// The seeds of the hashers, one four-tuple per hasher.
    pub closed spec fn seeds(&self) -> Seq<[u64; 4]> {
        self.hash_builder_seeds@
    }

    /// The filter has at least one word, so that every hash selects a bit.
    pub open spec fn usable(&self) -> bool {
        self.words().len() > 0
    }

    /// Whether all of `hashes` find their bit set.
    pub open spec fn holds(&self, hashes: Seq<u64>) -> bool {
        holds_all(self.words(), hashes)
    }

    /// The size of the words in bytes is within the machine's range.
    pub open spec fn wf(&self) -> bool {
        self.words().len() * 4 <= usize::MAX
    }

    /// An empty filter of `size_in_bytes / 4` words with the given seeds.
    pub fn with_seeds(size_in_bytes: usize, seeds: Vec<[u64; 4]>) -> (filter: BloomFilter)
        ensures
            filter.words() == Seq::new((size_in_bytes / 4) as nat, |i: int| 0u32),
            filter.seeds() == seeds@,
            filter.wf(),
    {
        let number_of_u32: usize = size_in_bytes / 4;
        let mut bits: Vec<u32> = Vec::new();
        let mut i: usize = 0;
        while i < number_of_u32
            invariant
                i <= number_of_u32,
                bits@ == Seq::new(i as nat, |j: int| 0u32),
            decreases number_of_u32 - i,
        {
            bits.push(0u32);
            assert(bits@ =~= Seq::new((i + 1) as nat, |j: int| 0u32));
            i += 1;
        }
        BloomFilter { bits, hash_builder_seeds: seeds }
    }

    /// An empty filter of `size_in_bytes / 4` words with `num_hashers`
    /// hashers, each seeded at random.
    pub fn new(size_in_bytes: usize, num_hashers: usize) -> (filter: BloomFilter)
        ensures
            filter.words() == Seq::new((size_in_bytes / 4) as nat, |i: int| 0u32),
            filter.seeds().len() == num_hashers,
            filter.wf(),
    {
        let mut seeds: Vec<[u64; 4]> = Vec::new();
        let mut i: usize = 0;
        while i < num_hashers
            invariant
                i <= num_hashers,
                seeds@.len() == i,
            decreases num_hashers - i,
        {
            seeds.push(random_seed());
            i += 1;
        }
        BloomFilter::with_seeds(size_in_bytes, seeds)
    }

    /// A filter of the given words and seeds, or nothing if the words would
    /// take more bytes than the machine can count.
    pub fn from_parts(bits: Vec<u32>, seeds: Vec<[u64; 4]>) -> (filter: Option<BloomFilter>)
        ensures
            filter is Some <==> bits@.len() * 4 <= usize::MAX,
            filter matches Some(f) ==> f.words() == bits@ && f.seeds() == seeds@ && f.wf(),
    {
        if bits.len() > usize::MAX / 4 {
            None
        } else {
            Some(BloomFilter { bits, hash_builder_seeds: seeds })
        }
    }

    /// The number of words.
    pub fn num_words(&self) -> (n: usize)
        ensures
            n == self.words().len(),
    {
        self.bits.len()
    }

    /// The number of hashers.
    pub fn num_hashers(&self) -> (n: usize)
        ensures
            n == self.seeds().len(),
    {
        self.hash_builder_seeds.len()
    }

    /// The word at `index`.
    pub fn word(&self, index: usize) -> (w: u32)
        requires
            index < self.words().len(),
        ensures
            w == self.words()[index as int],
    {
        self.bits[index]
    }

    /// The seed of hasher `index`.
    pub fn seed(&self, index: usize) -> (s: [u64; 4])
        requires
            index < self.seeds().len(),
        ensures
            s == self.seeds()[index as int],
    {
        self.hash_builder_seeds[index]
    }

    /// The size of the bit array in bytes: four per word.
    pub fn size_in_bytes(&self) -> (n: usize)
        requires
            self.wf(),
        ensures
            n == self.words().len() * 4,
    {
        self.bits.len() * 4
    }

    /// The number of bits that are set, over all words.
    pub fn count_set_bits(&self) -> (n: u128)
        ensures
            n == set_bit_count(self.words()),
    {
        let mut total: u128 = 0;
        let mut i: usize = 0;
        while i < self.bits.len()
            invariant
                i <= self.bits@.len(),
                total == set_bit_count(self.bits@.take(i as int)),
                total <= 32 * i,
            decreases self.bits@.len() - i,
        {
            let ones: u32 = count_ones(self.bits[i]);
            proof {
                assert(self.bits@.take(i + 1).drop_last() =~= self.bits@.take(i as int));
                lemma_ones_below_bound(self.bits@[i as int], 32);
            }
            total = total + ones as u128;
            i += 1;
        }
        proof {
            assert(self.bits@.take(self.bits@.len() as int) =~= self.bits@);
        }
        total
    }

    /// The hashes of an n-gram, one per hasher.
    pub fn hashes(&self, ngram: &[&str]) -> (hashes: Vec<u64>)
        ensures
            hashes@ == ngram_hashes(self.seeds(), str_views(ngram@)),
    {
        let mut out: Vec<u64> = Vec::new();
        let mut i: usize = 0;
        while i < self.hash_builder_seeds.len()
            invariant
                i <= self.hash_builder_seeds@.len(),
                out@.len() == i,
                forall|j: int|
                    0 <= j < i ==> #[trigger] out@[j] == ngram_hashes(
                        self.hash_builder_seeds@,
                        str_views(ngram@),
                    )[j],
            decreases self.hash_builder_seeds@.len() - i,
        {
            let h: u64 = hash_ngram(&self.hash_builder_seeds[i], ngram);
            out.push(h);
            i += 1;
        }
        proof {
            assert(out@ =~= ngram_hashes(self.seeds(), str_views(ngram@)));
        }
        out
    }

    /// Sets the bit of every hash: word `(h / 32) mod W`, bit `h mod 32`.
    pub fn insert_hashes(&mut self, hashes: &Vec<u64>)
        requires
            old(self).usable(),
        ensures
            final(self).words() == with_hashes(old(self).words(), hashes@),
            final(self).words().len() == old(self).words().len(),
            final(self).seeds() == old(self).seeds(),
    {
        let n: usize = self.bits.len();
        let ghost start = self.bits@;
        let mut i: usize = 0;
        while i < hashes.len()
            invariant
                i <= hashes.len(),
                n == self.bits@.len(),
                n > 0,
                start.len() == n,
                self.bits@ == with_hashes(start, hashes@.take(i as int)),
                self.hash_builder_seeds == old(self).hash_builder_seeds,
            decreases hashes.len() - i,
        {
            let hash: u64 = hashes[i];
            let index: usize = ((hash / 32) % (n as u64)) as usize;
            let bit: u32 = (hash % 32) as u32;
            let word: u32 = self.bits[index];
            proof {
                assert(hashes@.take(i + 1).drop_last() =~= hashes@.take(i as int));
            }
            self.bits.set(index, word | (1u32 << bit));
            i += 1;
        }
        proof {
            assert(hashes@.take(hashes.len() as int) =~= hashes@);
        }
    }

    /// Whether every hash finds its bit set.
    pub fn contains_hashes(&self, hashes: &Vec<u64>) -> (found: bool)
        requires
            self.usable(),
        ensures
            found == self.holds(hashes@),
    {
        let n: usize = self.bits.len();
        let mut i: usize = 0;
        while i < hashes.len()
            invariant
                i <= hashes.len(),
                n == self.bits@.len(),
                n > 0,
                forall|j: int| 0 <= j < i ==> hash_is_set(self.bits@, #[trigger] hashes@[j]),
            decreases hashes.len() - i,
        {
            let hash: u64 = hashes[i];
            let index: usize = ((hash / 32) % (n as u64)) as usize;
            let bit: u32 = (hash % 32) as u32;
            if self.bits[index] & (1u32 << bit) == 0 {
                return false;
            }
            i += 1;
        }
        true
    }

    /// Inserts an n-gram: sets the bits of its hashes.
    pub fn insert(&mut self, ngram: &[&str])
        requires
            old(self).usable(),
        ensures
            final(self).words() == with_hashes(
                old(self).words(),
                ngram_hashes(old(self).seeds(), str_views(ngram@)),
            ),
            final(self).words().len() == old(self).words().len(),
            final(self).seeds() == old(self).seeds(),
    {
        let hashes = self.hashes(ngram);
        self.insert_hashes(&hashes);
    }

    /// Whether the bits of all hashes of an n-gram are set.
    pub fn contains(&self, ngram: &[&str]) -> (found: bool)
        requires
            self.usable(),
        ensures
            found == self.holds(ngram_hashes(self.seeds(), str_views(ngram@))),
    {
        let hashes = self.hashes(ngram);
        self.contains_hashes(&hashes)
    }
}

/// A word has no more set bits than bits counted.
pub proof fn lemma_ones_below_bound(word: u32, upto: nat)
    ensures
        ones_below(word, upto) <= upto,
    decreases upto,
{
    if upto > 0 {
        lemma_ones_below_bound(word, (upto - 1) as nat);
    }
}

} // verus!
