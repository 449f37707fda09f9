//! The file format of the filter. All numbers are little-endian: the magic
//! number and the version (32 bits each), the number of hashers (32 bits),
//! four 64-bit seed words per hasher, the number of words (64 bits), and
//! the words of the filter (32 bits each). The words, too, are written
//! little-endian, whatever the machine.

use byteorder::{ByteOrder, LittleEndian};
use vstd::bytes::{
    lemma_auto_spec_u32_to_from_le_bytes, lemma_auto_spec_u64_to_from_le_bytes,
    spec_u32_from_le_bytes, spec_u32_to_le_bytes, spec_u64_from_le_bytes, spec_u64_to_le_bytes,
};
use vstd::prelude::*;
use vstd::slice::slice_subrange;

use crate::bloom::BloomFilter;

verus! {

/// The first four bytes of a filter file, as a number.
pub const MAGIC: u32 = 0x81F0_F117;

/// The version of the format.
pub const VERSION: u32 = 1;

/// Why a filter file cannot be read.
#[derive(Clone, Copy, Debug, PartialEq, Eq, Structural)]
pub enum FilterFileError {
    /// The magic number or the version is not the expected one.
    InvalidFile,
    /// The file ends before the filter does.
    UnexpectedEof,
}

/// The number of bytes before the count of words, for `k` hashers.
pub open spec fn count_start(k: int) -> int {
    12 + 32 * k
}

/// The number of bytes before the words, for `k` hashers.
pub open spec fn words_start(k: int) -> int {
    20 + 32 * k
}

/// The length of the file of a filter of `k` hashers and `w` words.
pub open spec fn encoded_len(k: int, w: int) -> int {
    20 + 32 * k + 4 * w
}

/// The byte at position `p` of the file of a filter.
pub open spec fn encoded_byte(seeds: Seq<[u64; 4]>, words: Seq<u32>, p: int) -> u8 {
    let k = seeds.len() as int;
    if p < 4 {
        spec_u32_to_le_bytes(MAGIC)[p]
    } else if p < 8 {
        spec_u32_to_le_bytes(VERSION)[p - 4]
    } else if p < 12 {
        spec_u32_to_le_bytes(k as u32)[p - 8]
    } else if p < count_start(k) {
        let q = p - 12;
        spec_u64_to_le_bytes(seeds[q / 32][(q % 32) / 8])[q % 8]
    } else if p < words_start(k) {
        spec_u64_to_le_bytes(words.len() as u64)[p - count_start(k)]
    } else {
        let q = p - words_start(k);
        spec_u32_to_le_bytes(words[q / 4])[q % 4]
    }
}

/// The file of a filter with the given seeds and words.
pub open spec fn encoded(seeds: Seq<[u64; 4]>, words: Seq<u32>) -> Seq<u8> {
    Seq::new(
        encoded_len(seeds.len() as int, words.len() as int) as nat,
        |p: int| encoded_byte(seeds, words, p),
    )
}

/// The 32-bit number at position `p`.
pub open spec fn u32_at(bytes: Seq<u8>, p: int) -> u32 {
    spec_u32_from_le_bytes(bytes.subrange(p, p + 4))
}

/// The 64-bit number at position `p`.
pub open spec fn u64_at(bytes: Seq<u8>, p: int) -> u64 {
    spec_u64_from_le_bytes(bytes.subrange(p, p + 8))
}

/// The number of hashers and the number of words that a file announces, or
/// the reason why it cannot be read: each check is made as soon as the
/// bytes it needs are there.
pub open spec fn framing(bytes: Seq<u8>) -> Result<(int, int), FilterFileError> {
    if bytes.len() < 4 {
        Err(FilterFileError::UnexpectedEof)
    } else if u32_at(bytes, 0) != MAGIC {
        Err(FilterFileError::InvalidFile)
    } else if bytes.len() < 8 {
        Err(FilterFileError::UnexpectedEof)
    } else if u32_at(bytes, 4) != VERSION {
        Err(FilterFileError::InvalidFile)
    } else if bytes.len() < 12 {
        Err(FilterFileError::UnexpectedEof)
    } else {
        let k = u32_at(bytes, 8) as int;
        if bytes.len() < words_start(k) {
            Err(FilterFileError::UnexpectedEof)
        } else {
            let w = u64_at(bytes, count_start(k)) as int;
            if bytes.len() < encoded_len(k, w) {
                Err(FilterFileError::UnexpectedEof)
            } else {
                Ok((k, w))
            }
        }
    }
}

/// The filter holds what the file says: seed word `j` of hasher `i` and
/// word `i` are the numbers at their positions.
pub open spec fn decodes_to(bytes: Seq<u8>, seeds: Seq<[u64; 4]>, words: Seq<u32>) -> bool {
    &&& framing(bytes) == Ok::<(int, int), FilterFileError>(
        (seeds.len() as int, words.len() as int),
    )
    &&& forall|i: int, j: int|
        0 <= i < seeds.len() && 0 <= j < 4 ==> #[trigger] seeds[i][j] == u64_at(
            bytes,
            12 + 32 * i + 8 * j,
        )
    &&& forall|i: int|
        0 <= i < words.len() ==> #[trigger] words[i] == u32_at(
            bytes,
            words_start(seeds.len() as int) + 4 * i,
        )
}

/// `byteorder::LittleEndian::read_u32`: the number in the first four bytes.
/// It panics on fewer.
#[verifier::external_body]
fn read_u32(buf: &[u8]) -> (x: u32)
    requires
        buf@.len() >= 4,
    ensures
        x == spec_u32_from_le_bytes(buf@.subrange(0, 4)),
{
    LittleEndian::read_u32(buf)
}

/// `byteorder::LittleEndian::read_u64`: the number in the first eight bytes.
/// It panics on fewer.
#[verifier::external_body]
fn read_u64(buf: &[u8]) -> (x: u64)
    requires
        buf@.len() >= 8,
    ensures
        x == spec_u64_from_le_bytes(buf@.subrange(0, 8)),
{
    LittleEndian::read_u64(buf)
}

/// `byteorder::LittleEndian::write_u32` into four bytes.
#[verifier::external_body]
fn u32_bytes(x: u32) -> (bytes: Vec<u8>)
    ensures
        bytes@ == spec_u32_to_le_bytes(x),
{
    let mut buf = [0u8; 4];
    LittleEndian::write_u32(&mut buf, x);
    buf.to_vec()
}

/// `byteorder::LittleEndian::write_u64` into eight bytes.
#[verifier::external_body]
fn u64_bytes(x: u64) -> (bytes: Vec<u8>)
    ensures
        bytes@ == spec_u64_to_le_bytes(x),
{
    let mut buf = [0u8; 8];
    LittleEndian::write_u64(&mut buf, x);
    buf.to_vec()
}

/// The positions within the seeds: byte `t` of seed word `j` of hasher `i`.
pub proof fn lemma_seed_position(i: int, j: int, t: int)
    requires
        0 <= i,
        0 <= j < 4,
        0 <= t < 8,
    ensures
        (32 * i + 8 * j + t) / 32 == i,
        ((32 * i + 8 * j + t) % 32) / 8 == j,
        (32 * i + 8 * j + t) % 8 == t,
{
    let q = 32 * i + 8 * j + t;
    assert(q / 32 == i && q % 32 == 8 * j + t) by (nonlinear_arith)
        requires
            q == 32 * i + 8 * j + t,
            0 <= 8 * j + t < 32,
    ;
    assert((8 * j + t) / 8 == j && (8 * j + t) % 8 == t) by (nonlinear_arith)
        requires
            0 <= t < 8,
    ;
    assert(q % 8 == t) by (nonlinear_arith)
        requires
            q == 8 * (4 * i + j) + t,
            0 <= t < 8,
    ;
}

/// The positions within the words: byte `t` of word `i`.
pub proof fn lemma_word_position(i: int, t: int)
    requires
        0 <= i,
        0 <= t < 4,
    ensures
        (4 * i + t) / 4 == i,
        (4 * i + t) % 4 == t,
{
    assert((4 * i + t) / 4 == i && (4 * i + t) % 4 == t) by (nonlinear_arith)
        requires
            0 <= t < 4,
    ;
}

/// The lengths of the encodings of numbers.
pub proof fn lemma_number_lengths()
    ensures
        forall|x: u32| #[trigger] spec_u32_to_le_bytes(x).len() == 4,
        forall|x: u64| #[trigger] spec_u64_to_le_bytes(x).len() == 8,
{
    lemma_auto_spec_u32_to_from_le_bytes();
    lemma_auto_spec_u64_to_from_le_bytes();
}

/// In the file of a filter, every field holds the encoding of its number.
pub proof fn lemma_encoded_fields(seeds: Seq<[u64; 4]>, words: Seq<u32>)
    ensures
        ({
            let bytes = encoded(seeds, words);
            let k = seeds.len() as int;
            &&& bytes.len() == encoded_len(k, words.len() as int)
            &&& bytes.subrange(0, 4) == spec_u32_to_le_bytes(MAGIC)
            &&& bytes.subrange(4, 8) == spec_u32_to_le_bytes(VERSION)
            &&& bytes.subrange(8, 12) == spec_u32_to_le_bytes(k as u32)
            &&& bytes.subrange(count_start(k), count_start(k) + 8) == spec_u64_to_le_bytes(
                words.len() as u64,
            )
            &&& forall|i: int, j: int|
                0 <= i < k && 0 <= j < 4 ==> #[trigger] bytes.subrange(
                    12 + 32 * i + 8 * j,
                    12 + 32 * i + 8 * j + 8,
                ) == spec_u64_to_le_bytes(seeds[i][j])
            &&& forall|i: int|
                0 <= i < words.len() ==> #[trigger] bytes.subrange(
                    words_start(k) + 4 * i,
                    words_start(k) + 4 * i + 4,
                ) == spec_u32_to_le_bytes(words[i])
        }),
{
    let bytes = encoded(seeds, words);
    let k = seeds.len() as int;
    lemma_number_lengths();
    assert(bytes.subrange(0, 4) =~= spec_u32_to_le_bytes(MAGIC));
    assert(bytes.subrange(4, 8) =~= spec_u32_to_le_bytes(VERSION));
    assert(bytes.subrange(8, 12) =~= spec_u32_to_le_bytes(k as u32));
    assert(bytes.subrange(count_start(k), count_start(k) + 8) =~= spec_u64_to_le_bytes(
        words.len() as u64,
    ));
    assert forall|i: int, j: int| 0 <= i < k && 0 <= j < 4 implies #[trigger] bytes.subrange(
        12 + 32 * i + 8 * j,
        12 + 32 * i + 8 * j + 8,
    ) == spec_u64_to_le_bytes(seeds[i][j]) by {
        let part = bytes.subrange(12 + 32 * i + 8 * j, 12 + 32 * i + 8 * j + 8);
        assert forall|t: int| 0 <= t < 8 implies part[t] == spec_u64_to_le_bytes(seeds[i][j])[t] by {
            lemma_seed_position(i, j, t);
        }
        assert(part =~= spec_u64_to_le_bytes(seeds[i][j]));
    }
    assert forall|i: int| 0 <= i < words.len() implies #[trigger] bytes.subrange(
        words_start(k) + 4 * i,
        words_start(k) + 4 * i + 4,
    ) == spec_u32_to_le_bytes(words[i]) by {
        let part = bytes.subrange(words_start(k) + 4 * i, words_start(k) + 4 * i + 4);
        assert forall|t: int| 0 <= t < 4 implies part[t] == spec_u32_to_le_bytes(words[i])[t] by {
            lemma_word_position(i, t);
        }
        assert(part =~= spec_u32_to_le_bytes(words[i]));
    }
}

/// Law: a filter that is written and read again is the same filter. The
/// file of a filter of at most `u32::MAX` hashers and `u64::MAX` words
/// announces its numbers of hashers and words, and holds every seed word
/// and every word of the filter at its position, so that whatever
/// `decodes_to` the file has the same seeds and the same words.
pub proof fn law_round_trip(seeds: Seq<[u64; 4]>, words: Seq<u32>)
    requires
        seeds.len() <= u32::MAX,
        words.len() <= u64::MAX,
    ensures
        decodes_to(encoded(seeds, words), seeds, words),
        forall|s: Seq<[u64; 4]>, w: Seq<u32>| #[trigger]
            decodes_to(encoded(seeds, words), s, w) ==> s.len() == seeds.len() && w =~= words && (
            forall|i: int, j: int|
                0 <= i < s.len() && 0 <= j < 4 ==> #[trigger] s[i][j] == seeds[i][j]),
{
    let bytes = encoded(seeds, words);
    lemma_encoded_fields(seeds, words);
    lemma_auto_spec_u32_to_from_le_bytes();
    lemma_auto_spec_u64_to_from_le_bytes();
    let k = seeds.len() as int;
    assert(u32_at(bytes, 0) == MAGIC) by {
        assert(bytes.subrange(0, 4) == spec_u32_to_le_bytes(MAGIC));
        assert(spec_u32_to_le_bytes(MAGIC).len() == 4);
    }
    assert(u32_at(bytes, 4) == VERSION) by {
        assert(bytes.subrange(4, 8) == spec_u32_to_le_bytes(VERSION));
        assert(spec_u32_to_le_bytes(VERSION).len() == 4);
    }
    assert(u32_at(bytes, 8) == k) by {
        assert(bytes.subrange(8, 12) == spec_u32_to_le_bytes(k as u32));
        assert(spec_u32_to_le_bytes(k as u32).len() == 4);
    }
    assert(u64_at(bytes, count_start(k)) == words.len()) by {
        assert(bytes.subrange(count_start(k), count_start(k) + 8) == spec_u64_to_le_bytes(
            words.len() as u64,
        ));
        assert(spec_u64_to_le_bytes(words.len() as u64).len() == 8);
    }
    assert forall|i: int, j: int| 0 <= i < seeds.len() && 0 <= j < 4 implies #[trigger] seeds[i][j]
        == u64_at(bytes, 12 + 32 * i + 8 * j) by {
        assert(bytes.subrange(12 + 32 * i + 8 * j, 12 + 32 * i + 8 * j + 8)
            == spec_u64_to_le_bytes(seeds[i][j]));
    }
    assert forall|i: int| 0 <= i < words.len() implies #[trigger] words[i] == u32_at(
        bytes,
        words_start(k) + 4 * i,
    ) by {
        assert(bytes.subrange(words_start(k) + 4 * i, words_start(k) + 4 * i + 4)
            == spec_u32_to_le_bytes(words[i]));
    }
}

/// Appends the bytes of one field to the file under construction.
fn append_field(
    out: &mut Vec<u8>,
    piece: Vec<u8>,
    Ghost(seeds): Ghost<Seq<[u64; 4]>>,
    Ghost(words): Ghost<Seq<u32>>,
)
    requires
        old(out)@.len() + piece@.len() <= encoded(seeds, words).len(),
        old(out)@ == encoded(seeds, words).take(old(out)@.len() as int),
        piece@ == encoded(seeds, words).subrange(
            old(out)@.len() as int,
            (old(out)@.len() + piece@.len()) as int,
        ),
    ensures
        final(out)@.len() == old(out)@.len() + piece@.len(),
        final(out)@ == encoded(seeds, words).take(final(out)@.len() as int),
{
    let mut piece = piece;
    out.append(&mut piece);
    proof {
        assert(out@ =~= encoded(seeds, words).take(out@.len() as int));
    }
}

impl BloomFilter {
    /// The file of the filter, or nothing for a filter of more hashers
    /// than the 32 bits of their count can hold.
    pub fn to_bytes(&self) -> (out: Option<Vec<u8>>)
        ensures
            out is Some <==> self.seeds().len() <= u32::MAX,
            out matches Some(b) ==> b@ == encoded(self.seeds(), self.words()),
    {
        let k: usize = self.num_hashers();
        let w: usize = self.num_words();
        if k > u32::MAX as usize {
            return None;
        }
        let ghost seeds = self.seeds();
        let ghost words = self.words();
        let ghost goal = encoded(seeds, words);
        proof {
            lemma_encoded_fields(seeds, words);
            lemma_number_lengths();
        }
        let mut out: Vec<u8> = Vec::new();
        proof {
            assert(out@ =~= goal.take(0));
            assert(goal.subrange(0, 4) == spec_u32_to_le_bytes(MAGIC));
        }
        append_field(&mut out, u32_bytes(MAGIC), Ghost(seeds), Ghost(words));
        append_field(&mut out, u32_bytes(VERSION), Ghost(seeds), Ghost(words));
        append_field(&mut out, u32_bytes(k as u32), Ghost(seeds), Ghost(words));
        let mut i: usize = 0;
        while i < k
            invariant
                i <= k,
                k == seeds.len(),
                k <= u32::MAX,
                w == words.len(),
                seeds == self.seeds(),
                words == self.words(),
                goal == encoded(seeds, words),
                goal.len() == encoded_len(k as int, w as int),
                out@.len() == 12 + 32 * i,
                out@ == goal.take(out@.len() as int),
                forall|a: int, b: int|
                    0 <= a < k && 0 <= b < 4 ==> #[trigger] goal.subrange(
                        12 + 32 * a + 8 * b,
                        12 + 32 * a + 8 * b + 8,
                    ) == spec_u64_to_le_bytes(seeds[a][b]),
                forall|x: u64| #[trigger] spec_u64_to_le_bytes(x).len() == 8,
            decreases k - i,
        {
            let seed = self.seed(i);
            let mut j: usize = 0;
            while j < 4
                invariant
                    j <= 4,
                    i < k,
                    k == seeds.len(),
                    w == words.len(),
                    seed == seeds[i as int],
                    goal == encoded(seeds, words),
                    goal.len() == encoded_len(k as int, w as int),
                    out@.len() == 12 + 32 * i + 8 * j,
                    out@ == goal.take(out@.len() as int),
                    forall|a: int, b: int|
                        0 <= a < k && 0 <= b < 4 ==> #[trigger] goal.subrange(
                            12 + 32 * a + 8 * b,
                            12 + 32 * a + 8 * b + 8,
                        ) == spec_u64_to_le_bytes(seeds[a][b]),
                    forall|x: u64| #[trigger] spec_u64_to_le_bytes(x).len() == 8,
                decreases 4 - j,
            {
                proof {
                    assert(goal.subrange(12 + 32 * i + 8 * j, 12 + 32 * i + 8 * j + 8)
                        == spec_u64_to_le_bytes(seeds[i as int][j as int]));
                }
                append_field(&mut out, u64_bytes(seed[j]), Ghost(seeds), Ghost(words));
                j += 1;
            }
            i += 1;
        }
        append_field(&mut out, u64_bytes(w as u64), Ghost(seeds), Ghost(words));
        let mut i: usize = 0;
        while i < w
            invariant
                i <= w,
                k == seeds.len(),
                w == words.len(),
                words == self.words(),
                goal == encoded(seeds, words),
                goal.len() == encoded_len(k as int, w as int),
                out@.len() == words_start(k as int) + 4 * i,
                out@ == goal.take(out@.len() as int),
                forall|a: int|
                    0 <= a < w ==> #[trigger] goal.subrange(
                        words_start(k as int) + 4 * a,
                        words_start(k as int) + 4 * a + 4,
                    ) == spec_u32_to_le_bytes(words[a]),
                forall|x: u32| #[trigger] spec_u32_to_le_bytes(x).len() == 4,
            decreases w - i,
        {
            proof {
                assert(goal.subrange(
                    words_start(k as int) + 4 * i,
                    words_start(k as int) + 4 * i + 4,
                ) == spec_u32_to_le_bytes(words[i as int]));
            }
            append_field(&mut out, u32_bytes(self.word(i)), Ghost(seeds), Ghost(words));
            i += 1;
        }
        proof {
            assert(goal.take(goal.len() as int) =~= goal);
        }
        Some(out)
    }

    /// Reads a filter from its file. The magic number and the version are
    /// checked; bytes behind the last word are ignored.
    pub fn from_bytes(bytes: &[u8]) -> (r: Result<BloomFilter, FilterFileError>)
        ensures
            match framing(bytes@) {
                Err(e) => r == Err::<BloomFilter, FilterFileError>(e),
                Ok(_) => r matches Ok(f) && decodes_to(bytes@, f.seeds(), f.words()) && f.wf(),
            },
    {
        let len: usize = bytes.len();
        if len < 4 {
            return Err(FilterFileError::UnexpectedEof);
        }
        let magic: u32 = number_at(bytes, 0);
        if magic != MAGIC {
            return Err(FilterFileError::InvalidFile);
        }
        if len < 8 {
            return Err(FilterFileError::UnexpectedEof);
        }
        let version: u32 = number_at(bytes, 4);
        if version != VERSION {
            return Err(FilterFileError::InvalidFile);
        }
        if len < 12 {
            return Err(FilterFileError::UnexpectedEof);
        }
        let k: u32 = number_at(bytes, 8);
        let after_seeds: u128 = 20 + 32 * (k as u128);
        if (len as u128) < after_seeds {
            return Err(FilterFileError::UnexpectedEof);
        }
        let k: usize = k as usize;
        let w: u64 = wide_number_at(bytes, 12 + 32 * k);
        let total: u128 = after_seeds + 4 * (w as u128);
        if (len as u128) < total {
            return Err(FilterFileError::UnexpectedEof);
        }
        let w: usize = w as usize;
        let mut seeds: Vec<[u64; 4]> = Vec::new();
        let mut i: usize = 0;
        while i < k
            invariant
                i <= k,
                len == bytes@.len(),
                20 + 32 * k + 4 * w <= len,
                seeds@.len() == i,
                forall|a: int, b: int|
                    0 <= a < i && 0 <= b < 4 ==> #[trigger] seeds@[a][b] == u64_at(
                        bytes@,
                        12 + 32 * a + 8 * b,
                    ),
            decreases k - i,
        {
            let at: usize = 12 + 32 * i;
            let seed: [u64; 4] = [
                wide_number_at(bytes, at),
                wide_number_at(bytes, at + 8),
                wide_number_at(bytes, at + 16),
                wide_number_at(bytes, at + 24),
            ];
            seeds.push(seed);
            i += 1;
        }
        let start: usize = 20 + 32 * k;
        let mut words: Vec<u32> = Vec::new();
        let mut i: usize = 0;
        while i < w
            invariant
                i <= w,
                len == bytes@.len(),
                start == 20 + 32 * k,
                start + 4 * w <= len,
                words@.len() == i,
                forall|a: int| 0 <= a < i ==> #[trigger] words@[a] == u32_at(bytes@, start + 4 * a),
            decreases w - i,
        {
            words.push(number_at(bytes, start + 4 * i));
            i += 1;
        }
        match BloomFilter::from_parts(words, seeds) {
            Some(filter) => Ok(filter),
            None => Err(FilterFileError::UnexpectedEof),
        }
    }
}

/// The 32-bit number at position `at`.
fn number_at(bytes: &[u8], at: usize) -> (x: u32)
    requires
        at + 4 <= bytes@.len(),
    ensures
        x == u32_at(bytes@, at as int),
{
    let len: usize = bytes.len();
    let part = slice_subrange(bytes, at, at + 4);
    proof {
        assert(part@.subrange(0, 4) =~= bytes@.subrange(at as int, at + 4));
    }
    read_u32(part)
}

/// The 64-bit number at position `at`.
fn wide_number_at(bytes: &[u8], at: usize) -> (x: u64)
    requires
        at + 8 <= bytes@.len(),
    ensures
        x == u64_at(bytes@, at as int),
{
    let len: usize = bytes.len();
    let part = slice_subrange(bytes, at, at + 8);
    proof {
        assert(part@.subrange(0, 8) =~= bytes@.subrange(at as int, at + 8));
    }
    read_u64(part)
}

} // verus!
