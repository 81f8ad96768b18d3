//! A fixed-size bit array with three probes per word.
use vstd::prelude::*;
use vstd::utf8::encode_utf8;

verus! {

/// Number of bits in each block's filter.
pub const BLOOM_SIZE: u128 = 128_966;

/// Number of probes made for each word.
pub const BLOOM_HASHES: u128 = 3;

/// Number of 128-bit words that hold the `BLOOM_SIZE` bits (rounded up).
pub const BLOOM_WORDS: usize = 1008;

/// Seed of the word hash.
pub const HASH_SEED: u32 = 0;

/// The 128-bit MurmurHash3 (x64 variant) of a byte sequence under a seed.
pub uninterp spec fn murmur3_x64_128_of(bytes: Seq<u8>, seed: u32) -> u128;

/// Relies on `murmur3::murmur3_x64_128` reading from a byte slice: the hash
/// depends on the bytes and the seed alone, and reading a slice never fails.
#[verifier::external_body]
fn murmur3_hash(bytes: &[u8], seed: u32) -> (r: u128)
    ensures
        r == murmur3_x64_128_of(bytes@, seed),
{
    let mut source: &[u8] = bytes;
    murmur3::murmur3_x64_128(&mut source, seed).expect("reading a byte slice does not fail")
}

/// The hash of a word: MurmurHash3 of its UTF-8 bytes.
pub open spec fn word_hash(w: Seq<char>) -> u128 {
    murmur3_x64_128_of(encode_utf8(w), HASH_SEED)
}

/// The `i`-th probe for hash `h` (double hashing): the high half of the hash
/// plus `i` times its low half, taken modulo the filter size.
pub open spec fn probe(h: u128, i: int) -> int {
    (h as int / 0x1_0000_0000_0000_0000 + i * (h as int % 0x1_0000_0000_0000_0000)) % (
    BLOOM_SIZE as int)
}

/// Whether `p` is one of the probes of hash `h`.
pub open spec fn is_probe(h: u128, p: int) -> bool {
    exists|i: int| 0 <= i < BLOOM_HASHES && p == probe(h, i)
}

/// Bit `k` of a 128-bit word.
pub open spec fn word_bit(w: u128, k: int) -> bool {
    (w >> (k as u32)) & 1u128 == 1u128
}

/// Bit `p` of a packed bit array.
pub open spec fn has_bit(words: Seq<u128>, p: int) -> bool {
    word_bit(words[p / 128], p % 128)
}

/// Whether every probe of word `w` finds its bit set.
pub open spec fn may_contain(words: Seq<u128>, w: Seq<char>) -> bool {
    forall|i: int| 0 <= i < BLOOM_HASHES ==> has_bit(words, #[trigger] probe(word_hash(w), i))
}

/// The bits after adding a word whose hash is `h`: each bit stays set, and
/// the probes of `h` become set.
pub open spec fn added(old_words: Seq<u128>, new_words: Seq<u128>, h: u128) -> bool {
    &&& new_words.len() == old_words.len()
    &&& forall|p: int|
        0 <= p < old_words.len() * 128 ==> #[trigger] has_bit(new_words, p) == (has_bit(
            old_words,
            p,
        ) || is_probe(h, p))
}

proof fn lemma_set_bit(w: u128, k: u32, j: u32)
    requires
        k < 128,
        j < 128,
    ensures
        ((w | (1u128 << k)) >> j) & 1u128 == 1u128 <==> (j == k || (w >> j) & 1u128 == 1u128),
{
    assert(((w | (1u128 << k)) >> j) & 1u128 == 1u128 <==> (j == k || (w >> j) & 1u128
        == 1u128)) by (bit_vector)
        requires
            k < 128,
            j < 128,
    ;
}

/// A bit array of `BLOOM_SIZE` bits, packed into `BLOOM_WORDS` 128-bit words.
/// Bits are only ever set, never cleared.
pub struct BloomFilter {
    words: Vec<u128>,
}

impl View for BloomFilter {
    type V = Seq<u128>;

    closed spec fn view(&self) -> Seq<u128> {
        self.words@
    }
}

impl BloomFilter {
    /// The filter has its fixed number of words.
    pub open spec fn wf(&self) -> bool {
        self@.len() == BLOOM_WORDS
    }

    /// An empty filter: no bit is set.
    pub fn new() -> (r: BloomFilter)
        ensures
            r.wf(),
            forall|i: int| 0 <= i < BLOOM_WORDS ==> r@[i] == 0,
    {
        let mut words: Vec<u128> = Vec::with_capacity(BLOOM_WORDS);
        while words.len() < BLOOM_WORDS
            invariant
                words.len() <= BLOOM_WORDS,
                forall|i: int| 0 <= i < words.len() ==> words@[i] == 0,
            decreases BLOOM_WORDS - words.len(),
        {
            words.push(0);
        }
        BloomFilter { words }
    }

    /// A filter holding exactly the given words.
    pub fn from_words(words: Vec<u128>) -> (r: BloomFilter)
        requires
            words.len() == BLOOM_WORDS,
        ensures
            r.wf(),
            r@ == words@,
    {
        BloomFilter { words }
    }

    /// The packed words, in order.
    pub fn words(&self) -> (r: &Vec<u128>)
        ensures
            r@ == self@,
    {
        &self.words
    }

    /// Tests bit `pos`.
    pub fn test(&self, pos: usize) -> (r: bool)
        requires
            self.wf(),
            pos < BLOOM_SIZE,
        ensures
            r == has_bit(self@, pos as int),
    {
        (self.words[pos / 128] >> ((pos % 128) as u32)) & 1u128 == 1u128
    }

    /// Sets bit `pos`; every other bit keeps its value.
    pub fn set(&mut self, pos: usize)
        requires
            old(self).wf(),
            pos < BLOOM_SIZE,
        ensures
            final(self).wf(),
            forall|p: int|
                0 <= p < BLOOM_WORDS * 128 ==> #[trigger] has_bit(final(self)@, p) == (has_bit(
                    old(self)@,
                    p,
                ) || p == pos),
    {
        let idx = pos / 128;
        let k = (pos % 128) as u32;
        let w = self.words[idx];
        self.words.set(idx, w | (1u128 << k));
        proof {
            assert forall|p: int| 0 <= p < BLOOM_WORDS * 128 implies #[trigger] has_bit(
                self@,
                p,
            ) == (has_bit(old(self)@, p) || p == pos) by {
                if p / 128 == idx {
                    lemma_set_bit(w, k, (p % 128) as u32);
                }
            }
        }
    }

    /// Sets the bits of every probe of `word`.
    pub fn insert(&mut self, word: &str)
        requires
            old(self).wf(),
        ensures
            final(self).wf(),
            added(old(self)@, final(self)@, word_hash(word@)),
    {
        let hash = murmur3_hash(word.as_bytes(), HASH_SEED);
        let step: u128 = hash % 0x1_0000_0000_0000_0000;
        let mut acc: u128 = hash / 0x1_0000_0000_0000_0000;
        let ghost h = hash;
        let mut i: u128 = 0;
        while i < BLOOM_HASHES
            invariant
                self.wf(),
                h == word_hash(word@),
                i <= BLOOM_HASHES,
                step == h as int % 0x1_0000_0000_0000_0000,
                step < 0x1_0000_0000_0000_0000,
                acc == h as int / 0x1_0000_0000_0000_0000 + i * step,
                acc <= 0x1_0000_0000_0000_0000 * (i + 1),
                forall|p: int|
                    0 <= p < BLOOM_WORDS * 128 ==> #[trigger] has_bit(self@, p) == (has_bit(
                        old(self)@,
                        p,
                    ) || exists|j: int| 0 <= j < i && p == probe(h, j)),
            decreases BLOOM_HASHES - i,
        {
            let pos = (acc % BLOOM_SIZE) as usize;
            assert(pos == probe(h, i as int));
            let ghost before = self@;
            self.set(pos);
            assert forall|p: int| 0 <= p < BLOOM_WORDS * 128 implies #[trigger] has_bit(self@, p)
                == (has_bit(old(self)@, p) || exists|j: int| 0 <= j < i + 1 && p == probe(h, j)) by {
                if p == pos {
                    assert(p == probe(h, i as int));
                }
                if exists|j: int| 0 <= j < i + 1 && p == probe(h, j) {
                    let j = choose|j: int| 0 <= j < i + 1 && p == probe(h, j);
                    if j < i {
                        assert(has_bit(before, p));
                    }
                }
            }
            proof {
                assert((i + 1) * step == i * step + step) by (nonlinear_arith);
            }
            acc = acc + step;
            i = i + 1;
        }
        proof {
            assert forall|p: int| 0 <= p < old(self)@.len() * 128 implies #[trigger] has_bit(
                self@,
                p,
            ) == (has_bit(old(self)@, p) || is_probe(h, p)) by {
                assert(has_bit(self@, p) == (has_bit(old(self)@, p) || exists|j: int|
                    0 <= j < i && p == probe(h, j)));
            }
        }
    }

    /// Whether every probe of `word` finds its bit set: false only if `word`
    /// was never added.
    pub fn contains(&self, word: &str) -> (r: bool)
        requires
            self.wf(),
        ensures
            r == may_contain(self@, word@),
    {
        let hash = murmur3_hash(word.as_bytes(), HASH_SEED);
        let step: u128 = hash % 0x1_0000_0000_0000_0000;
        let mut acc: u128 = hash / 0x1_0000_0000_0000_0000;
        let ghost h = hash;
        let mut i: u128 = 0;
        while i < BLOOM_HASHES
            invariant
                self.wf(),
                h == word_hash(word@),
                i <= BLOOM_HASHES,
                step == h as int % 0x1_0000_0000_0000_0000,
                step < 0x1_0000_0000_0000_0000,
                acc == h as int / 0x1_0000_0000_0000_0000 + i * step,
                acc <= 0x1_0000_0000_0000_0000 * (i + 1),
                forall|j: int| 0 <= j < i ==> has_bit(self@, #[trigger] probe(h, j)),
            decreases BLOOM_HASHES - i,
        {
            let pos = (acc % BLOOM_SIZE) as usize;
            assert(pos == probe(h, i as int));
            if !self.test(pos) {
                return false;
            }
            proof {
                assert((i + 1) * step == i * step + step) by (nonlinear_arith);
            }
            acc = acc + step;
            i = i + 1;
        }
        true
    }
}

} // verus!
