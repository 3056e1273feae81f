//! Bloom filters.

use crate::bytes::{from_le, get_le};
use crate::hashing::{blake3_digest, blake3_hash};
use vstd::prelude::*;

verus! {

pub const DEFAULT_BITS_PER_KEY: usize = 10;

pub const DEFAULT_NUM_HASHES: u32 = 7;

/// What a filter holds.
#[verifier::ext_equal]
pub struct Bloom {
    pub bits: Seq<u8>,
    pub num_bits: usize,
    pub num_hashes: u32,
}

/// The first of the two hashes of a key.
pub open spec fn hash_one(key: Seq<u8>) -> u64 {
    from_le(blake3_digest(key)@.subrange(0, 8)) as u64
}

/// The second of the two hashes of a key.
pub open spec fn hash_two(key: Seq<u8>) -> u64 {
    from_le(blake3_digest(key)@.subrange(8, 16)) as u64
}

/// The bit that hash function `i` gives a key.
pub open spec fn bit_position(key: Seq<u8>, i: u32, num_bits: usize) -> int {
    (hash_one(key).wrapping_add(hash_two(key).wrapping_mul(i as u64)) as usize) as int
        % num_bits as int
}

/// The byte with only bit `p` of its eight set.
pub open spec fn bit_mask(p: int) -> u8 {
    1u8 << ((p % 8) as u8)
}

/// Whether bit `p` is set.
pub open spec fn bit_is_set(bits: Seq<u8>, p: int) -> bool {
    bits[p / 8] & bit_mask(p) != 0
}

/// The bits after bit `p` was set.
pub open spec fn with_bit(bits: Seq<u8>, p: int) -> Seq<u8> {
    bits.update(p / 8, bits[p / 8] | bit_mask(p))
}

/// The bits after those of the first `n` hash functions were set for a key.
pub open spec fn with_key_bits(f: Bloom, key: Seq<u8>, n: nat) -> Seq<u8>
    decreases n,
{
    if n == 0 {
        f.bits
    } else {
        with_bit(
            with_key_bits(f, key, (n - 1) as nat),
            bit_position(key, (n - 1) as u32, f.num_bits),
        )
    }
}

/// The filter after a key was added.
pub open spec fn with_key(f: Bloom, key: Seq<u8>) -> Bloom {
    Bloom { bits: with_key_bits(f, key, f.num_hashes as nat), ..f }
}

/// Whether every bit that a key can be given lies within the filter.
pub open spec fn usable(f: Bloom) -> bool {
    f.num_hashes == 0 || 0 < f.num_bits <= 8 * f.bits.len()
}

/// Whether all bits of a key are set.
pub open spec fn all_set(f: Bloom, key: Seq<u8>) -> bool {
    forall|i: u32|
        0 <= i < f.num_hashes ==> bit_is_set(f.bits, #[trigger] bit_position(key, i, f.num_bits))
}

/// Whether hash function `i` gives a key a bit within the filter.
pub open spec fn reaches(f: Bloom, key: Seq<u8>, i: u32) -> bool {
    f.num_bits > 0 && bit_position(key, i, f.num_bits) / 8 < f.bits.len()
}

/// Whether every bit of a key lies within the filter.
pub open spec fn covers(f: Bloom, key: Seq<u8>) -> bool {
    forall|i: u32| 0 <= i < f.num_hashes ==> #[trigger] reaches(f, key, i)
}

/// What looking at the bits of a key gives, from hash function `i` on: whether all are set,
/// where looking ends with the first that is not, or nothing where it leaves the filter.
pub open spec fn probed(f: Bloom, key: Seq<u8>, i: u32) -> Option<bool>
    decreases f.num_hashes - i,
{
    if i >= f.num_hashes {
        Some(true)
    } else if !reaches(f, key, i) {
        None
    } else if !bit_is_set(f.bits, bit_position(key, i, f.num_bits)) {
        Some(false)
    } else {
        probed(f, key, (i + 1) as u32)
    }
}

/// Looking at all bits of a key tells whether all are set.
proof fn lemma_probed(f: Bloom, key: Seq<u8>, i: u32)
    requires
        i <= f.num_hashes,
        forall|j: u32|
            0 <= j < i ==> bit_is_set(f.bits, #[trigger] bit_position(key, j, f.num_bits)),
    ensures
        probed(f, key, i) matches Some(r) ==> r == all_set(f, key),
        covers(f, key) ==> probed(f, key, i) is Some,
    decreases f.num_hashes - i,
{
    if i < f.num_hashes && reaches(f, key, i) && bit_is_set(
        f.bits,
        bit_position(key, i, f.num_bits),
    ) {
        lemma_probed(f, key, (i + 1) as u32);
    } else if i < f.num_hashes && !reaches(f, key, i) {
        assert(!covers(f, key));
    }
}

/// A filter whose bits all lie within its bytes answers for every key.
pub proof fn lemma_usable_answers(f: Bloom, key: Seq<u8>)
    requires
        usable(f),
    ensures
        covers(f, key),
        probed(f, key, 0) == Some(all_set(f, key)),
{
    assert forall|i: u32| 0 <= i < f.num_hashes implies #[trigger] reaches(f, key, i) by {
        lemma_position_bound(key, i, f);
    }
    lemma_probed(f, key, 0);
}

/// An empty filter sized for a number of keys.
pub open spec fn empty_filter(num_keys: int) -> Bloom {
    let num_bits = if num_keys * DEFAULT_BITS_PER_KEY < 64 {
        64
    } else {
        num_keys * DEFAULT_BITS_PER_KEY
    };
    Bloom {
        bits: Seq::new(((num_bits + 7) / 8) as nat, |i: int| 0u8),
        num_bits: num_bits as usize,
        num_hashes: DEFAULT_NUM_HASHES,
    }
}

proof fn lemma_position_bound(key: Seq<u8>, i: u32, f: Bloom)
    requires
        0 < f.num_bits <= 8 * f.bits.len(),
    ensures
        0 <= bit_position(key, i, f.num_bits) < f.num_bits,
        0 <= bit_position(key, i, f.num_bits) / 8 < f.bits.len(),
{
}

/// Setting a bit sets it and clears none.
proof fn lemma_with_bit(bits: Seq<u8>, p: int, q: int)
    requires
        0 <= p / 8 < bits.len(),
        0 <= q / 8 < bits.len(),
    ensures
        bit_is_set(with_bit(bits, p), p),
        bit_is_set(bits, q) ==> bit_is_set(with_bit(bits, p), q),
{
    let b = bits[p / 8];
    let m = (p % 8) as u8;
    assert((b | (1u8 << m)) & (1u8 << m) != 0) by (bit_vector)
        requires
            m < 8,
    ;
    let mp = bit_mask(p);
    let mq = bit_mask(q);
    assert(b & mq != 0 ==> (b | mp) & mq != 0) by (bit_vector);
}

proof fn lemma_with_key_bits(f: Bloom, key: Seq<u8>, n: nat, q: int)
    requires
        covers(f, key),
        n <= f.num_hashes,
    ensures
        with_key_bits(f, key, n).len() == f.bits.len(),
        0 <= q / 8 < f.bits.len() && bit_is_set(f.bits, q) ==> bit_is_set(
            with_key_bits(f, key, n),
            q,
        ),
        forall|i: u32|
            0 <= i < n ==> bit_is_set(
                with_key_bits(f, key, n),
                #[trigger] bit_position(key, i, f.num_bits),
            ),
    decreases n,
{
    if n > 0 {
        let m = (n - 1) as nat;
        let before = with_key_bits(f, key, m);
        let p = bit_position(key, m as u32, f.num_bits);
        lemma_with_key_bits(f, key, m, q);
        assert(reaches(f, key, m as u32));
        if 0 <= q / 8 < f.bits.len() {
            lemma_with_bit(before, p, q);
        }
        assert forall|i: u32| 0 <= i < n implies bit_is_set(
            with_key_bits(f, key, n),
            #[trigger] bit_position(key, i, f.num_bits),
        ) by {
            assert(reaches(f, key, i));
            lemma_with_bit(before, p, bit_position(key, i, f.num_bits));
        }
    }
}

/// A filter never denies a key that was added, and adding keys denies no other key that it
/// did not deny before.
pub proof fn law_no_false_negatives(f: Bloom, key: Seq<u8>, other: Seq<u8>)
    requires
        usable(f),
    ensures
        usable(with_key(f, key)),
        all_set(with_key(f, key), key),
        all_set(f, other) ==> all_set(with_key(f, key), other),
{
    let g = with_key(f, key);
    lemma_usable_answers(f, key);
    lemma_usable_answers(f, other);
    lemma_with_key_bits(f, key, f.num_hashes as nat, 0);
    if all_set(f, other) {
        assert forall|i: u32| 0 <= i < g.num_hashes implies bit_is_set(
            g.bits,
            #[trigger] bit_position(other, i, g.num_bits),
        ) by {
            assert(reaches(f, other, i));
            lemma_with_key_bits(f, key, f.num_hashes as nat, bit_position(other, i, f.num_bits));
        }
    }
}

/// Adding a key does not resize a filter.
pub proof fn lemma_with_key_len(f: Bloom, key: Seq<u8>)
    requires
        usable(f),
    ensures
        with_key(f, key).bits.len() == f.bits.len(),
{
    lemma_usable_answers(f, key);
    lemma_with_key_bits(f, key, f.num_hashes as nat, 0);
}

/// How many of the first `n` bits are set.
pub open spec fn set_count(bits: Seq<u8>, n: nat) -> nat
    decreases n,
{
    if n == 0 {
        0
    } else if bit_is_set(bits, n - 1) {
        set_count(bits, (n - 1) as nat) + 1
    } else {
        set_count(bits, (n - 1) as nat)
    }
}

/// Setting a bit changes no other bit.
proof fn lemma_with_bit_others(bits: Seq<u8>, p: int, q: int)
    requires
        0 <= p / 8 < bits.len(),
        0 <= q / 8 < bits.len(),
        p != q,
    ensures
        bit_is_set(with_bit(bits, p), q) == bit_is_set(bits, q),
{
    if p / 8 == q / 8 {
        let b = bits[p / 8];
        let m = (p % 8) as u8;
        let k = (q % 8) as u8;
        assert(p == 8 * (p / 8) + p % 8 && q == 8 * (q / 8) + q % 8);
        assert((b | (1u8 << m)) & (1u8 << k) == b & (1u8 << k)) by (bit_vector)
            requires
                m < 8,
                k < 8,
                m != k,
        ;
    }
}

proof fn lemma_set_count_with_bit(bits: Seq<u8>, p: int, n: nat)
    requires
        0 <= p / 8 < bits.len(),
        n <= 8 * bits.len(),
    ensures
        set_count(bits, n) <= set_count(with_bit(bits, p), n) <= set_count(bits, n) + 1,
        p < 0 || n <= p ==> set_count(with_bit(bits, p), n) == set_count(bits, n),
    decreases n,
{
    if n > 0 {
        lemma_set_count_with_bit(bits, p, (n - 1) as nat);
        if p != n - 1 {
            lemma_with_bit_others(bits, p, n - 1);
        } else {
            lemma_with_bit(bits, p, p);
        }
    }
}

proof fn lemma_set_count_with_key(f: Bloom, key: Seq<u8>, n: nat)
    requires
        covers(f, key),
        n <= f.num_hashes,
    ensures
        set_count(f.bits, 8 * f.bits.len()) <= set_count(
            with_key_bits(f, key, n),
            8 * f.bits.len(),
        ) <= set_count(f.bits, 8 * f.bits.len()) + n,
    decreases n,
{
    if n > 0 {
        let m = (n - 1) as nat;
        lemma_set_count_with_key(f, key, m);
        lemma_with_key_bits(f, key, m, 0);
        assert(reaches(f, key, m as u32));
        lemma_set_count_with_bit(
            with_key_bits(f, key, m),
            bit_position(key, m as u32, f.num_bits),
            8 * f.bits.len(),
        );
    }
}

/// Setting a bit that is set changes nothing.
proof fn lemma_with_bit_again(bits: Seq<u8>, p: int)
    requires
        0 <= p / 8 < bits.len(),
        bit_is_set(bits, p),
    ensures
        with_bit(bits, p) == bits,
{
    let b = bits[p / 8];
    let m = (p % 8) as u8;
    assert(b & (1u8 << m) != 0 ==> b | (1u8 << m) == b) by (bit_vector)
        requires
            m < 8,
    ;
    assert(with_bit(bits, p) =~= bits);
}

proof fn lemma_with_key_again(f: Bloom, key: Seq<u8>, n: nat)
    requires
        covers(f, key),
        all_set(f, key),
        n <= f.num_hashes,
    ensures
        with_key_bits(f, key, n) == f.bits,
    decreases n,
{
    if n > 0 {
        let m = (n - 1) as nat;
        lemma_with_key_again(f, key, m);
        assert(reaches(f, key, m as u32));
        lemma_with_bit_again(f.bits, bit_position(key, m as u32, f.num_bits));
    }
}

/// Adding a key keeps the size of the filter and every bit that is set, sets at most one more
/// for each hash function, and changes nothing where the filter admits the key already: adding
/// it once more leaves the filter as it is.
pub proof fn law_insert_sets_few_bits(f: Bloom, key: Seq<u8>)
    requires
        covers(f, key),
    ensures
        with_key(f, key).num_bits == f.num_bits,
        with_key(f, key).num_hashes == f.num_hashes,
        with_key(f, key).bits.len() == f.bits.len(),
        forall|q: int|
            0 <= q < 8 * f.bits.len() && #[trigger] bit_is_set(f.bits, q) ==> bit_is_set(
                with_key(f, key).bits,
                q,
            ),
        set_count(with_key(f, key).bits, 8 * f.bits.len()) <= set_count(
            f.bits,
            8 * f.bits.len(),
        ) + f.num_hashes,
        all_set(f, key) ==> with_key(f, key) == f,
        with_key(with_key(f, key), key) == with_key(f, key),
{
    let g = with_key(f, key);
    let n = f.num_hashes as nat;
    lemma_with_key_bits(f, key, n, 0);
    lemma_set_count_with_key(f, key, n);
    assert forall|q: int|
        0 <= q < 8 * f.bits.len() && #[trigger] bit_is_set(f.bits, q) implies bit_is_set(
        g.bits,
        q,
    ) by {
        lemma_with_key_bits(f, key, n, q);
    }
    if all_set(f, key) {
        lemma_with_key_again(f, key, n);
        assert(g =~= f);
    }
    assert forall|i: u32| 0 <= i < g.num_hashes implies #[trigger] reaches(g, key, i) by {
        assert(reaches(f, key, i));
    }
    assert(all_set(g, key));
    lemma_with_key_again(g, key, n);
    assert(with_key(g, key) =~= g);
}

/// Simple bloom filter for SSTable key lookups.
///
/// Uses k=7 hash functions for ~1% false positive rate at 10 bits per key.
/// Accepts variable-length key bytes: hashes them via BLAKE3 truncation
/// to derive the bloom filter bit positions.
#[derive(Debug)]
pub struct BloomFilter {
    bits: Vec<u8>,
    num_bits: usize,
    num_hashes: u32,
}

impl View for BloomFilter {
    type V = Bloom;

    closed spec fn view(&self) -> Bloom {
        Bloom { bits: self.bits@, num_bits: self.num_bits, num_hashes: self.num_hashes }
    }
}

impl BloomFilter {
    /// Create a bloom filter sized for the expected number of keys.
    pub fn new(num_keys: usize) -> (filter: Self)
        requires
            num_keys * DEFAULT_BITS_PER_KEY <= usize::MAX,
        ensures
            filter@ == empty_filter(num_keys as int),
            usable(filter@),
    {
        let wanted: usize = num_keys * DEFAULT_BITS_PER_KEY;
        let num_bits: usize = if wanted < 64 {
            64
        } else {
            wanted
        };
        let num_bytes: usize = num_bits / 8 + if num_bits % 8 == 0 {
            0
        } else {
            1
        };
        let filter = BloomFilter {
            bits: vec![0u8; num_bytes],
            num_bits,
            num_hashes: DEFAULT_NUM_HASHES,
        };
        assert(filter@.bits =~= empty_filter(num_keys as int).bits);
        filter
    }

    /// Create from raw bytes (for deserialization).
    pub fn from_bytes(data: &[u8], num_bits: usize, num_hashes: u32) -> (filter: Self)
        ensures
            filter@ == (Bloom { bits: data@, num_bits, num_hashes }),
    {
        BloomFilter { bits: vstd::slice::slice_to_vec(data), num_bits, num_hashes }
    }

    /// Derive two 64-bit hash values from arbitrary key bytes.
    /// Uses BLAKE3 to hash variable-length keys down to 16 bytes.
    fn hash_key(key: &[u8]) -> (r: (u64, u64))
        ensures
            r.0 == hash_one(key@),
            r.1 == hash_two(key@),
    {
        let digest = blake3_hash(key);
        (get_le(&digest, 0, 8), get_le(&digest, 8, 8))
    }

    /// Add a key to the filter.
    pub fn insert(&mut self, key: &[u8])
        requires
            usable(old(self)@) || covers(old(self)@, key@),
        ensures
            final(self)@ == with_key(old(self)@, key@),
            usable(old(self)@) ==> usable(final(self)@),
    {
        proof {
            if usable(self@) {
                lemma_usable_answers(self@, key@);
            }
        }
        let (h1, h2) = Self::hash_key(key);
        let ghost f = self@;
        let n: u32 = self.num_hashes;
        let mut i: u32 = 0;
        while i < n
            invariant
                n == f.num_hashes,
                i <= n,
                h1 == hash_one(key@),
                h2 == hash_two(key@),
                covers(f, key@),
                self.num_bits == f.num_bits,
                self.num_hashes == f.num_hashes,
                self.bits@ == with_key_bits(f, key@, i as nat),
                self.bits@.len() == f.bits.len(),
            decreases n - i,
        {
            assert(reaches(f, key@, i));
            let pos: usize = h1.wrapping_add(h2.wrapping_mul(i as u64)) as usize % self.num_bits;
            assert(pos == bit_position(key@, i, f.num_bits));
            let byte: u8 = self.bits[pos / 8] | (1u8 << ((pos % 8) as u8));
            self.bits.set(pos / 8, byte);
            i += 1;
        }
    }

    /// Check if a key might be in the filter.
    /// Returns false only if the key is definitely not present.
    pub fn may_contain(&self, key: &[u8]) -> (r: bool)
        requires
            usable(self@) || probed(self@, key@, 0) is Some,
        ensures
            r == all_set(self@, key@),
            probed(self@, key@, 0) == Some(r),
    {
        proof {
            if usable(self@) {
                lemma_usable_answers(self@, key@);
            }
            lemma_probed(self@, key@, 0);
        }
        match self.probe(key) {
            Some(r) => r,
            None => true,
        }
    }

    /// Check if a key might be in the filter. `None` where the answer rests on a bit that lies
    /// outside of the filter.
    pub fn probe(&self, key: &[u8]) -> (r: Option<bool>)
        ensures
            r == probed(self@, key@, 0),
    {
        let (h1, h2) = Self::hash_key(key);
        let ghost f = self@;
        let n: u32 = self.num_hashes;
        let mut i: u32 = 0;
        while i < n
            invariant
                n == f.num_hashes,
                f == self@,
                i <= n,
                h1 == hash_one(key@),
                h2 == hash_two(key@),
                probed(f, key@, i) == probed(f, key@, 0),
            decreases n - i,
        {
            if self.num_bits == 0 {
                return None;
            }
            let pos: usize = h1.wrapping_add(h2.wrapping_mul(i as u64)) as usize % self.num_bits;
            assert(pos == bit_position(key@, i, f.num_bits));
            if pos / 8 >= self.bits.len() {
                return None;
            }
            if self.bits[pos / 8] & (1u8 << ((pos % 8) as u8)) == 0 {
                return Some(false);
            }
            i += 1;
        }
        Some(true)
    }

    /// Raw bytes of the filter (for serialization).
    pub fn as_bytes(&self) -> (bytes: &[u8])
        ensures
            bytes@ == self@.bits,
    {
        self.bits.as_slice()
    }

    /// Number of bits in the filter.
    pub fn num_bits(&self) -> (n: usize)
        ensures
            n == self@.num_bits,
    {
        self.num_bits
    }

    /// Number of hash functions.
    pub fn num_hashes(&self) -> (n: u32)
        ensures
            n == self@.num_hashes,
    {
        self.num_hashes
    }
}

impl Clone for BloomFilter {
    fn clone(&self) -> (filter: Self)
        ensures
            filter@ == self@,
    {
        Self::from_bytes(self.as_bytes(), self.num_bits, self.num_hashes)
    }
}

} // verus!
