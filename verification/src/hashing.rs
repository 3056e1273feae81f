//! Digests and checksums.

use vstd::prelude::*;

verus! {

/// 32-byte content hash (BLAKE3). Used for integrity verification and deduplication.
pub type ContentHash = [u8; 32];

/// The BLAKE3 digest of some bytes.
pub uninterp spec fn blake3_digest(data: Seq<u8>) -> [u8; 32];

/// Calls `blake3::hash` and `blake3::Hash::as_bytes`: the digest of `data`, a function
/// of the bytes alone. What the digest is, and that different bytes have different
/// digests, is left unsaid.
#[verifier::external_body]
pub(crate) fn blake3_hash(data: &[u8]) -> (digest: ContentHash)
    ensures
        digest == blake3_digest(data@),
{
    *blake3::hash(data).as_bytes()
}

/// One step of a cyclic redundancy check that takes the lowest bit first: the bit is shifted
/// out and, where it was set, the polynomial is subtracted.
pub open spec fn crc_step(crc: u32, poly: u32) -> u32 {
    if crc & 1 == 1 {
        (crc >> 1) ^ poly
    } else {
        crc >> 1
    }
}

/// Some steps one after another.
pub open spec fn crc_steps(crc: u32, poly: u32, n: nat) -> u32
    decreases n,
{
    if n == 0 {
        crc
    } else {
        crc_step(crc_steps(crc, poly, (n - 1) as nat), poly)
    }
}

/// The register after some bytes: it starts with all bits set and takes eight steps for each
/// byte.
pub open spec fn crc_register(data: Seq<u8>, poly: u32) -> u32
    decreases data.len(),
{
    if data.len() == 0 {
        0xFFFF_FFFF
    } else {
        crc_steps(crc_register(data.drop_last(), poly) ^ (data.last() as u32), poly, 8)
    }
}

/// The CRC-32 (IEEE 802.3) checksum of some bytes.
pub open spec fn crc32_checksum(data: Seq<u8>) -> u32 {
    crc_register(data, 0xEDB8_8320) ^ 0xFFFF_FFFF
}

/// The CRC-32C (Castagnoli) checksum of some bytes.
pub open spec fn crc32c(data: Seq<u8>) -> u32 {
    crc_register(data, 0x82F6_3B78) ^ 0xFFFF_FFFF
}

/// Calls `crc32fast::hash`: the CRC-32 checksum of `data`, with the IEEE polynomial.
#[verifier::external_body]
pub(crate) fn crc32(data: &[u8]) -> (checksum: u32)
    ensures
        checksum == crc32_checksum(data@),
{
    crc32fast::hash(data)
}

/// Computes the CRC-32C checksum of some bytes.
pub fn crc32c_of(data: &[u8]) -> (checksum: u32)
    ensures
        checksum == crc32c(data@),
{
    let n: usize = data.len();
    let mut register: u32 = 0xFFFF_FFFF;
    let mut i: usize = 0;
    assert(data@.take(0) =~= seq![]);
    while i < n
        invariant
            n == data@.len(),
            i <= n,
            register == crc_register(data@.take(i as int), 0x82F6_3B78),
        decreases n - i,
    {
        let ghost before = register;
        let start: u32 = register ^ (data[i] as u32);
        register = start;
        let mut k: u32 = 0;
        while k < 8
            invariant
                k <= 8,
                register == crc_steps(start, 0x82F6_3B78, k as nat),
            decreases 8 - k,
        {
            register = if register & 1 == 1 {
                (register >> 1) ^ 0x82F6_3B78
            } else {
                register >> 1
            };
            k += 1;
        }
        proof {
            assert(data@.take(i + 1).drop_last() =~= data@.take(i as int));
            assert(data@.take(i + 1).last() == data@[i as int]);
        }
        i += 1;
    }
    assert(data@.take(n as int) =~= data@);
    register ^ 0xFFFF_FFFF
}

} // verus!
