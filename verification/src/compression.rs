//! Block compression.

use crate::bytes::{from_le, get_le};
use vstd::prelude::*;

verus! {

/// What decompressing some bytes gives: the bytes that were compressed, or the text of the
/// error.
pub uninterp spec fn lz4_decompressed(data: Seq<u8>) -> Result<Seq<u8>, Seq<char>>;

/// How many bytes `0xFF` a length may have. The format writes a length as a sum of bytes
/// that ends with the first byte below `0xFF`, and the sums must fit their machine integers.
pub open spec fn run_limit() -> int {
    if usize::MAX > u32::MAX {
        16_843_008
    } else {
        8_421_503
    }
}

/// Whether more than `limit` bytes `0xFF` stand in a row.
pub open spec fn has_long_run(data: Seq<u8>, limit: int) -> bool {
    exists|start: int| #[trigger] is_long_run(data, start, limit)
}

/// Whether more than `limit` bytes `0xFF` stand in a row from `start` on.
pub open spec fn is_long_run(data: Seq<u8>, start: int, limit: int) -> bool {
    &&& 0 <= start
    &&& start + limit < data.len()
    &&& forall|i: int| start <= i <= start + limit ==> #[trigger] data[i] == 0xFF
}

/// Where the bytes `0xFF` from `pos` on end.
pub open spec fn run_end(data: Seq<u8>, pos: int) -> int
    decreases data.len() - pos,
{
    if 0 <= pos < data.len() && data[pos] == 0xFF {
        run_end(data, pos + 1)
    } else {
        pos
    }
}

/// Where the offset of the sequence at `pos` lies. A sequence is a token, literals, two bytes
/// of an offset, and a match. The upper half of the token is the number of literals; where all
/// its bits are set it is continued by the bytes behind the token.
pub open spec fn offset_at(data: Seq<u8>, pos: int) -> int {
    if data[pos] >= 0xF0 {
        let end = run_end(data, pos + 1);
        if end < data.len() {
            end + 1 + 15 + 255 * (end - (pos + 1)) + data[end]
        } else {
            data.len() as int
        }
    } else {
        pos + 1 + data[pos] / 16
    }
}

/// Where the sequence at `pos` ends. The lower half of the token is the length of the match;
/// where all its bits are set it is continued by the bytes behind the offset.
pub open spec fn sequence_end(data: Seq<u8>, pos: int) -> int {
    let at = offset_at(data, pos) + 2;
    if at <= data.len() && data[pos] % 16 == 15 {
        run_end(data, at) + 1
    } else {
        at
    }
}

/// Whether the lengths in the sequence at `pos` are written in few enough bytes.
pub open spec fn sequence_fits(data: Seq<u8>, pos: int) -> bool {
    let at = offset_at(data, pos) + 2;
    &&& data[pos] >= 0xF0 ==> run_end(data, pos + 1) - (pos + 1) <= run_limit()
    &&& at <= data.len() && data[pos] % 16 == 15 ==> run_end(data, at) - at <= run_limit()
}

/// Whether the lengths in all sequences from `pos` on are written in few enough bytes.
pub open spec fn lengths_fit(data: Seq<u8>, pos: int) -> bool
    decreases data.len() - pos,
{
    0 <= pos < data.len() ==> sequence_fits(data, pos) && (pos < sequence_end(data, pos)
        < data.len() ==> lengths_fit(data, sequence_end(data, pos)))
}

/// Whether every length that the bytes give fits its machine integer.
pub open spec fn decompressible(data: Seq<u8>) -> bool {
    &&& lengths_fit(data, 4)
    &&& data.len() >= 4 ==> from_le(data.subrange(0, 4)) <= isize::MAX
}

/// Whether decompressing `packed` gives `data`.
pub open spec fn decompresses_to(packed: Seq<u8>, data: Seq<u8>) -> bool {
    lz4_decompressed(packed) == Ok::<Seq<u8>, Seq<char>>(data)
}

/// Calls `lz4_flex::compress_prepend_size`. Claimed: the result decompresses to `data`; it
/// starts with the length of `data` in four bytes; it is at most a tenth longer than `data`
/// and 24 bytes; and no more than a 255th of the length of `data` and 65536 bytes `0xFF` stand
/// in a row. Every length that is written out ends with a byte below `0xFF`, so a row holds
/// the bytes of at most one length, a 255th of it, and before them a token, an offset or the
/// prepended length, and literals. Of literals it holds less than 32800: two positions within
/// such a row that the compressor looks at one after the other make a match, and on inputs of
/// these lengths they are at most 16385 apart.
/// Which bytes come out differs between machines and is left unsaid. The bounds leave out what
/// overflows the positions that the compressor keeps.
#[verifier::external_body]
fn lz4_compress(data: &[u8]) -> (packed: Vec<u8>)
    requires
        data@.len() <= u32::MAX,
        data@.len() * 110 <= usize::MAX,
    ensures
        decompresses_to(packed@, data@),
        packed@.len() >= 4,
        from_le(packed@.subrange(0, 4)) == data@.len(),
        packed@.len() <= 24 + data@.len() * 110 / 100,
        !has_long_run(packed@, (data@.len() / 255 + 65536) as int),
{
    lz4_flex::compress_prepend_size(data)
}

/// Calls `lz4_flex::decompress_size_prepended`, and `to_string` on its error: a function of
/// the bytes alone. What is required leaves out a length whose sum overflows, and a prepended
/// length beyond what can be allocated.
#[verifier::external_body]
fn lz4_decompress(data: &[u8]) -> (r: Result<Vec<u8>, String>)
    requires
        decompressible(data@),
    ensures
        lz4_decompressed(data@) == (match r {
            Ok(bytes) => Ok::<Seq<u8>, Seq<char>>(bytes@),
            Err(text) => Err::<Seq<u8>, Seq<char>>(text@),
        }),
{
    lz4_flex::decompress_size_prepended(data).map_err(|e| e.to_string())
}

proof fn lemma_run_end(data: Seq<u8>, pos: int)
    requires
        0 <= pos,
    ensures
        run_end(data, pos) >= pos,
        pos <= data.len() ==> run_end(data, pos) <= data.len(),
        forall|i: int| pos <= i < run_end(data, pos) ==> #[trigger] data[i] == 0xFF,
    decreases data.len() - pos,
{
    if pos < data.len() && data[pos] == 0xFF {
        lemma_run_end(data, pos + 1);
    }
}

/// Finds where the bytes `0xFF` from `pos` on end.
fn find_run_end(data: &[u8], pos: usize) -> (end: usize)
    requires
        pos <= data@.len(),
    ensures
        end == run_end(data@, pos as int),
        pos <= end <= data@.len(),
{
    let n: usize = data.len();
    let mut end: usize = pos;
    while end < n && data[end] == 0xFF
        invariant
            n == data@.len(),
            pos <= end <= n,
            run_end(data@, end as int) == run_end(data@, pos as int),
        decreases n - end,
    {
        end += 1;
    }
    end
}

/// Finds where the sequence at `pos` ends; the number of bytes where they end within it.
/// `None` where a length in it has too many bytes.
fn find_sequence_end(data: &[u8], pos: usize) -> (r: Option<usize>)
    requires
        pos < data@.len(),
    ensures
        match r {
            Some(end) => sequence_fits(data@, pos as int) && pos < end <= data@.len() && (if end
                < data@.len() {
                end == sequence_end(data@, pos as int)
            } else {
                sequence_end(data@, pos as int) >= data@.len()
            }),
            None => !sequence_fits(data@, pos as int),
        },
{
    let n: usize = data.len();
    let limit: usize = if usize::MAX as u64 > u32::MAX as u64 {
        16_843_008
    } else {
        8_421_503
    };
    let token: u8 = data[pos];
    // Where the literals begin, and how many there are
    let mut start: usize = pos + 1;
    let mut literals: u64 = (token / 16) as u64;
    if token >= 0xF0 {
        let end: usize = find_run_end(data, start);
        if end - start > limit {
            return None;
        }
        if end >= n {
            return Some(n);
        }
        literals = 15 + 255 * (end - start) as u64 + data[end] as u64;
        start = end + 1;
    }
    let ghost offset = offset_at(data@, pos as int);
    assert(offset == start + literals);
    if n - start < 2 || literals > (n - start - 2) as u64 {
        return Some(n);
    }
    let at: usize = start + literals as usize + 2;
    if token % 16 != 15 {
        return Some(at);
    }
    let end: usize = find_run_end(data, at);
    if end - at > limit {
        return None;
    }
    if end >= n {
        Some(n)
    } else {
        Some(end + 1)
    }
}

/// Whether every length that the bytes give fits its machine integer.
fn is_decompressible(data: &[u8]) -> (r: bool)
    ensures
        r == decompressible(data@),
{
    let n: usize = data.len();
    let mut pos: usize = 4;
    while pos < n
        invariant
            n == data@.len(),
            pos >= 4,
            lengths_fit(data@, pos as int) == lengths_fit(data@, 4),
        decreases n - pos,
    {
        match find_sequence_end(data, pos) {
            None => {
                return false;
            },
            Some(end) => {
                pos = end;
            },
        }
    }
    assert(lengths_fit(data@, 4));
    if n < 4 {
        return true;
    }
    get_le(data, 0, 4) <= isize::MAX as u64
}

/// Whether compressed bytes can be stored: they can be decompressed, and their length fits
/// four bytes together with a checksum.
pub open spec fn storable(packed: Seq<u8>) -> bool {
    decompressible(packed) && packed.len() + 4 <= u32::MAX
}

/// Whether `packed` is a stored form of `data`.
pub open spec fn packs(data: Seq<u8>, packed: Seq<u8>) -> bool {
    storable(packed) && decompresses_to(packed, data)
}

/// Whether the compressor takes some bytes.
pub open spec fn compressible(data: Seq<u8>) -> bool {
    data.len() <= u32::MAX && data.len() * 110 <= usize::MAX
}

/// Whether some bytes are few enough that every compressed form of them can be stored.
pub open spec fn surely_packs(data: Seq<u8>) -> bool {
    compressible(data) && 28 + data.len() * 110 / 100 <= u32::MAX
}

/// Whether some bytes may be too many for a block: they are not surely few enough, and the
/// compressor does not take them or they have a compressed form that cannot be stored.
pub open spec fn may_overflow(data: Seq<u8>) -> bool {
    &&& !surely_packs(data)
    &&& compressible(data) ==> exists|packed: Seq<u8>| #[trigger]
        decompresses_to(packed, data) && !storable(packed)
}

/// Where few bytes `0xFF` stand in a row, no length has too many.
proof fn lemma_few_in_a_row(data: Seq<u8>, limit: int, pos: int)
    requires
        0 <= limit <= run_limit(),
        !has_long_run(data, limit),
        0 <= pos,
    ensures
        lengths_fit(data, pos),
    decreases data.len() - pos,
{
    if pos < data.len() {
        let at = offset_at(data, pos) + 2;
        lemma_run_end(data, pos + 1);
        if run_end(data, pos + 1) - (pos + 1) > limit {
            assert(is_long_run(data, pos + 1, limit));
        }
        if at <= data.len() {
            lemma_run_end(data, at);
            if run_end(data, at) - at > limit {
                assert(is_long_run(data, at, limit));
            }
        }
        if pos < sequence_end(data, pos) < data.len() {
            lemma_few_in_a_row(data, limit, sequence_end(data, pos));
        }
    }
}

/// Compresses a block. `None` where the block is too large to be stored.
pub fn pack(data: &[u8]) -> (r: Option<Vec<u8>>)
    ensures
        match r {
            Some(packed) => packs(data@, packed@),
            None => may_overflow(data@),
        },
{
    if data.len() as u64 > u32::MAX as u64 || data.len() > usize::MAX / 110 {
        return None;
    }
    let packed = lz4_compress(data);
    proof {
        if surely_packs(data@) {
            lemma_few_in_a_row(packed@, (data@.len() / 255 + 65536) as int, 4);
        }
    }
    if packed.len() as u64 > u32::MAX as u64 - 4 || !is_decompressible(packed.as_slice()) {
        assert(decompresses_to(packed@, data@) && !storable(packed@));
        return None;
    }
    Some(packed)
}

/// What unpacking a block gives.
pub open spec fn unpacked(data: Seq<u8>) -> Result<Seq<u8>, Seq<char>> {
    if decompressible(data) {
        lz4_decompressed(data)
    } else {
        Err("length out of range"@)
    }
}

/// Decompresses a block.
pub fn unpack(data: &[u8]) -> (r: Result<Vec<u8>, String>)
    ensures
        unpacked(data@) == (match r {
            Ok(bytes) => Ok::<Seq<u8>, Seq<char>>(bytes@),
            Err(text) => Err::<Seq<u8>, Seq<char>>(text@),
        }),
{
    if is_decompressible(data) {
        lz4_decompress(data)
    } else {
        Err("length out of range".to_owned())
    }
}

/// Unpacking gives back the block that was packed.
pub proof fn law_unpack_of_pack(data: Seq<u8>, packed: Seq<u8>)
    requires
        packs(data, packed),
    ensures
        unpacked(packed) == Ok::<Seq<u8>, Seq<char>>(data),
{
}

/// Blocks below 3.9 gigabytes are always packed, where the compressor takes them at all, which a
/// 64-bit machine always does.
pub proof fn law_ordinary_blocks_are_packed(data: Seq<u8>)
    requires
        data.len() <= 3_900_000_000,
        data.len() * 110 <= usize::MAX,
    ensures
        !may_overflow(data),
{
}

/// Bytes are decompressed as they are, where no more than 8421503 bytes `0xFF` stand in a row in
/// them and the length that they announce can be allocated.
pub proof fn law_ordinary_blocks_are_unpacked(data: Seq<u8>)
    requires
        forall|start: int| !(#[trigger] is_long_run(data, start, 8_421_503)),
        data.len() >= 4 ==> from_le(data.subrange(0, 4)) <= isize::MAX,
    ensures
        unpacked(data) == lz4_decompressed(data),
{
    lemma_few_in_a_row(data, 8_421_503, 4);
}

} // verus!
