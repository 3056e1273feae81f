//! The layout of a table file.
//!
//! ```text
//! [data block 0]   each block: [crc32:4][compressed_data]
//! [data block 1]
//! ...
//! [data block N]
//! [bloom filter]   [num_bits:4][num_hashes:4][bits]
//! [index entries]  each: [key_len:2][key_bytes][offset:8][size:4]
//! [footer: 30B]
//!   [index_offset: 8B]
//!   [index_count: 4B]
//!   [bloom_offset: 8B]
//!   [bloom_size: 4B]
//!   [magic: 4B "ISST"]
//!   [version: 2B]
//! ```
//!
//! Within each data block (after decompression):
//! ```text
//! [entry_count: 4B]
//! [key_len:2B][key_bytes][blob_len:4B][blob_bytes] ...repeated
//! ```

use crate::bytes::{from_le, le};
use crate::compression::{packs, unpacked};
use crate::hashing::crc32_checksum;
use crate::iblob::{parse_blob, Doc};
use crate::sstable::bloom::{empty_filter, with_key, Bloom};
use crate::sstable::error::TableFault;
use vstd::prelude::*;

verus! {

/// SSTable file magic: "ISST"
pub const SSTABLE_MAGIC: [u8; 4] = [0x49, 0x53, 0x53, 0x54];

/// SSTable format version
pub const SSTABLE_VERSION: u16 = 2;

/// Default data block size (4 KB, aligned for direct I/O)
pub const DEFAULT_BLOCK_SIZE: usize = 4096;

/// Footer size: index_offset(8) + index_count(4) + bloom_offset(8) + bloom_size(4) + magic(4)
/// + version(2)
pub const FOOTER_SIZE: usize = 30;

/// A key with the binary form of its document, as a block holds it.
pub open spec fn entry_bytes(e: (Seq<u8>, Seq<u8>)) -> Seq<u8> {
    le(e.0.len(), 2) + e.0 + le(e.1.len(), 4) + e.1
}

/// Entries one after another.
pub open spec fn entries_bytes(entries: Seq<(Seq<u8>, Seq<u8>)>) -> Seq<u8>
    decreases entries.len(),
{
    if entries.len() == 0 {
        seq![]
    } else {
        entries_bytes(entries.drop_last()) + entry_bytes(entries.last())
    }
}

/// A block before compression.
pub open spec fn block_data(entries: Seq<(Seq<u8>, Seq<u8>)>) -> Seq<u8> {
    le(entries.len(), 4) + entries_bytes(entries)
}

/// Entries grouped into blocks, in order: an entry opens a new block where the block before
/// it would outgrow `block_size`.
pub open spec fn grouped(entries: Seq<(Seq<u8>, Seq<u8>)>, block_size: nat) -> Seq<
    Seq<(Seq<u8>, Seq<u8>)>,
>
    decreases entries.len(),
{
    if entries.len() == 0 {
        seq![]
    } else {
        let before = grouped(entries.drop_last(), block_size);
        let entry = entries.last();
        if before.len() == 0 || block_data(before.last()).len() + entry_bytes(entry).len()
            > block_size {
            before.push(seq![entry])
        } else {
            before.update(before.len() - 1, before.last().push(entry))
        }
    }
}

/// A block as the file holds it: a checksum, then the compressed block.
pub open spec fn stored_block(packed: Seq<u8>) -> Seq<u8> {
    le(crc32_checksum(packed) as nat, 4) + packed
}

/// Stored blocks one after another.
pub open spec fn stored_blocks(packed: Seq<Seq<u8>>) -> Seq<u8>
    decreases packed.len(),
{
    if packed.len() == 0 {
        seq![]
    } else {
        stored_blocks(packed.drop_last()) + stored_block(packed.last())
    }
}

/// What the index says of a block.
#[verifier::ext_equal]
pub struct BlockRef {
    pub last_key: Seq<u8>,
    pub offset: nat,
    pub size: nat,
}

/// An index entry: the block's last key, and where the block lies.
pub open spec fn index_record(b: BlockRef) -> Seq<u8> {
    le(b.last_key.len(), 2) + b.last_key + le(b.offset, 8) + le(b.size, 4)
}

/// Index entries one after another.
pub open spec fn index_records(refs: Seq<BlockRef>) -> Seq<u8>
    decreases refs.len(),
{
    if refs.len() == 0 {
        seq![]
    } else {
        index_records(refs.drop_last()) + index_record(refs.last())
    }
}

/// What the index says of the blocks of a file.
pub open spec fn block_refs(blocks: Seq<Seq<(Seq<u8>, Seq<u8>)>>, packed: Seq<Seq<u8>>) -> Seq<
    BlockRef,
> {
    Seq::new(
        blocks.len(),
        |i: int|
            BlockRef {
                last_key: blocks[i].last().0,
                offset: stored_blocks(packed.take(i)).len(),
                size: stored_block(packed[i]).len(),
            },
    )
}

/// A filter as the file holds it.
pub open spec fn bloom_section(f: Bloom) -> Seq<u8> {
    le(f.num_bits as nat, 4) + le(f.num_hashes as nat, 4) + f.bits
}

/// The size of a filter that the footer gives.
pub open spec fn bloom_size(f: Bloom) -> nat {
    (f.bits.len() + 8) % 0x1_0000_0000
}

/// The end of a table file.
pub open spec fn footer(
    index_offset: nat,
    index_count: nat,
    bloom_offset: nat,
    bloom_size: nat,
) -> Seq<u8> {
    le(index_offset, 8) + le(index_count, 4) + le(bloom_offset, 8) + le(bloom_size, 4)
        + SSTABLE_MAGIC@ + le(SSTABLE_VERSION as nat, 2)
}

/// A table file.
pub open spec fn table_bytes(
    blocks: Seq<Seq<(Seq<u8>, Seq<u8>)>>,
    packed: Seq<Seq<u8>>,
    f: Bloom,
) -> Seq<u8> {
    let data = stored_blocks(packed);
    let refs = block_refs(blocks, packed);
    data + bloom_section(f) + index_records(refs) + footer(
        data.len() + bloom_size(f),
        refs.len(),
        data.len(),
        bloom_size(f),
    )
}

/// The filter after an entry's key was added, and for a key of more than 16 bytes also its
/// first 16, by which documents are looked up.
pub open spec fn with_entry_key(f: Bloom, key: Seq<u8>) -> Bloom {
    if key.len() > 16 {
        with_key(with_key(f, key), key.take(16))
    } else {
        with_key(f, key)
    }
}

/// The filter of a table.
pub open spec fn table_filter(entries: Seq<(Seq<u8>, Seq<u8>)>, num_keys: int) -> Bloom
    decreases entries.len(),
{
    if entries.len() == 0 {
        empty_filter(num_keys)
    } else {
        with_entry_key(table_filter(entries.drop_last(), num_keys), entries.last().0)
    }
}

/// Whether each of `packed` is a stored form of the block at its place.
pub open spec fn packs_all(blocks: Seq<Seq<(Seq<u8>, Seq<u8>)>>, packed: Seq<Seq<u8>>) -> bool {
    &&& packed.len() == blocks.len()
    &&& forall|i: int| 0 <= i < blocks.len() ==> packs(block_data(blocks[i]), #[trigger] packed[i])
}

/// Whether `file` is a table of the entries with blocks of up to `block_size` bytes.
pub open spec fn is_table_of(
    file: Seq<u8>,
    entries: Seq<(Seq<u8>, Seq<u8>)>,
    block_size: nat,
) -> bool {
    exists|packed: Seq<Seq<u8>>|
        #![trigger packs_all(grouped(entries, block_size), packed)]
        packs_all(grouped(entries, block_size), packed) && file == table_bytes(
            grouped(entries, block_size),
            packed,
            table_filter(entries, entries.len() as int),
        )
}

/// What a table file says before its blocks are read.
#[verifier::ext_equal]
pub struct Table {
    pub data: Seq<u8>,
    pub blocks: Seq<BlockRef>,
    pub bloom: Bloom,
    pub min_key: Seq<u8>,
    pub max_key: Seq<u8>,
}

/// What reading `count` index entries from `pos` on gives; the index ends before `end`.
pub open spec fn parse_index(data: Seq<u8>, pos: int, count: nat, end: int) -> Result<
    Seq<BlockRef>,
    TableFault,
>
    decreases count,
{
    if count == 0 {
        Ok(seq![])
    } else if pos + 2 > end {
        Err(TableFault::Corrupted("index entry truncated"@))
    } else {
        let key_len = from_le(data.subrange(pos, pos + 2)) as int;
        let at = pos + 2 + key_len;
        if at + 12 > end {
            Err(TableFault::Corrupted("index entry truncated"@))
        } else {
            let entry = BlockRef {
                last_key: data.subrange(pos + 2, at),
                offset: from_le(data.subrange(at, at + 8)),
                size: from_le(data.subrange(at + 8, at + 12)),
            };
            match parse_index(data, at + 12, (count - 1) as nat, end) {
                Err(e) => Err(e),
                Ok(rest) => Ok(seq![entry] + rest),
            }
        }
    }
}

/// What checking and decompressing the block at `offset` gives, where it lies within the
/// file.
pub open spec fn open_block(data: Seq<u8>, b: BlockRef) -> Result<Seq<u8>, TableFault> {
    let start = b.offset as int;
    let end = start + b.size;
    let packed = data.subrange(start + 4, end);
    if from_le(data.subrange(start, start + 4)) != crc32_checksum(packed) {
        Err(TableFault::CrcMismatch { offset: b.offset })
    } else {
        match unpacked(packed) {
            Err(text) => Err(TableFault::Corrupted("LZ4 decompress failed: "@ + text)),
            Ok(raw) => Ok(raw),
        }
    }
}

/// What reading the first key of a block gives.
pub open spec fn first_key(data: Seq<u8>, b: BlockRef) -> Result<Seq<u8>, TableFault> {
    if b.offset + b.size > data.len() || b.size < 4 {
        Err(TableFault::Corrupted("block out of bounds"@))
    } else {
        match open_block(data, b) {
            Err(e) => Err(e),
            Ok(raw) => if raw.len() < 6 {
                Err(TableFault::Corrupted("block too small"@))
            } else {
                let key_len = from_le(raw.subrange(4, 6)) as int;
                if raw.len() < 6 + key_len {
                    Err(TableFault::Corrupted("first key truncated"@))
                } else {
                    Ok(raw.subrange(6, 6 + key_len))
                }
            },
        }
    }
}

/// What reading `count` entries of a block from `pos` on gives.
pub open spec fn parse_block_entries(raw: Seq<u8>, pos: int, count: nat) -> Result<
    Seq<(Seq<u8>, Doc)>,
    TableFault,
>
    decreases count,
{
    if count == 0 {
        Ok(seq![])
    } else if pos + 2 > raw.len() {
        Err(TableFault::Corrupted("truncated key_len in block"@))
    } else {
        let key_len = from_le(raw.subrange(pos, pos + 2)) as int;
        let at = pos + 2 + key_len;
        if at > raw.len() {
            Err(TableFault::Corrupted("truncated key in block"@))
        } else if at + 4 > raw.len() {
            Err(TableFault::Corrupted("truncated blob_len in block"@))
        } else {
            let blob_len = from_le(raw.subrange(at, at + 4)) as int;
            let end = at + 4 + blob_len;
            if end > raw.len() {
                Err(TableFault::Corrupted("truncated blob in block"@))
            } else {
                match parse_blob(raw.subrange(at + 4, end)) {
                    Err(e) => Err(TableFault::Blob(e)),
                    Ok(doc) => match parse_block_entries(raw, end, (count - 1) as nat) {
                        Err(e) => Err(e),
                        Ok(rest) => Ok(seq![(raw.subrange(pos + 2, at), doc)] + rest),
                    },
                }
            }
        }
    }
}

/// What reading a block gives.
pub open spec fn parse_block(data: Seq<u8>, b: BlockRef) -> Result<
    Seq<(Seq<u8>, Doc)>,
    TableFault,
> {
    if b.offset + b.size > data.len() {
        Err(
            TableFault::Corrupted(
                "block at offset "@ + crate::text::decimal_chars(b.offset)
                    + " extends past end of file"@,
            ),
        )
    } else if b.size < 4 {
        Err(TableFault::Corrupted("block too small"@))
    } else {
        match open_block(data, b) {
            Err(e) => Err(e),
            Ok(raw) => if raw.len() < 4 {
                Err(TableFault::Corrupted("block too small"@))
            } else {
                parse_block_entries(raw, 4, from_le(raw.subrange(0, 4)))
            },
        }
    }
}

/// What opening a table file gives.
pub open spec fn parse_table(data: Seq<u8>) -> Result<Table, TableFault> {
    if data.len() < FOOTER_SIZE {
        Err(TableFault::Corrupted("file too small for footer"@))
    } else {
        let end = data.len() - FOOTER_SIZE;
        let index_offset = from_le(data.subrange(end, end + 8));
        let index_count = from_le(data.subrange(end + 8, end + 12));
        let bloom_offset = from_le(data.subrange(end + 12, end + 20)) as int;
        let bloom_len = from_le(data.subrange(end + 20, end + 24)) as int;
        let version = from_le(data.subrange(end + 28, end + 30));
        if data.subrange(end + 24, end + 28) != SSTABLE_MAGIC@ {
            Err(TableFault::InvalidMagic)
        } else if version != SSTABLE_VERSION {
            Err(TableFault::UnsupportedVersion(version))
        } else if bloom_offset + bloom_len > data.len() || bloom_len < 8 {
            Err(TableFault::Corrupted("bloom filter out of bounds"@))
        } else {
            match parse_index(data, index_offset as int, index_count, end) {
                Err(e) => Err(e),
                Ok(blocks) => if blocks.len() == 0 {
                    Err(TableFault::Corrupted("SSTable has no blocks"@))
                } else {
                    match first_key(data, blocks[0]) {
                        Err(e) => Err(e),
                        Ok(min_key) => Ok(
                            Table {
                                data,
                                blocks,
                                bloom: Bloom {
                                    bits: data.subrange(
                                        bloom_offset + 8,
                                        bloom_offset + bloom_len,
                                    ),
                                    num_bits: from_le(
                                        data.subrange(bloom_offset, bloom_offset + 4),
                                    ) as usize,
                                    num_hashes: from_le(
                                        data.subrange(bloom_offset + 4, bloom_offset + 8),
                                    ) as u32,
                                },
                                min_key,
                                max_key: blocks.last().last_key,
                            },
                        ),
                    }
                },
            }
        }
    }
}

} // verus!
