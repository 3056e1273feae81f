//! Laws of the parts of a table: ranges, lookups, blocks, checksums and filters.

use crate::bytes::{from_le, lex_le, lex_lt};
use crate::compression::unpacked;
use crate::hashing::crc32_checksum;
use crate::iblob::Doc;
use crate::sort::{law_sort_is_stable, sorted_by_rank};
use crate::sstable::bloom::{
    all_set, bit_is_set, bit_mask, bit_position, empty_filter, lemma_usable_answers, probed,
    usable,
};
use crate::sstable::error::TableFault;
use crate::sstable::format::{
    block_data, entries_bytes, entry_bytes, grouped, open_block, parse_table, BlockRef, Table,
};
use crate::sstable::keys::{IdKeyExtractor, KeyExtractor, MvccKeyExtractor};
use crate::sstable::laws::{first_with_key, in_range};
use crate::sstable::reader::latest_of;
use crate::sstable::writer::sorted_docs;
use vstd::prelude::*;

verus! {

/// The entries of a range are those whose keys are neither below its start nor above its end,
/// both bounds included, in their order.
pub proof fn law_range_selects_entries(
    entries: Seq<(Seq<u8>, Doc)>,
    start: Seq<u8>,
    end: Seq<u8>,
)
    ensures
        in_range(entries, start, end) == entries.filter(
            |e: (Seq<u8>, Doc)| lex_le(start, e.0) && lex_le(e.0, end),
        ),
    decreases entries.len(),
{
    reveal(Seq::filter);
    if entries.len() > 0 {
        law_range_selects_entries(entries.drop_last(), start, end);
    }
}

/// Looking up a key gives the document of the first entry that has it, and nothing exactly
/// where no entry has it.
pub proof fn law_lookup_gives_first(entries: Seq<(Seq<u8>, Doc)>, key: Seq<u8>, i: int)
    ensures
        0 <= i < entries.len() && entries[i].0 == key && (forall|j: int|
            0 <= j < i ==> (#[trigger] entries[j]).0 != key) ==> first_with_key(entries, key)
            == Some(entries[i].1),
        first_with_key(entries, key) is None <==> forall|j: int|
            0 <= j < entries.len() ==> (#[trigger] entries[j]).0 != key,
    decreases entries.len(),
{
    if entries.len() > 0 && entries[0].0 != key {
        let rest = entries.drop_first();
        assert forall|j: int| 0 < j < entries.len() implies #[trigger] entries[j] == rest[j
            - 1] by {}
        law_lookup_gives_first(rest, key, i - 1);
        if forall|j: int| 0 <= j < entries.len() ==> (#[trigger] entries[j]).0 != key {
            assert forall|j: int| 0 <= j < rest.len() implies (#[trigger] rest[j]).0 != key by {
                assert(rest[j] == entries[j + 1]);
            }
        }
        if 0 <= i < entries.len() && forall|j: int|
            0 <= j < i ==> (#[trigger] entries[j]).0 != key {
            assert forall|j: int| 0 <= j < i - 1 implies (#[trigger] rest[j]).0 != key by {
                assert(rest[j] == entries[j + 1]);
            }
        }
    }
}

/// Of the versions of a document that a snapshot sees, the highest is picked, and nothing
/// exactly where it sees none.
pub proof fn law_pick_is_highest(
    entries: Seq<(Seq<u8>, Doc)>,
    id: Seq<u8>,
    snapshot: Seq<u8>,
)
    ensures
        match latest_of(entries, id, snapshot) {
            Some(d) => {
                &&& d.id == id
                &&& lex_le(d.version, snapshot)
                &&& exists|i: int| 0 <= i < entries.len() && (#[trigger] entries[i]).1 == d
                &&& forall|i: int|
                    0 <= i < entries.len() && (#[trigger] entries[i]).1.id == id && lex_le(
                        entries[i].1.version,
                        snapshot,
                    ) ==> lex_le(entries[i].1.version, d.version)
            },
            None => forall|i: int|
                0 <= i < entries.len() ==> !((#[trigger] entries[i]).1.id == id && lex_le(
                    entries[i].1.version,
                    snapshot,
                )),
        },
    decreases entries.len(),
{
    if entries.len() > 0 {
        let init = entries.drop_last();
        let n = entries.len() - 1;
        law_pick_is_highest(init, id, snapshot);
        let best = latest_of(init, id, snapshot);
        let last = entries[n].1;
        assert forall|i: int| 0 <= i < n implies #[trigger] entries[i] == init[i] by {}
        if let Some(b) = best {
            let i = choose|i: int| 0 <= i < init.len() && (#[trigger] init[i]).1 == b;
            assert(entries[i].1 == b);
            crate::bytes::lemma_lex_strict(last.version, last.version);
            crate::bytes::lemma_lex_strict(last.version, b.version);
            if latest_of(entries, id, snapshot) == Some(last) {
                assert forall|i: int|
                    0 <= i < entries.len() && (#[trigger] entries[i]).1.id == id && lex_le(
                        entries[i].1.version,
                        snapshot,
                    ) implies lex_le(entries[i].1.version, last.version) by {
                    if i < n {
                        crate::bytes::lemma_lex_transitive(
                            entries[i].1.version,
                            b.version,
                            last.version,
                        );
                    }
                }
            }
        } else {
            crate::bytes::lemma_lex_strict(last.version, last.version);
        }
    }
}

/// Blocks hold the entries of a table in their order, and all of them. No block is empty, a
/// block of several entries is no larger than the block size, and a block ends only where the
/// next entry would make it larger.
pub proof fn law_blocks_are_filled(entries: Seq<(Seq<u8>, Seq<u8>)>, block_size: nat)
    ensures
        grouped(entries, block_size).flatten() == entries,
        forall|i: int|
            0 <= i < grouped(entries, block_size).len() ==> (#[trigger] grouped(
                entries,
                block_size,
            )[i]).len() > 0,
        forall|i: int|
            0 <= i < grouped(entries, block_size).len() && (#[trigger] grouped(
                entries,
                block_size,
            )[i]).len() > 1 ==> block_data(grouped(entries, block_size)[i]).len() <= block_size,
        forall|i: int|
            0 < i < grouped(entries, block_size).len() ==> block_data(
                grouped(entries, block_size)[i - 1],
            ).len() + entry_bytes((#[trigger] grouped(entries, block_size)[i])[0]).len()
                > block_size,
    decreases entries.len(),
{
    let groups = grouped(entries, block_size);
    groups.lemma_flatten_and_flatten_alt_are_equivalent();
    if entries.len() == 0 {
        assert(groups.flatten_alt() =~= entries);
    } else {
        let init = entries.drop_last();
        let before = grouped(init, block_size);
        let entry = entries.last();
        law_blocks_are_filled(init, block_size);
        before.lemma_flatten_and_flatten_alt_are_equivalent();
        let opens = before.len() == 0 || block_data(before.last()).len() + entry_bytes(entry).len()
            > block_size;
        if opens {
            assert(groups.drop_last() =~= before);
            assert(groups.flatten_alt() =~= before.flatten_alt() + seq![entry]);
            assert forall|i: int| 0 < i < groups.len() implies block_data(groups[i - 1]).len()
                + entry_bytes((#[trigger] groups[i])[0]).len() > block_size by {
                if i < before.len() {
                    assert(groups[i] == before[i] && groups[i - 1] == before[i - 1]);
                } else {
                    assert(groups[i] == seq![entry]);
                    assert(groups[i - 1] == before.last());
                }
            }
        } else {
            let m = before.len() - 1;
            let grown = before.last().push(entry);
            assert(groups.drop_last() =~= before.drop_last());
            assert(groups.last() == grown);
            assert(groups.flatten_alt() =~= before.drop_last().flatten_alt() + grown);
            assert(groups.flatten_alt() =~= before.flatten_alt().push(entry));
            assert(grown.drop_last() =~= before.last());
            lemma_block_grows(before.last(), entry);
            assert(before[m].len() > 0);
            assert forall|i: int| 0 < i < groups.len() implies block_data(groups[i - 1]).len()
                + entry_bytes((#[trigger] groups[i])[0]).len() > block_size by {
                assert(groups[i - 1] == before[i - 1]);
                assert(groups[i][0] == before[i][0]);
                assert(before[i].len() > 0);
            }
            assert forall|i: int|
                0 <= i < groups.len() && (#[trigger] groups[i]).len() > 1 implies block_data(
                groups[i],
            ).len() <= block_size by {
                if i < m {
                    assert(groups[i] == before[i]);
                }
            }
        }
        assert(init.push(entry) =~= entries);
    }
}

proof fn lemma_block_grows(block: Seq<(Seq<u8>, Seq<u8>)>, entry: (Seq<u8>, Seq<u8>))
    ensures
        block_data(block.push(entry)).len() == block_data(block).len() + entry_bytes(entry).len(),
{
    let grown = block.push(entry);
    assert(grown.drop_last() =~= block);
    crate::bytes::lemma_le_len(grown.len(), 4);
    crate::bytes::lemma_le_len(block.len(), 4);
    assert(entries_bytes(grown) == entries_bytes(block) + entry_bytes(entry));
}

/// A block is read only where its checksum is right, and what comes out then is what its bytes
/// decompress to. Where the checksum is wrong the error says at which offset.
pub proof fn law_blocks_are_checked(data: Seq<u8>, b: BlockRef)
    requires
        b.size >= 4,
        b.offset + b.size <= data.len(),
    ensures
        ({
            let start = b.offset as int;
            let stored = from_le(data.subrange(start, start + 4));
            let packed = data.subrange(start + 4, start + b.size);
            if stored == crc32_checksum(packed) {
                match unpacked(packed) {
                    Ok(raw) => open_block(data, b) == Ok::<Seq<u8>, TableFault>(raw),
                    Err(_) => open_block(data, b) is Err,
                }
            } else {
                open_block(data, b) == Err::<Seq<u8>, TableFault>(
                    TableFault::CrcMismatch { offset: b.offset },
                )
            }
        }),
{
}

/// A fresh filter denies every key. It has ten bits for each key that it is made for, at least
/// sixty-four, and seven hash functions.
pub proof fn law_fresh_filter_denies(num_keys: int, key: Seq<u8>)
    requires
        0 <= num_keys,
        num_keys * 10 <= usize::MAX,
    ensures
        !all_set(empty_filter(num_keys), key),
        probed(empty_filter(num_keys), key, 0) == Some(false),
        usable(empty_filter(num_keys)),
        empty_filter(num_keys).num_bits == (if num_keys * 10 < 64 {
            64
        } else {
            num_keys * 10
        }),
        8 * empty_filter(num_keys).bits.len() >= empty_filter(num_keys).num_bits,
        empty_filter(num_keys).num_hashes == 7,
{
    let f = empty_filter(num_keys);
    lemma_usable_answers(f, key);
    let p = bit_position(key, 0, f.num_bits);
    let n = f.num_bits as int;
    assert(0 <= p < n) by {
        vstd::arithmetic::div_mod::lemma_mod_bound(
            (crate::sstable::bloom::hash_one(key).wrapping_add(
                crate::sstable::bloom::hash_two(key).wrapping_mul(0),
            ) as usize) as int,
            n,
        );
    }
    assert(0 <= p / 8 < f.bits.len());
    let mask = bit_mask(p);
    assert(0u8 & mask == 0) by (bit_vector);
    assert(f.bits[p / 8] == 0);
    assert(!bit_is_set(f.bits, bit_position(key, 0u32, f.num_bits)));
}

/// Identity keys are the identities, and version keys the identities followed by the versions.
pub proof fn law_keys_of_documents(d: Doc)
    ensures
        IdKeyExtractor.key_of(d) == d.id,
        MvccKeyExtractor.key_of(d) == d.id + d.version,
{
}

/// What is wrong with the end of a table file is told by the first thing that is: too few bytes
/// for a footer, a wrong magic number, a format version that is not known.
pub proof fn law_opening_errors(data: Seq<u8>)
    ensures
        data.len() < 30 ==> parse_table(data) == Err::<Table, TableFault>(
            TableFault::Corrupted("file too small for footer"@),
        ),
        data.len() >= 30 && data.subrange(data.len() - 6, data.len() - 2) != seq![
            0x49u8,
            0x53,
            0x53,
            0x54,
        ] ==> parse_table(data) == Err::<Table, TableFault>(TableFault::InvalidMagic),
        data.len() >= 30 && data.subrange(data.len() - 6, data.len() - 2) == seq![
            0x49u8,
            0x53,
            0x53,
            0x54,
        ] && from_le(data.subrange(data.len() - 2, data.len() as int)) != 2 ==> parse_table(data)
            == Err::<Table, TableFault>(
            TableFault::UnsupportedVersion(
                from_le(data.subrange(data.len() - 2, data.len() as int)),
            ),
        ),
{
    let magic = crate::sstable::format::SSTABLE_MAGIC@;
    assert(magic =~= seq![0x49u8, 0x53, 0x53, 0x54]);
}

/// A table holds every document once, with its key, in the order of the keys. Documents with one
/// key keep the order in which they were given.
pub proof fn law_table_is_ordered(docs: Seq<Doc>, keys: Seq<Seq<u8>>) -> (order: Seq<int>)
    requires
        keys.len() == docs.len(),
    ensures
        order.len() == docs.len(),
        order.no_duplicates(),
        sorted_docs(docs, keys).len() == docs.len(),
        forall|i: int| 0 <= i < order.len() ==> 0 <= #[trigger] order[i] < docs.len(),
        forall|i: int|
            0 <= i < order.len() ==> #[trigger] sorted_docs(docs, keys)[i] == (
                keys[order[i]],
                docs[order[i]],
            ),
        forall|i: int, j: int|
            0 <= i < j < order.len() ==> lex_lt(
                keys[#[trigger] order[i]],
                keys[#[trigger] order[j]],
            ) || (keys[order[i]] == keys[order[j]] && order[i] < order[j]),
{
    let pairs = Seq::new(docs.len(), |i: int| (keys[i], docs[i]));
    let order = law_sort_is_stable(pairs, keys);
    assert(sorted_docs(docs, keys) == sorted_by_rank(pairs, keys));
    assert forall|i: int| 0 <= i < order.len() implies #[trigger] sorted_docs(docs, keys)[i] == (
        keys[order[i]],
        docs[order[i]],
    ) by {
        assert(sorted_by_rank(pairs, keys)[i] == pairs[order[i]]);
    }
    order
}

} // verus!
