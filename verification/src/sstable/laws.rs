//! What holds of tables as a whole: what was written is read back, and lookups find what the
//! table holds.

use crate::bytes::{
    from_le, is_prefix, le, lemma_le_len, lemma_lex_common_prefix, lemma_lex_strict,
    lemma_lex_total, lemma_lex_transitive,
    lemma_pow256_values, lex_le, lex_lt,
};
use crate::compression::{law_unpack_of_pack, packs};
use crate::document_id::filled_id;
use crate::hashing::crc32_checksum;
use crate::error::BlobFault;
use crate::iblob::{blob_bytes, fits_blob, law_decode_of_encode, parse_blob, Doc};
use crate::sstable::bloom::{
    all_set, law_no_false_negatives, lemma_usable_answers, usable, with_key, Bloom,
};
use crate::sstable::error::TableFault;
use crate::sstable::format::{
    block_data, block_refs, bloom_section, bloom_size, entries_bytes, entry_bytes, first_key,
    footer, grouped, index_record, index_records, is_table_of, open_block, packs_all, parse_block,
    parse_block_entries, parse_index, parse_table, stored_block, stored_blocks, table_bytes,
    table_filter, with_entry_key, BlockRef, Table, FOOTER_SIZE, SSTABLE_MAGIC, SSTABLE_VERSION,
};
use crate::sstable::reader::{
    entries_upto, entry_keys, find_doc, find_key, last_keys, latest_of, scan_block, scan_blocks,
    search_keys, table_entries_read, table_get, table_get_by_id, table_latest, table_range,
    version_key, visible, walk_back,
};
use crate::sort::{comes_before, lemma_stable_order, stable_order};
use crate::sstable::keys::{IdKeyExtractor, KeyExtractor, MvccKeyExtractor};
use crate::sstable::writer::{
    encoded_entries, keys_of, lemma_filter_len, sorted_docs, table_entries,
};
use crate::value::{holds_at, lemma_holds_at_parts, lemma_holds_at_prefix, lemma_le_at};
use vstd::prelude::*;

verus! {

/// Whether the keys do not fall.
pub open spec fn keys_sorted(entries: Seq<(Seq<u8>, Doc)>) -> bool {
    forall|i: int, j: int|
        0 <= i <= j < entries.len() ==> lex_le((#[trigger] entries[i]).0, (#[trigger] entries[j]).0)
}

/// Whether a key and a document fit the lengths that a block gives them.
pub open spec fn fits_entry(e: (Seq<u8>, Doc)) -> bool {
    &&& e.0.len() <= u16::MAX
    &&& fits_blob(e.1)
    &&& blob_bytes(e.1).len() <= u32::MAX
}

/// Whether entries fit the lengths that a table gives them.
pub open spec fn fits_table(entries: Seq<(Seq<u8>, Doc)>) -> bool {
    &&& entries.len() > 0
    &&& entries.len() * 10 <= u32::MAX
    &&& forall|i: int| 0 <= i < entries.len() ==> fits_entry(#[trigger] entries[i])
}

/// The entries of groups, one group after another.
pub open spec fn flattened(groups: Seq<Seq<(Seq<u8>, Doc)>>) -> Seq<(Seq<u8>, Doc)>
    decreases groups.len(),
{
    if groups.len() == 0 {
        seq![]
    } else {
        flattened(groups.drop_last()) + groups.last()
    }
}

/// Entries grouped as a table groups them into blocks.
pub open spec fn grouped_docs(entries: Seq<(Seq<u8>, Doc)>, block_size: nat) -> Seq<
    Seq<(Seq<u8>, Doc)>,
>
    decreases entries.len(),
{
    if entries.len() == 0 {
        seq![]
    } else {
        let before = grouped_docs(entries.drop_last(), block_size);
        let entry = entries.last();
        if before.len() == 0 || block_data(encoded_entries(before.last())).len() + entry_bytes(
            (entry.0, blob_bytes(entry.1)),
        ).len() > block_size {
            before.push(seq![entry])
        } else {
            before.update(before.len() - 1, before.last().push(entry))
        }
    }
}

/// The encoded groups.
spec fn encoded_groups(groups: Seq<Seq<(Seq<u8>, Doc)>>) -> Seq<Seq<(Seq<u8>, Seq<u8>)>> {
    Seq::new(groups.len(), |i: int| encoded_entries(groups[i]))
}

proof fn lemma_grouped_docs(entries: Seq<(Seq<u8>, Doc)>, block_size: nat)
    ensures
        grouped(encoded_entries(entries), block_size) == encoded_groups(
            grouped_docs(entries, block_size),
        ),
        flattened(grouped_docs(entries, block_size)) == entries,
        forall|i: int|
            0 <= i < grouped_docs(entries, block_size).len() ==> (#[trigger] grouped_docs(
                entries,
                block_size,
            )[i]).len() > 0,
        entries.len() > 0 ==> grouped_docs(entries, block_size).len() > 0,
        grouped_docs(entries, block_size).len() <= entries.len(),
    decreases entries.len(),
{
    let encoded = encoded_entries(entries);
    if entries.len() == 0 {
        assert(encoded_groups(grouped_docs(entries, block_size)) =~= seq![]);
        assert(flattened(grouped_docs(entries, block_size)) =~= entries);
    } else {
        let init = entries.drop_last();
        let last = entries.last();
        lemma_grouped_docs(init, block_size);
        assert(encoded.drop_last() =~= encoded_entries(init));
        let before = grouped_docs(init, block_size);
        let after = grouped_docs(entries, block_size);
        let opens = before.len() == 0 || block_data(encoded_entries(before.last())).len()
            + entry_bytes((last.0, blob_bytes(last.1))).len() > block_size;
        assert(entries =~= init.push(last));
        if opens {
            assert(after.drop_last() =~= before);
            assert(encoded_entries(seq![last]) =~= seq![encoded.last()]);
            assert(encoded_groups(after) =~= encoded_groups(before).push(seq![encoded.last()]));
            assert(flattened(after) =~= flattened(before) + seq![last]);
        } else {
            let m = before.len() - 1;
            assert(after.drop_last() =~= before.drop_last());
            assert(encoded_entries(before.last().push(last)) =~= encoded_entries(
                before.last(),
            ).push(encoded.last()));
            assert(encoded_groups(after) =~= encoded_groups(before).update(
                m,
                encoded_groups(before).last().push(encoded.last()),
            ));
            assert(flattened(after) =~= flattened(before.drop_last()) + before.last().push(last));
            assert(flattened(after) =~= flattened(before).push(last));
        }
    }
}

/// Whether a table reads as groups of entries, one group for each block, and its filter
/// denies none of them.
pub open spec fn reads_as(t: Table, groups: Seq<Seq<(Seq<u8>, Doc)>>) -> bool {
    &&& t.blocks.len() == groups.len()
    &&& groups.len() > 0
    &&& forall|i: int|
        0 <= i < groups.len() ==> (#[trigger] groups[i]).len() > 0 && t.blocks[i].last_key
            == groups[i].last().0 && parse_block(t.data, t.blocks[i]) == Ok::<
            Seq<(Seq<u8>, Doc)>,
            TableFault,
        >(groups[i])
    &&& usable(t.bloom)
    &&& admits(t.bloom, flattened(groups))
}

/// Whether a filter denies none of the entries' keys, nor the first 16 bytes of longer ones.
pub open spec fn admits(f: Bloom, entries: Seq<(Seq<u8>, Doc)>) -> bool {
    forall|i: int|
        0 <= i < entries.len() ==> all_set(f, (#[trigger] entries[i]).0) && (
        entries[i].0.len() > 16 ==> all_set(f, entries[i].0.take(16)))
}

proof fn lemma_filter_admits(entries: Seq<(Seq<u8>, Doc)>, n: int)
    requires
        0 <= n,
        n * 10 <= usize::MAX,
    ensures
        admits(table_filter(encoded_entries(entries), n), entries),
    decreases entries.len(),
{
    if entries.len() > 0 {
        let init = entries.drop_last();
        let encoded = encoded_entries(entries);
        assert(encoded.drop_last() =~= encoded_entries(init));
        lemma_filter_admits(init, n);
        lemma_filter_len(encoded_entries(init), n);
        let f = table_filter(encoded_entries(init), n);
        let key = entries.last().0;
        let f1 = with_key(f, key);
        let f2 = with_key(f1, key.take(16));
        law_no_false_negatives(f, key, key);
        law_no_false_negatives(f1, key.take(16), key);
        assert forall|i: int| 0 <= i < entries.len() implies all_set(
            with_entry_key(f, key),
            (#[trigger] entries[i]).0,
        ) && (entries[i].0.len() > 16 ==> all_set(
            with_entry_key(f, key),
            entries[i].0.take(16),
        )) by {
            let k = entries[i].0;
            if i < init.len() {
                assert(init[i] == entries[i]);
                law_no_false_negatives(f, key, k);
                law_no_false_negatives(f1, key.take(16), k);
                law_no_false_negatives(f, key, k.take(16));
                law_no_false_negatives(f1, key.take(16), k.take(16));
            }
        }
    }
}

/// The bytes of the first entries begin those of all.
proof fn lemma_entries_prefix(entries: Seq<(Seq<u8>, Seq<u8>)>, i: int)
    requires
        0 <= i <= entries.len(),
    ensures
        entries_bytes(entries.take(i)).len() <= entries_bytes(entries).len(),
        entries_bytes(entries).take(entries_bytes(entries.take(i)).len() as int) == entries_bytes(
            entries.take(i),
        ),
    decreases entries.len(),
{
    if i == entries.len() {
        assert(entries.take(i) =~= entries);
        assert(entries_bytes(entries).take(entries_bytes(entries).len() as int) =~= entries_bytes(
            entries,
        ));
    } else {
        let init = entries.drop_last();
        lemma_entries_prefix(init, i);
        assert(init.take(i) =~= entries.take(i));
        let n = entries_bytes(entries.take(i)).len() as int;
        assert(entries_bytes(entries).take(n) =~= entries_bytes(init).take(n));
    }
}

/// Whether bytes are the binary form of a document.
#[verifier::opaque]
spec fn decodes(bytes: Seq<u8>, d: Doc) -> bool {
    parse_blob(bytes) == Ok::<Doc, BlobFault>(d)
}

/// Whether a key and the bytes beside it fit the lengths that a block gives them.
spec fn fits_pair(e: (Seq<u8>, Seq<u8>)) -> bool {
    e.0.len() <= u16::MAX && e.1.len() <= u32::MAX
}

/// Whether the bytes of each pair are the binary form of the document at its place.
spec fn encodes(pairs: Seq<(Seq<u8>, Seq<u8>)>, group: Seq<(Seq<u8>, Doc)>) -> bool {
    &&& pairs.len() == group.len()
    &&& forall|j: int|
        0 <= j < pairs.len() ==> fits_pair(#[trigger] pairs[j]) && pairs[j].0 == group[j].0
            && decodes(pairs[j].1, group[j].1)
}

proof fn lemma_encodes(group: Seq<(Seq<u8>, Doc)>)
    requires
        forall|j: int| 0 <= j < group.len() ==> fits_entry(#[trigger] group[j]),
    ensures
        encodes(encoded_entries(group), group),
{
    let pairs = encoded_entries(group);
    assert forall|j: int| 0 <= j < pairs.len() implies fits_pair(#[trigger] pairs[j])
        && pairs[j].0 == group[j].0 && decodes(pairs[j].1, group[j].1) by {
        assert(fits_entry(group[j]));
        law_decode_of_encode(group[j].1);
        reveal(decodes);
    }
}

/// One entry reads back.
proof fn lemma_entry_at(e: (Seq<u8>, Seq<u8>), raw: Seq<u8>, pos: int)
    requires
        fits_pair(e),
        holds_at(raw, pos, entry_bytes(e)),
    ensures
        ({
            let at = pos + 2 + e.0.len();
            let end = at + 4 + e.1.len();
            &&& entry_bytes(e).len() == end - pos
            &&& end <= raw.len()
            &&& from_le(raw.subrange(pos, pos + 2)) == e.0.len()
            &&& raw.subrange(pos + 2, at) == e.0
            &&& from_le(raw.subrange(at, at + 4)) == e.1.len()
            &&& raw.subrange(at + 4, end) == e.1
        }),
{
    let a = le(e.0.len(), 2);
    let b = le(e.1.len(), 4);
    lemma_pow256_values();
    lemma_le_len(e.0.len(), 2);
    lemma_le_len(e.1.len(), 4);
    lemma_holds_at_parts(raw, pos, a + e.0 + b, e.1);
    lemma_holds_at_parts(raw, pos, a + e.0, b);
    lemma_holds_at_parts(raw, pos, a, e.0);
    lemma_le_at(raw, pos, e.0.len(), 2);
    lemma_le_at(raw, pos + 2 + e.0.len(), e.1.len(), 4);
}

proof fn lemma_entry_step(
    raw: Seq<u8>,
    pos: int,
    n: nat,
    e: (Seq<u8>, Seq<u8>),
    d: Doc,
    rest: Seq<(Seq<u8>, Doc)>,
)
    requires
        n > 0,
        fits_pair(e),
        holds_at(raw, pos, entry_bytes(e)),
        decodes(e.1, d),
        parse_block_entries(raw, pos + entry_bytes(e).len(), (n - 1) as nat) == Ok::<
            Seq<(Seq<u8>, Doc)>,
            TableFault,
        >(rest),
    ensures
        parse_block_entries(raw, pos, n) == Ok::<Seq<(Seq<u8>, Doc)>, TableFault>(
            seq![(e.0, d)] + rest,
        ),
{
    reveal(decodes);
    lemma_entry_at(e, raw, pos);
}

/// The entries of a block read back.
proof fn lemma_block_entries_at(
    pairs: Seq<(Seq<u8>, Seq<u8>)>,
    group: Seq<(Seq<u8>, Doc)>,
    i: int,
    raw: Seq<u8>,
    start: int,
)
    requires
        0 <= i <= group.len(),
        encodes(pairs, group),
        holds_at(raw, start, entries_bytes(pairs)),
    ensures
        parse_block_entries(
            raw,
            start + entries_bytes(pairs.take(i)).len(),
            (group.len() - i) as nat,
        ) == Ok::<Seq<(Seq<u8>, Doc)>, TableFault>(group.skip(i)),
    decreases group.len() - i,
{
    if i == group.len() {
        assert(group.skip(i) =~= seq![]);
    } else {
        let pos = start + entries_bytes(pairs.take(i)).len();
        let e = pairs[i];
        lemma_entries_prefix(pairs, i + 1);
        assert(pairs.take(i + 1).drop_last() =~= pairs.take(i));
        lemma_holds_at_prefix(raw, start, entries_bytes(pairs), entries_bytes(pairs.take(i + 1)));
        lemma_holds_at_parts(raw, start, entries_bytes(pairs.take(i)), entry_bytes(e));
        lemma_block_entries_at(pairs, group, i + 1, raw, start);
        lemma_entry_step(raw, pos, (group.len() - i) as nat, e, group[i].1, group.skip(i + 1));
        assert(seq![group[i]] + group.skip(i + 1) =~= group.skip(i));
    }
}

/// A stored block opens to the block that was stored.
proof fn lemma_open_block_at(file: Seq<u8>, b: BlockRef, raw: Seq<u8>, packed: Seq<u8>)
    requires
        packs(raw, packed),
        holds_at(file, b.offset as int, stored_block(packed)),
        b.size == stored_block(packed).len(),
    ensures
        open_block(file, b) == Ok::<Seq<u8>, TableFault>(raw),
        b.size >= 4,
        b.offset + b.size <= file.len(),
{
    let crc = le(crc32_checksum(packed) as nat, 4);
    let start = b.offset as int;
    lemma_pow256_values();
    lemma_le_len(crc32_checksum(packed) as nat, 4);
    lemma_holds_at_parts(file, start, crc, packed);
    lemma_le_at(file, start, crc32_checksum(packed) as nat, 4);
    law_unpack_of_pack(raw, packed);
}

/// A stored block reads back.
proof fn lemma_block_at(
    file: Seq<u8>,
    b: BlockRef,
    pairs: Seq<(Seq<u8>, Seq<u8>)>,
    group: Seq<(Seq<u8>, Doc)>,
    packed: Seq<u8>,
)
    requires
        encodes(pairs, group),
        0 < group.len() <= u32::MAX,
        packs(block_data(pairs), packed),
        holds_at(file, b.offset as int, stored_block(packed)),
        b.size == stored_block(packed).len(),
    ensures
        parse_block(file, b) == Ok::<Seq<(Seq<u8>, Doc)>, TableFault>(group),
        first_key(file, b) == Ok::<Seq<u8>, TableFault>(group[0].0),
{
    let raw = block_data(pairs);
    let count = le(group.len(), 4);
    lemma_open_block_at(file, b, raw, packed);
    lemma_pow256_values();
    lemma_le_len(group.len(), 4);
    assert(raw.subrange(0, raw.len() as int) =~= raw);
    lemma_holds_at_parts(raw, 0, count, entries_bytes(pairs));
    lemma_le_at(raw, 0, group.len(), 4);
    assert(pairs.take(0) =~= seq![]);
    lemma_block_entries_at(pairs, group, 0, raw, 4);
    assert(group.skip(0) =~= group);
    // the first entry
    lemma_entries_prefix(pairs, 1);
    assert(pairs.take(1).drop_last() =~= seq![]);
    assert(entries_bytes(pairs.take(1)) =~= entry_bytes(pairs[0]));
    lemma_holds_at_prefix(raw, 4, entries_bytes(pairs), entries_bytes(pairs.take(1)));
    lemma_entry_at(pairs[0], raw, 4);
}

/// Whether an index entry fits the lengths that the file gives it.
spec fn fits_ref(b: BlockRef) -> bool {
    b.last_key.len() <= u16::MAX && b.offset <= u64::MAX && b.size <= u32::MAX
}

proof fn lemma_records_prefix(refs: Seq<BlockRef>, i: int)
    requires
        0 <= i <= refs.len(),
    ensures
        index_records(refs.take(i)).len() <= index_records(refs).len(),
        index_records(refs).take(index_records(refs.take(i)).len() as int) == index_records(
            refs.take(i),
        ),
    decreases refs.len(),
{
    if i == refs.len() {
        assert(refs.take(i) =~= refs);
        assert(index_records(refs).take(index_records(refs).len() as int) =~= index_records(refs));
    } else {
        let init = refs.drop_last();
        lemma_records_prefix(init, i);
        assert(init.take(i) =~= refs.take(i));
        let n = index_records(refs.take(i)).len() as int;
        assert(index_records(refs).take(n) =~= index_records(init).take(n));
    }
}

/// One index entry reads back.
proof fn lemma_record_at(b: BlockRef, data: Seq<u8>, pos: int)
    requires
        fits_ref(b),
        holds_at(data, pos, index_record(b)),
    ensures
        ({
            let at = pos + 2 + b.last_key.len();
            &&& index_record(b).len() == at + 12 - pos
            &&& from_le(data.subrange(pos, pos + 2)) == b.last_key.len()
            &&& data.subrange(pos + 2, at) == b.last_key
            &&& from_le(data.subrange(at, at + 8)) == b.offset
            &&& from_le(data.subrange(at + 8, at + 12)) == b.size
        }),
{
    let a = le(b.last_key.len(), 2);
    let o = le(b.offset, 8);
    let z = le(b.size, 4);
    let at = pos + 2 + b.last_key.len();
    lemma_pow256_values();
    lemma_le_len(b.last_key.len(), 2);
    lemma_le_len(b.offset, 8);
    lemma_le_len(b.size, 4);
    lemma_holds_at_parts(data, pos, a + b.last_key + o, z);
    lemma_holds_at_parts(data, pos, a + b.last_key, o);
    lemma_holds_at_parts(data, pos, a, b.last_key);
    lemma_le_at(data, pos, b.last_key.len(), 2);
    lemma_le_at(data, at, b.offset, 8);
    lemma_le_at(data, at + 8, b.size, 4);
}

/// The index reads back.
proof fn lemma_index_at(refs: Seq<BlockRef>, i: int, data: Seq<u8>, start: int, end: int)
    requires
        0 <= i <= refs.len(),
        forall|j: int| 0 <= j < refs.len() ==> fits_ref(#[trigger] refs[j]),
        holds_at(data, start, index_records(refs)),
        start + index_records(refs).len() <= end,
    ensures
        parse_index(
            data,
            start + index_records(refs.take(i)).len(),
            (refs.len() - i) as nat,
            end,
        ) == Ok::<Seq<BlockRef>, TableFault>(refs.skip(i)),
    decreases refs.len() - i,
{
    if i == refs.len() {
        assert(refs.skip(i) =~= seq![]);
    } else {
        let pos = start + index_records(refs.take(i)).len();
        lemma_records_prefix(refs, i + 1);
        assert(refs.take(i + 1).drop_last() =~= refs.take(i));
        lemma_holds_at_prefix(data, start, index_records(refs), index_records(refs.take(i + 1)));
        lemma_holds_at_parts(data, start, index_records(refs.take(i)), index_record(refs[i]));
        lemma_record_at(refs[i], data, pos);
        lemma_index_at(refs, i + 1, data, start, end);
        assert(seq![refs[i]] + refs.skip(i + 1) =~= refs.skip(i));
    }
}

/// A stored block lies behind those before it.
proof fn lemma_stored_at(packed: Seq<Seq<u8>>, i: int, file: Seq<u8>)
    requires
        0 <= i < packed.len(),
        holds_at(file, 0, stored_blocks(packed)),
    ensures
        holds_at(file, stored_blocks(packed.take(i)).len() as int, stored_block(packed[i])),
        stored_blocks(packed.take(i)).len() <= stored_blocks(packed).len(),
    decreases packed.len(),
{
    let init = packed.drop_last();
    lemma_holds_at_parts(file, 0, stored_blocks(init), stored_block(packed.last()));
    if i < init.len() {
        lemma_stored_at(init, i, file);
        assert(init.take(i) =~= packed.take(i));
    } else {
        assert(packed.take(i) =~= init);
    }
}

proof fn lemma_group_len(groups: Seq<Seq<(Seq<u8>, Doc)>>, i: int)
    requires
        0 <= i < groups.len(),
    ensures
        groups[i].len() <= flattened(groups).len(),
        forall|j: int|
            0 <= j < groups[i].len() ==> flattened(groups).contains(#[trigger] groups[i][j]),
    decreases groups.len(),
{
    let init = groups.drop_last();
    let flat = flattened(groups);
    if i < init.len() {
        lemma_group_len(init, i);
        assert forall|j: int| 0 <= j < groups[i].len() implies flat.contains(
            #[trigger] groups[i][j],
        ) by {
            assert(flattened(init).contains(init[i][j]));
            let k = choose|k: int| 0 <= k < flattened(init).len() && flattened(init)[k]
                == init[i][j];
            assert(flat[k] == groups[i][j]);
        }
    } else {
        assert forall|j: int| 0 <= j < groups[i].len() implies flat.contains(
            #[trigger] groups[i][j],
        ) by {
            assert(flat[flattened(init).len() + j] == groups[i][j]);
        }
    }
}

/// The first of the flattened entries, and the last.
proof fn lemma_flattened_ends(groups: Seq<Seq<(Seq<u8>, Doc)>>)
    requires
        groups.len() > 0,
        forall|i: int| 0 <= i < groups.len() ==> (#[trigger] groups[i]).len() > 0,
    ensures
        flattened(groups).len() > 0,
        flattened(groups)[0] == groups[0][0],
        flattened(groups).last() == groups.last().last(),
    decreases groups.len(),
{
    let init = groups.drop_last();
    if init.len() > 0 {
        assert forall|i: int| 0 <= i < init.len() implies (#[trigger] init[i]).len() > 0 by {
            assert(init[i] == groups[i]);
        }
        lemma_flattened_ends(init);
    } else {
        assert(flattened(init) =~= seq![]);
        assert(flattened(groups) =~= groups[0]);
    }
}

/// What the footer of a table says.
proof fn lemma_footer_reads(file: Seq<u8>, index_offset: nat, count: nat, offset: nat, size: nat)
    requires
        file.len() >= FOOTER_SIZE,
        holds_at(file, file.len() - FOOTER_SIZE, footer(index_offset, count, offset, size)),
        index_offset <= u64::MAX,
        count <= u32::MAX,
        offset <= u64::MAX,
        size <= u32::MAX,
    ensures
        ({
            let end = file.len() - FOOTER_SIZE;
            &&& from_le(file.subrange(end, end + 8)) == index_offset
            &&& from_le(file.subrange(end + 8, end + 12)) == count
            &&& from_le(file.subrange(end + 12, end + 20)) == offset
            &&& from_le(file.subrange(end + 20, end + 24)) == size
            &&& file.subrange(end + 24, end + 28) == SSTABLE_MAGIC@
            &&& from_le(file.subrange(end + 28, end + 30)) == SSTABLE_VERSION
        }),
{
    let end = file.len() - FOOTER_SIZE;
    let a = le(index_offset, 8);
    let b = le(count, 4);
    let c = le(offset, 8);
    let d = le(size, 4);
    let magic = SSTABLE_MAGIC;
    let v = le(SSTABLE_VERSION as nat, 2);
    lemma_pow256_values();
    lemma_le_len(index_offset, 8);
    lemma_le_len(count, 4);
    lemma_le_len(offset, 8);
    lemma_le_len(size, 4);
    assert(magic@.len() == 4);
    lemma_holds_at_parts(file, end, a + b + c + d + magic@, v);
    lemma_holds_at_parts(file, end, a + b + c + d, magic@);
    lemma_holds_at_parts(file, end, a + b + c, d);
    lemma_holds_at_parts(file, end, a + b, c);
    lemma_holds_at_parts(file, end, a, b);
    lemma_le_at(file, end, index_offset, 8);
    lemma_le_at(file, end + 8, count, 4);
    lemma_le_at(file, end + 12, offset, 8);
    lemma_le_at(file, end + 20, size, 4);
    lemma_le_at(file, end + 28, SSTABLE_VERSION as nat, 2);
}

/// What lies in a table file, and where.
proof fn lemma_table_parts(
    blocks: Seq<Seq<(Seq<u8>, Seq<u8>)>>,
    packed: Seq<Seq<u8>>,
    f: Bloom,
    file: Seq<u8>,
)
    requires
        file == table_bytes(blocks, packed, f),
        file.len() <= u64::MAX,
        f.bits.len() + 8 <= u32::MAX,
        blocks.len() <= u32::MAX,
        f.num_bits <= u32::MAX,
    ensures
        ({
            let data = stored_blocks(packed);
            let refs = block_refs(blocks, packed);
            let end = file.len() - FOOTER_SIZE;
            let at = data.len() as int;
            &&& file.len() >= FOOTER_SIZE
            &&& at + 8 + f.bits.len() <= end
            &&& holds_at(file, 0, data)
            &&& from_le(file.subrange(at, at + 4)) == f.num_bits
            &&& from_le(file.subrange(at + 4, at + 8)) == f.num_hashes
            &&& file.subrange(at + 8, at + 8 + f.bits.len()) == f.bits
            &&& holds_at(file, at + 8 + f.bits.len(), index_records(refs))
            &&& at + 8 + f.bits.len() + index_records(refs).len() == end
            &&& from_le(file.subrange(end, end + 8)) == at + 8 + f.bits.len()
            &&& from_le(file.subrange(end + 8, end + 12)) == refs.len()
            &&& from_le(file.subrange(end + 12, end + 20)) == at
            &&& from_le(file.subrange(end + 20, end + 24)) == 8 + f.bits.len()
            &&& file.subrange(end + 24, end + 28) == SSTABLE_MAGIC@
            &&& from_le(file.subrange(end + 28, end + 30)) == SSTABLE_VERSION
        }),
{
    let data = stored_blocks(packed);
    let refs = block_refs(blocks, packed);
    let section = bloom_section(f);
    let index = index_records(refs);
    let tail = footer(data.len() + bloom_size(f), refs.len(), data.len(), bloom_size(f));
    let at = data.len() as int;
    lemma_pow256_values();
    lemma_le_len(f.num_bits as nat, 4);
    lemma_le_len(f.num_hashes as nat, 4);
    assert(section.len() == 8 + f.bits.len());
    assert(bloom_size(f) == 8 + f.bits.len());
    lemma_footer_len(data.len() + bloom_size(f), refs.len(), data.len(), bloom_size(f));
    assert(file.subrange(0, file.len() as int) =~= file);
    lemma_holds_at_parts(file, 0, data + section + index, tail);
    lemma_holds_at_parts(file, 0, data + section, index);
    lemma_holds_at_parts(file, 0, data, section);
    lemma_holds_at_parts(
        file,
        at,
        le(f.num_bits as nat, 4) + le(f.num_hashes as nat, 4),
        f.bits,
    );
    lemma_holds_at_parts(file, at, le(f.num_bits as nat, 4), le(f.num_hashes as nat, 4));
    lemma_le_at(file, at, f.num_bits as nat, 4);
    lemma_le_at(file, at + 4, f.num_hashes as nat, 4);
    lemma_footer_reads(
        file,
        data.len() + bloom_size(f),
        refs.len(),
        data.len(),
        bloom_size(f),
    );
}

proof fn lemma_footer_len(index_offset: nat, count: nat, offset: nat, size: nat)
    ensures
        footer(index_offset, count, offset, size).len() == FOOTER_SIZE,
{
    let magic = SSTABLE_MAGIC;
    lemma_le_len(index_offset, 8);
    lemma_le_len(count, 4);
    lemma_le_len(offset, 8);
    lemma_le_len(size, 4);
    lemma_le_len(SSTABLE_VERSION as nat, 2);
    assert(magic@.len() == 4);
}

/// Whether a block reads as a group of entries.
#[verifier::opaque]
spec fn block_reads(file: Seq<u8>, b: BlockRef, group: Seq<(Seq<u8>, Doc)>) -> bool {
    &&& parse_block(file, b) == Ok::<Seq<(Seq<u8>, Doc)>, TableFault>(group)
    &&& first_key(file, b) == Ok::<Seq<u8>, TableFault>(group[0].0)
}

/// Each block of a table file reads as its group.
proof fn lemma_blocks_read(
    groups: Seq<Seq<(Seq<u8>, Doc)>>,
    packed: Seq<Seq<u8>>,
    file: Seq<u8>,
    i: int,
)
    requires
        0 <= i < groups.len(),
        groups[i].len() > 0,
        flattened(groups).len() <= u32::MAX,
        forall|k: int|
            0 <= k < flattened(groups).len() ==> fits_entry(#[trigger] flattened(groups)[k]),
        packs_all(encoded_groups(groups), packed),
        holds_at(file, 0, stored_blocks(packed)),
        file.len() <= u64::MAX,
    ensures
        fits_ref(block_refs(encoded_groups(groups), packed)[i]),
        block_reads(file, block_refs(encoded_groups(groups), packed)[i], groups[i]),
        block_refs(encoded_groups(groups), packed)[i].last_key == groups[i].last().0,
{
    let group = groups[i];
    let pairs = encoded_entries(group);
    let flat = flattened(groups);
    let b = block_refs(encoded_groups(groups), packed)[i];
    lemma_group_len(groups, i);
    assert forall|j: int| 0 <= j < group.len() implies fits_entry(#[trigger] group[j]) by {
        assert(flat.contains(group[j]));
    }
    lemma_encodes(group);
    assert(encoded_groups(groups)[i] == pairs);
    lemma_stored_at(packed, i, file);
    assert(packs(block_data(pairs), packed[i]));
    lemma_le_len(crc32_checksum(packed[i]) as nat, 4);
    lemma_block_at(file, b, pairs, group, packed[i]);
    reveal(block_reads);
    assert(fits_entry(group[group.len() - 1]));
}

/// Whether a file opens as a table.
#[verifier::opaque]
spec fn opens_as(file: Seq<u8>, t: Table) -> bool {
    parse_table(file) == Ok::<Table, TableFault>(t)
}

/// A table file opens where its parts read.
proof fn lemma_parse_table(
    file: Seq<u8>,
    at: int,
    f: Bloom,
    refs: Seq<BlockRef>,
    group: Seq<(Seq<u8>, Doc)>,
)
    requires
        file.len() >= FOOTER_SIZE,
        refs.len() > 0,
        0 <= at,
        f.bits.len() + 8 <= u32::MAX,
        ({
            let end = file.len() - FOOTER_SIZE;
            &&& at + 8 + f.bits.len() <= end
            &&& from_le(file.subrange(at, at + 4)) == f.num_bits
            &&& from_le(file.subrange(at + 4, at + 8)) == f.num_hashes
            &&& file.subrange(at + 8, at + 8 + f.bits.len()) == f.bits
            &&& from_le(file.subrange(end, end + 8)) == at + 8 + f.bits.len()
            &&& from_le(file.subrange(end + 8, end + 12)) == refs.len()
            &&& from_le(file.subrange(end + 12, end + 20)) == at
            &&& from_le(file.subrange(end + 20, end + 24)) == 8 + f.bits.len()
            &&& file.subrange(end + 24, end + 28) == SSTABLE_MAGIC@
            &&& from_le(file.subrange(end + 28, end + 30)) == SSTABLE_VERSION
            &&& parse_index(file, at + 8 + f.bits.len(), refs.len(), end) == Ok::<
                Seq<BlockRef>,
                TableFault,
            >(refs)
        }),
        block_reads(file, refs[0], group),
    ensures
        opens_as(
            file,
            Table {
                data: file,
                blocks: refs,
                bloom: f,
                min_key: group[0].0,
                max_key: refs.last().last_key,
            },
        ),
{
    reveal(block_reads);
    reveal(opens_as);
}

/// A table that was written opens, and reads as the groups of its entries.
#[verifier::spinoff_prover]
#[verifier::rlimit(60)]
proof fn lemma_table_opens(entries: Seq<(Seq<u8>, Doc)>, block_size: nat, file: Seq<u8>) -> (t:
    Table)
    requires
        fits_table(entries),
        is_table_of(file, encoded_entries(entries), block_size),
        file.len() <= u64::MAX,
    ensures
        opens_as(file, t),
        reads_as(t, grouped_docs(entries, block_size)),
        t.data == file,
        t.min_key == entries[0].0,
        t.max_key == entries.last().0,
{
    let encoded = encoded_entries(entries);
    let groups = grouped_docs(entries, block_size);
    let blocks = grouped(encoded, block_size);
    let n = entries.len() as int;
    let f = table_filter(encoded, n);
    lemma_grouped_docs(entries, block_size);
    lemma_filter_len(encoded, n);
    lemma_filter_admits(entries, n);
    let packed = choose|packed: Seq<Seq<u8>>|
        #![trigger packs_all(blocks, packed)]
        packs_all(blocks, packed) && file == table_bytes(blocks, packed, f);
    lemma_table_parts(blocks, packed, f, file);
    let at = stored_blocks(packed).len() as int;
    let refs = block_refs(blocks, packed);
    let end = file.len() - FOOTER_SIZE;
    assert forall|i: int| 0 <= i < groups.len() implies fits_ref(#[trigger] refs[i])
        && block_reads(file, refs[i], groups[i]) && refs[i].last_key == groups[i].last().0 by {
        assert(groups[i].len() > 0);
        lemma_blocks_read(groups, packed, file, i);
    }
    assert(refs.take(0) =~= seq![]);
    assert(refs.skip(0) =~= refs);
    lemma_index_at(refs, 0, file, at + 8 + f.bits.len(), end);
    lemma_flattened_ends(groups);
    let t = Table {
        data: file,
        blocks: refs,
        bloom: f,
        min_key: groups[0][0].0,
        max_key: refs.last().last_key,
    };
    assert(block_reads(file, refs[0], groups[0]));
    lemma_parse_table(file, at, f, refs, groups[0]);
    assert(refs[refs.len() - 1].last_key == groups[groups.len() - 1].last().0);
    lemma_reads_as(t, groups);
    t
}

proof fn lemma_reads_as(t: Table, groups: Seq<Seq<(Seq<u8>, Doc)>>)
    requires
        t.blocks.len() == groups.len(),
        groups.len() > 0,
        forall|i: int| 0 <= i < groups.len() ==> (#[trigger] groups[i]).len() > 0,
        forall|i: int|
            0 <= i < groups.len() ==> block_reads(t.data, #[trigger] t.blocks[i], groups[i])
                && t.blocks[i].last_key == groups[i].last().0,
        usable(t.bloom),
        admits(t.bloom, flattened(groups)),
    ensures
        reads_as(t, groups),
{
    assert forall|i: int| 0 <= i < groups.len() implies (#[trigger] groups[i]).len() > 0
        && t.blocks[i].last_key == groups[i].last().0 && parse_block(t.data, t.blocks[i]) == Ok::<
        Seq<(Seq<u8>, Doc)>,
        TableFault,
    >(groups[i]) by {
        assert(block_reads(t.data, t.blocks[i], groups[i]));
        reveal(block_reads);
    }
}

proof fn lemma_entries_upto(t: Table, groups: Seq<Seq<(Seq<u8>, Doc)>>, n: nat)
    requires
        reads_as(t, groups),
        n <= groups.len(),
    ensures
        entries_upto(t, n) == Ok::<Seq<(Seq<u8>, Doc)>, TableFault>(
            flattened(groups.take(n as int)),
        ),
    decreases n,
{
    if n > 0 {
        lemma_entries_upto(t, groups, (n - 1) as nat);
        assert(groups.take(n as int).drop_last() =~= groups.take(n - 1));
        assert(groups.take(n as int).last() == groups[n - 1]);
    }
}

/// A table that was written opens, its smallest and largest keys are those of its first and
/// last entries, and reading all of it gives its entries.
pub proof fn law_read_of_write(entries: Seq<(Seq<u8>, Doc)>, block_size: nat, file: Seq<u8>)
    requires
        fits_table(entries),
        is_table_of(file, encoded_entries(entries), block_size),
        file.len() <= u64::MAX,
    ensures
        parse_table(file) matches Ok(t) && t.data == file && t.min_key == entries[0].0 && t.max_key
            == entries.last().0 && table_entries_read(t) == Ok::<
            Seq<(Seq<u8>, Doc)>,
            TableFault,
        >(entries),
{
    let t = lemma_table_opens(entries, block_size, file);
    reveal(opens_as);
    let groups = grouped_docs(entries, block_size);
    lemma_grouped_docs(entries, block_size);
    lemma_entries_upto(t, groups, groups.len());
    assert(groups.take(groups.len() as int) =~= groups);
}

/// Entries before a group, the group, and the entries behind it.
proof fn lemma_flattened_split(groups: Seq<Seq<(Seq<u8>, Doc)>>, i: int)
    requires
        0 <= i < groups.len(),
    ensures
        flattened(groups) == flattened(groups.take(i)) + (groups[i] + flattened(
            groups.skip(i + 1),
        )),
        flattened(groups.skip(i)) == groups[i] + flattened(groups.skip(i + 1)),
    decreases groups.len(),
{
    let init = groups.drop_last();
    let last = groups.last();
    if i == init.len() {
        assert(groups.take(i) =~= init);
        assert(groups.skip(i + 1) =~= seq![]);
        assert(groups.skip(i) =~= seq![last]);
        reveal_with_fuel(flattened, 2);
        assert(flattened(seq![last]) =~= last);
        assert(groups[i] + flattened(groups.skip(i + 1)) =~= last);
    } else {
        lemma_flattened_split(init, i);
        assert(init.take(i) =~= groups.take(i));
        assert(groups.skip(i + 1).drop_last() =~= init.skip(i + 1));
        assert(groups.skip(i).drop_last() =~= init.skip(i));
        assert(flattened(groups) =~= flattened(groups.take(i)) + (groups[i] + flattened(
            groups.skip(i + 1),
        )));
        assert(flattened(groups.skip(i)) =~= groups[i] + flattened(groups.skip(i + 1)));
    }
}

/// Whether keys do not fall.
spec fn sorted_keys(keys: Seq<Seq<u8>>) -> bool {
    forall|i: int, j: int|
        0 <= i <= j < keys.len() ==> lex_le(#[trigger] keys[i], #[trigger] keys[j])
}

/// Binary search in sorted keys ends between the lower keys and the others.
proof fn lemma_search_keys(keys: Seq<Seq<u8>>, key: Seq<u8>, lo: int, hi: int)
    requires
        sorted_keys(keys),
        0 <= lo <= hi <= keys.len(),
        forall|i: int| 0 <= i < lo ==> lex_lt(#[trigger] keys[i], key),
        forall|i: int| hi <= i < keys.len() ==> lex_le(key, #[trigger] keys[i]),
    ensures
        ({
            let r = search_keys(keys, key, lo, hi);
            &&& 0 <= r <= keys.len()
            &&& forall|i: int| 0 <= i < r ==> lex_lt(#[trigger] keys[i], key)
            &&& forall|i: int| r <= i < keys.len() ==> lex_le(key, #[trigger] keys[i])
        }),
    decreases hi - lo,
{
    if lo < hi {
        let mid = lo + (hi - lo) / 2;
        if lex_lt(keys[mid], key) {
            assert forall|i: int| 0 <= i < mid + 1 implies lex_lt(#[trigger] keys[i], key) by {
                lemma_lex_transitive(keys[i], keys[mid], key);
            }
            lemma_search_keys(keys, key, mid + 1, hi);
        } else {
            assert forall|i: int| mid <= i < keys.len() implies lex_le(key, #[trigger] keys[i]) by {
                lemma_lex_transitive(key, keys[mid], keys[i]);
            }
            lemma_search_keys(keys, key, lo, mid);
        }
    }
}

/// Parts of sorted entries are sorted, and every key of an earlier part is at most every key
/// of a later one.
proof fn lemma_sorted_parts(a: Seq<(Seq<u8>, Doc)>, b: Seq<(Seq<u8>, Doc)>)
    requires
        keys_sorted(a + b),
    ensures
        keys_sorted(a),
        keys_sorted(b),
        forall|i: int, j: int|
            0 <= i < a.len() && 0 <= j < b.len() ==> lex_le(
                (#[trigger] a[i]).0,
                (#[trigger] b[j]).0,
            ),
{
    let c = a + b;
    assert forall|i: int, j: int| 0 <= i <= j < a.len() implies lex_le(
        (#[trigger] a[i]).0,
        (#[trigger] a[j]).0,
    ) by {
        assert(c[i] == a[i] && c[j] == a[j]);
    }
    assert forall|i: int, j: int| 0 <= i <= j < b.len() implies lex_le(
        (#[trigger] b[i]).0,
        (#[trigger] b[j]).0,
    ) by {
        assert(c[a.len() + i] == b[i] && c[a.len() + j] == b[j]);
    }
    assert forall|i: int, j: int| 0 <= i < a.len() && 0 <= j < b.len() implies lex_le(
        (#[trigger] a[i]).0,
        (#[trigger] b[j]).0,
    ) by {
        assert(c[i] == a[i] && c[a.len() + j] == b[j]);
    }
}

/// The keys of the entries before block `i` are at most its predecessor's last key.
proof fn lemma_before_block(groups: Seq<Seq<(Seq<u8>, Doc)>>, i: int)
    requires
        forall|k: int| 0 <= k < groups.len() ==> (#[trigger] groups[k]).len() > 0,
        keys_sorted(flattened(groups)),
        0 < i <= groups.len(),
    ensures
        flattened(groups.take(i)).len() > 0,
        flattened(groups.take(i)).last() == groups[i - 1].last(),
        keys_sorted(flattened(groups.take(i))),
        forall|j: int|
            0 <= j < flattened(groups.take(i)).len() ==> lex_le(
                (#[trigger] flattened(groups.take(i))[j]).0,
                groups[i - 1].last().0,
            ),
{
    let front = groups.take(i);
    assert forall|k: int| 0 <= k < front.len() implies (#[trigger] front[k]).len() > 0 by {
        assert(front[k] == groups[k]);
    }
    lemma_flattened_ends(front);
    if i < groups.len() {
        lemma_flattened_split(groups, i);
        lemma_sorted_parts(
            flattened(front),
            groups[i] + flattened(groups.skip(i + 1)),
        );
    } else {
        assert(front =~= groups);
    }
    let flat = flattened(front);
    assert(flat[flat.len() - 1] == groups[i - 1].last());
}

/// The last keys of sorted groups are sorted.
proof fn lemma_group_ends_sorted(groups: Seq<Seq<(Seq<u8>, Doc)>>, i: int, j: int)
    requires
        forall|k: int| 0 <= k < groups.len() ==> (#[trigger] groups[k]).len() > 0,
        keys_sorted(flattened(groups)),
        0 <= i <= j < groups.len(),
    ensures
        lex_le(groups[i].last().0, groups[j].last().0),
{
    lemma_before_block(groups, j + 1);
    let front = groups.take(j + 1);
    lemma_group_len(front, i);
    assert(groups[i].len() > 0);
    let m = groups[i].len() - 1;
    assert(flattened(front).contains(front[i][m]));
    let k = choose|k: int| 0 <= k < flattened(front).len() && flattened(front)[k] == front[i][m];
    assert(lex_le(flattened(front)[k].0, groups[j].last().0));
}

/// The last keys of the blocks of a sorted table are sorted.
proof fn lemma_last_keys_sorted(t: Table, groups: Seq<Seq<(Seq<u8>, Doc)>>)
    requires
        reads_as(t, groups),
        keys_sorted(flattened(groups)),
    ensures
        sorted_keys(last_keys(t.blocks)),
        forall|i: int|
            0 <= i < groups.len() ==> #[trigger] last_keys(t.blocks)[i] == groups[i].last().0,
{
    let keys = last_keys(t.blocks);
    assert forall|i: int| 0 <= i < groups.len() implies #[trigger] keys[i]
        == groups[i].last().0 by {
        assert(groups[i].len() > 0);
    }
    assert forall|i: int, j: int| 0 <= i <= j < keys.len() implies lex_le(
        #[trigger] keys[i],
        #[trigger] keys[j],
    ) by {
        lemma_group_ends_sorted(groups, i, j);
    }
}

/// The document of the first entry with a key.
pub open spec fn first_with_key(entries: Seq<(Seq<u8>, Doc)>, key: Seq<u8>) -> Option<Doc>
    decreases entries.len(),
{
    if entries.len() == 0 {
        None
    } else if entries[0].0 == key {
        Some(entries[0].1)
    } else {
        first_with_key(entries.drop_first(), key)
    }
}

proof fn lemma_first_concat(a: Seq<(Seq<u8>, Doc)>, b: Seq<(Seq<u8>, Doc)>, key: Seq<u8>)
    ensures
        first_with_key(a + b, key) == (match first_with_key(a, key) {
            Some(d) => Some(d),
            None => first_with_key(b, key),
        }),
    decreases a.len(),
{
    if a.len() == 0 {
        assert(a + b =~= b);
    } else {
        assert((a + b).drop_first() =~= a.drop_first() + b);
        lemma_first_concat(a.drop_first(), b, key);
    }
}

proof fn lemma_first_absent(a: Seq<(Seq<u8>, Doc)>, key: Seq<u8>)
    ensures
        first_with_key(a, key) is None <==> forall|i: int|
            0 <= i < a.len() ==> (#[trigger] a[i]).0 != key,
    decreases a.len(),
{
    if a.len() > 0 {
        let rest = a.drop_first();
        lemma_first_absent(rest, key);
        assert(forall|i: int| 0 <= i < rest.len() ==> rest[i] == #[trigger] a[i + 1]);
        if first_with_key(a, key) is None {
            assert forall|i: int| 0 <= i < a.len() implies (#[trigger] a[i]).0 != key by {
                if i > 0 {
                    assert(rest[i - 1] == a[i]);
                }
            }
        }
        if forall|i: int| 0 <= i < a.len() ==> (#[trigger] a[i]).0 != key {
            assert forall|i: int| 0 <= i < rest.len() implies (#[trigger] rest[i]).0 != key by {
                assert(rest[i] == a[i + 1]);
            }
        }
    }
}

/// Binary search in a sorted block finds the first entry with the key.
proof fn lemma_find_doc(group: Seq<(Seq<u8>, Doc)>, key: Seq<u8>)
    requires
        keys_sorted(group),
    ensures
        find_doc(group, key) == first_with_key(group, key),
{
    let keys = entry_keys(group);
    lemma_search_keys(keys, key, 0, keys.len() as int);
    let r = find_key(keys, key);
    let a = group.take(r);
    let b = group.skip(r);
    assert(group =~= a + b);
    lemma_first_concat(a, b, key);
    lemma_lex_strict(key, key);
    assert forall|i: int| 0 <= i < a.len() implies (#[trigger] a[i]).0 != key by {
        assert(keys[i] == a[i].0);
    }
    lemma_first_absent(a, key);
    if b.len() > 0 {
        assert(b[0] == group[r]);
        if b[0].0 != key {
            assert forall|i: int| 0 <= i < b.len() implies (#[trigger] b[i]).0 != key by {
                assert(b[i] == group[r + i]);
                assert(lex_le(group[r].0, group[r + i].0));
                assert(lex_le(key, keys[r]));
                lemma_lex_total(key, group[r].0);
                lemma_lex_transitive(key, group[r].0, group[r + i].0);
            }
            lemma_first_absent(b, key);
        }
    }
}

/// Looking up a key gives the first entry with that key, and nothing where there is none.
proof fn lemma_table_get(t: Table, groups: Seq<Seq<(Seq<u8>, Doc)>>, key: Seq<u8>)
    requires
        reads_as(t, groups),
        keys_sorted(flattened(groups)),
    ensures
        table_get(t, key) == Ok::<Option<Doc>, TableFault>(
            first_with_key(flattened(groups), key),
        ),
{
    let flat = flattened(groups);
    let keys = last_keys(t.blocks);
    let n = groups.len() as int;
    lemma_first_absent(flat, key);
    lemma_usable_answers(t.bloom, key);
    if !all_set(t.bloom, key) {
        if first_with_key(flat, key) is Some {
            let i = choose|i: int| 0 <= i < flat.len() && (#[trigger] flat[i]).0 == key;
            assert(all_set(t.bloom, flat[i].0));
        }
    } else {
        lemma_last_keys_sorted(t, groups);
        lemma_search_keys(keys, key, 0, keys.len() as int);
        let r = find_key(keys, key);
        lemma_lex_strict(key, key);
        if r > 0 {
            lemma_before_block(groups, r);
            let front = flattened(groups.take(r));
            assert(keys[r - 1] == groups[r - 1].last().0);
            assert forall|j: int| 0 <= j < front.len() implies (#[trigger] front[j]).0 != key by {
                lemma_lex_transitive(front[j].0, keys[r - 1], key);
            }
            lemma_first_absent(front, key);
        } else {
            assert(groups.take(r) =~= seq![]);
        }
        if r >= n {
            assert(groups.take(r) =~= groups);
        } else {
            let front = flattened(groups.take(r));
            let back = flattened(groups.skip(r + 1));
            lemma_flattened_split(groups, r);
            lemma_sorted_parts(front, groups[r] + back);
            lemma_sorted_parts(groups[r], back);
            lemma_first_concat(front, groups[r] + back, key);
            lemma_first_concat(groups[r], back, key);
            lemma_find_doc(groups[r], key);
            let m = groups[r].len() - 1;
            assert(keys[r] == groups[r][m].0);
            if first_with_key(groups[r], key) is None {
                lemma_first_absent(groups[r], key);
                lemma_lex_total(key, keys[r]);
                assert forall|j: int| 0 <= j < back.len() implies (#[trigger] back[j]).0
                    != key by {
                    assert(lex_le(groups[r][m].0, back[j].0));
                    lemma_lex_transitive(key, keys[r], back[j].0);
                }
                lemma_first_absent(back, key);
            }
        }
    }
}

/// Looking up a key in a table that was written gives the first entry with that key, and
/// nothing where there is none.
pub proof fn law_get_of_write(
    entries: Seq<(Seq<u8>, Doc)>,
    block_size: nat,
    file: Seq<u8>,
    key: Seq<u8>,
)
    requires
        fits_table(entries),
        keys_sorted(entries),
        is_table_of(file, encoded_entries(entries), block_size),
        file.len() <= u64::MAX,
    ensures
        parse_table(file) matches Ok(t) && table_get(t, key) == Ok::<Option<Doc>, TableFault>(
            first_with_key(entries, key),
        ),
{
    let t = lemma_table_opens(entries, block_size, file);
    reveal(opens_as);
    lemma_grouped_docs(entries, block_size);
    lemma_table_get(t, grouped_docs(entries, block_size), key);
}

/// The entries whose keys lie between two bounds, both inclusive.
pub open spec fn in_range(
    entries: Seq<(Seq<u8>, Doc)>,
    start: Seq<u8>,
    end: Seq<u8>,
) -> Seq<(Seq<u8>, Doc)>
    decreases entries.len(),
{
    if entries.len() == 0 {
        seq![]
    } else {
        let init = in_range(entries.drop_last(), start, end);
        if lex_le(start, entries.last().0) && lex_le(entries.last().0, end) {
            init.push(entries.last())
        } else {
            init
        }
    }
}

/// The entries between two bounds of entries one after another.
pub proof fn lemma_in_range_concat(
    a: Seq<(Seq<u8>, Doc)>,
    b: Seq<(Seq<u8>, Doc)>,
    start: Seq<u8>,
    end: Seq<u8>,
)
    ensures
        in_range(a + b, start, end) == in_range(a, start, end) + in_range(b, start, end),
    decreases b.len(),
{
    if b.len() == 0 {
        assert(a + b =~= a);
        assert(in_range(a, start, end) + in_range(b, start, end) =~= in_range(a, start, end));
    } else {
        lemma_in_range_concat(a, b.drop_last(), start, end);
        assert((a + b).drop_last() =~= a + b.drop_last());
        assert((a + b).last() == b.last());
        assert(in_range(a + b, start, end) =~= in_range(a, start, end) + in_range(b, start, end));
    }
}

proof fn lemma_in_range_none(entries: Seq<(Seq<u8>, Doc)>, start: Seq<u8>, end: Seq<u8>)
    requires
        forall|i: int|
            0 <= i < entries.len() ==> lex_lt((#[trigger] entries[i]).0, start) || lex_lt(
                end,
                entries[i].0,
            ),
    ensures
        in_range(entries, start, end).len() == 0,
    decreases entries.len(),
{
    if entries.len() > 0 {
        let init = entries.drop_last();
        assert forall|i: int| 0 <= i < init.len() implies lex_lt((#[trigger] init[i]).0, start)
            || lex_lt(end, init[i].0) by {
            assert(init[i] == entries[i]);
        }
        lemma_in_range_none(init, start, end);
        assert(entries[entries.len() - 1] == entries.last());
    }
}

/// Whether a scan of some entries ends before their end: one of the keys from `start` on is
/// past `end`.
spec fn passes(entries: Seq<(Seq<u8>, Doc)>, start: Seq<u8>, end: Seq<u8>) -> bool {
    exists|i: int|
        0 <= i < entries.len() && lex_le(start, (#[trigger] entries[i]).0) && lex_lt(
            end,
            entries[i].0,
        )
}

/// Scanning a sorted block takes the entries in range.
proof fn lemma_scan_block(entries: Seq<(Seq<u8>, Doc)>, start: Seq<u8>, end: Seq<u8>)
    requires
        keys_sorted(entries),
    ensures
        scan_block(entries, start, end) == (
            in_range(entries, start, end),
            passes(entries, start, end),
        ),
    decreases entries.len(),
{
    if entries.len() > 0 {
        let init = entries.drop_last();
        let last = entries.last();
        assert(entries =~= init + seq![last]);
        lemma_sorted_parts(init, seq![last]);
        lemma_scan_block(init, start, end);
        assert(entries[entries.len() - 1] == last);
        if passes(init, start, end) {
            let i = choose|i: int|
                0 <= i < init.len() && lex_le(start, (#[trigger] init[i]).0) && lex_lt(
                    end,
                    init[i].0,
                );
            assert(entries[i] == init[i]);
            assert(lex_le(init[i].0, seq![last][0].0));
            lemma_lex_transitive(end, init[i].0, last.0);
            lemma_lex_strict(end, last.0);
        } else if passes(entries, start, end) {
            let i = choose|i: int|
                0 <= i < entries.len() && lex_le(start, (#[trigger] entries[i]).0) && lex_lt(
                    end,
                    entries[i].0,
                );
            if i < init.len() {
                assert(init[i] == entries[i]);
            }
        }
    }
}

/// Scanning the blocks of a sorted table from one on takes the entries in range.
proof fn lemma_scan_blocks(
    t: Table,
    groups: Seq<Seq<(Seq<u8>, Doc)>>,
    start: Seq<u8>,
    end: Seq<u8>,
    i: int,
)
    requires
        reads_as(t, groups),
        0 <= i <= groups.len(),
        keys_sorted(flattened(groups.skip(i))),
    ensures
        scan_blocks(t, start, end, i) == Ok::<Seq<(Seq<u8>, Doc)>, TableFault>(
            in_range(flattened(groups.skip(i)), start, end),
        ),
    decreases groups.len() - i,
{
    if i == groups.len() {
        assert(groups.skip(i) =~= seq![]);
    } else {
        let group = groups[i];
        let back = flattened(groups.skip(i + 1));
        lemma_flattened_split(groups, i);
        lemma_sorted_parts(group, back);
        lemma_scan_block(group, start, end);
        lemma_in_range_concat(group, back, start, end);
        lemma_scan_blocks(t, groups, start, end, i + 1);
        assert(t.blocks[i].last_key == group.last().0);
        let taken = in_range(group, start, end);
        let ends = taken.len() == 0 && lex_lt(end, group.last().0);
        if passes(group, start, end) || ends {
            let m = if passes(group, start, end) {
                choose|m: int|
                    0 <= m < group.len() && lex_le(start, (#[trigger] group[m]).0) && lex_lt(
                        end,
                        group[m].0,
                    )
            } else {
                group.len() - 1
            };
            assert(lex_lt(end, group[m].0));
            assert forall|j: int| 0 <= j < back.len() implies lex_lt((#[trigger] back[j]).0, start)
                || lex_lt(end, back[j].0) by {
                assert(lex_le(group[m].0, back[j].0));
                lemma_lex_transitive(end, group[m].0, back[j].0);
            }
            lemma_in_range_none(back, start, end);
            assert(taken + in_range(back, start, end) =~= taken);
        }
    }
}

proof fn lemma_table_range(
    t: Table,
    groups: Seq<Seq<(Seq<u8>, Doc)>>,
    start: Seq<u8>,
    end: Seq<u8>,
)
    requires
        reads_as(t, groups),
        keys_sorted(flattened(groups)),
    ensures
        table_range(t, start, end) == Ok::<Seq<(Seq<u8>, Doc)>, TableFault>(
            in_range(flattened(groups), start, end),
        ),
{
    let flat = flattened(groups);
    let keys = last_keys(t.blocks);
    let n = groups.len() as int;
    lemma_last_keys_sorted(t, groups);
    lemma_search_keys(keys, start, 0, keys.len() as int);
    let r = find_key(keys, start);
    let front = flattened(groups.take(r));
    if r > 0 {
        lemma_before_block(groups, r);
        assert(keys[r - 1] == groups[r - 1].last().0);
        assert forall|j: int| 0 <= j < front.len() implies lex_lt((#[trigger] front[j]).0, start)
            || lex_lt(end, front[j].0) by {
            lemma_lex_transitive(front[j].0, keys[r - 1], start);
        }
        assert(t.blocks[r - 1].last_key == keys[r - 1]);
    } else {
        assert(groups.take(r) =~= seq![]);
    }
    lemma_in_range_none(front, start, end);
    if r >= n {
        assert(groups.take(r) =~= groups);
        assert(in_range(flat, start, end) =~= seq![]);
    } else {
        let back = flattened(groups.skip(r));
        lemma_flattened_split(groups, r);
        assert(flat =~= front + back);
        lemma_sorted_parts(front, back);
        lemma_in_range_concat(front, back, start, end);
        lemma_scan_blocks(t, groups, start, end, r);
        assert(in_range(flat, start, end) =~= in_range(back, start, end));
        assert(walk_back(t.blocks, start, r) == r);
    }
}

/// A range scan of a table that was written gives exactly the entries between the bounds, in
/// key order.
pub proof fn law_range_of_write(
    entries: Seq<(Seq<u8>, Doc)>,
    block_size: nat,
    file: Seq<u8>,
    start: Seq<u8>,
    end: Seq<u8>,
)
    requires
        fits_table(entries),
        keys_sorted(entries),
        is_table_of(file, encoded_entries(entries), block_size),
        file.len() <= u64::MAX,
    ensures
        parse_table(file) matches Ok(t) && table_range(t, start, end) == Ok::<
            Seq<(Seq<u8>, Doc)>,
            TableFault,
        >(in_range(entries, start, end)),
{
    let t = lemma_table_opens(entries, block_size, file);
    reveal(opens_as);
    lemma_grouped_docs(entries, block_size);
    lemma_table_range(t, grouped_docs(entries, block_size), start, end);
}

/// What lies between two byte strings with a common beginning has that beginning too.
proof fn lemma_prefix_between(p: Seq<u8>, a: Seq<u8>, x: Seq<u8>, c: Seq<u8>)
    requires
        is_prefix(p, a),
        is_prefix(p, c),
        lex_le(a, x),
        lex_le(x, c),
    ensures
        is_prefix(p, x),
    decreases p.len(),
{
    if p.len() == 0 {
        assert(x.take(0) =~= p);
    } else {
        assert(a[0] == a.take(p.len() as int)[0] && c[0] == c.take(p.len() as int)[0]);
        let p1 = p.drop_first();
        assert(a.drop_first().take(p1.len() as int) =~= p1) by {
            assert(a.take(p.len() as int).drop_first() =~= a.drop_first().take(p1.len() as int));
        }
        assert(c.drop_first().take(p1.len() as int) =~= p1) by {
            assert(c.take(p.len() as int).drop_first() =~= c.drop_first().take(p1.len() as int));
        }
        lemma_prefix_between(p1, a.drop_first(), x.drop_first(), c.drop_first());
        assert(x.take(p.len() as int) =~= seq![x[0]] + x.drop_first().take(p1.len() as int));
        assert(p =~= seq![p[0]] + p1);
    }
}

/// A table's filter admits the identity that a key begins with.
proof fn lemma_bloom_admits_id(f: Bloom, entries: Seq<(Seq<u8>, Doc)>, id: Seq<u8>, j: int)
    requires
        admits(f, entries),
        0 <= j < entries.len(),
        id.len() == 16,
        is_prefix(id, entries[j].0),
    ensures
        all_set(f, id),
{
    let k = entries[j].0;
    assert(all_set(f, k));
    if k.len() == 16 {
        assert(k.take(16) =~= k);
    }
}

proof fn lemma_table_latest(
    t: Table,
    groups: Seq<Seq<(Seq<u8>, Doc)>>,
    id: Seq<u8>,
    snapshot: Seq<u8>,
)
    requires
        reads_as(t, groups),
        keys_sorted(flattened(groups)),
        id.len() == 16,
    ensures
        table_latest(t, id, snapshot) == Ok::<Option<Doc>, TableFault>(
            latest_of(in_range(flattened(groups), id, version_key(id, snapshot)), id, snapshot),
        ),
{
    let flat = flattened(groups);
    let max_key = version_key(id, snapshot);
    lemma_usable_answers(t.bloom, id);
    lemma_table_range(t, groups, id, max_key);
    if !all_set(t.bloom, id) {
        assert forall|j: int| 0 <= j < flat.len() implies lex_lt((#[trigger] flat[j]).0, id)
            || lex_lt(max_key, flat[j].0) by {
            if !lex_lt(flat[j].0, id) && !lex_lt(max_key, flat[j].0) {
                assert(id.take(16) =~= id && max_key.take(16) =~= id);
                lemma_prefix_between(id, id, flat[j].0, max_key);
                lemma_bloom_admits_id(t.bloom, flat, id, j);
            }
        }
        lemma_in_range_none(flat, id, max_key);
    }
}

/// Looking up an identity at a snapshot in a table that was written gives the highest version
/// among the entries whose keys begin with the identity, up to the snapshot.
pub proof fn law_latest_of_write(
    entries: Seq<(Seq<u8>, Doc)>,
    block_size: nat,
    file: Seq<u8>,
    id: Seq<u8>,
    snapshot: Seq<u8>,
)
    requires
        fits_table(entries),
        keys_sorted(entries),
        is_table_of(file, encoded_entries(entries), block_size),
        file.len() <= u64::MAX,
        id.len() == 16,
    ensures
        parse_table(file) matches Ok(t) && table_latest(t, id, snapshot) == Ok::<
            Option<Doc>,
            TableFault,
        >(latest_of(in_range(entries, id, version_key(id, snapshot)), id, snapshot)),
{
    let t = lemma_table_opens(entries, block_size, file);
    reveal(opens_as);
    lemma_grouped_docs(entries, block_size);
    lemma_table_latest(t, grouped_docs(entries, block_size), id, snapshot);
}

/// Whether documents and their keys fit the lengths that a table gives them.
pub open spec fn docs_fit(docs: Seq<Doc>, keys: Seq<Seq<u8>>) -> bool {
    &&& 0 < docs.len()
    &&& docs.len() * 10 <= u32::MAX
    &&& keys.len() == docs.len()
    &&& forall|i: int| 0 <= i < docs.len() ==> fits_entry((keys[i], #[trigger] docs[i]))
}

/// Whether an entry is one of the documents with its key.
pub open spec fn is_entry_of(docs: Seq<Doc>, keys: Seq<Seq<u8>>, e: (Seq<u8>, Doc)) -> bool {
    exists|i: int| 0 <= i < docs.len() && e == (keys[i], #[trigger] docs[i])
}

/// The entries of a table are its documents with their keys, in key order: none is lost and
/// none is added.
pub proof fn law_entries_are_the_documents(docs: Seq<Doc>, keys: Seq<Seq<u8>>)
    requires
        keys.len() == docs.len(),
    ensures
        sorted_docs(docs, keys).len() == docs.len(),
        keys_sorted(sorted_docs(docs, keys)),
        forall|i: int|
            0 <= i < docs.len() ==> sorted_docs(docs, keys).contains((keys[i], #[trigger] docs[i])),
        forall|j: int|
            0 <= j < docs.len() ==> is_entry_of(docs, keys, #[trigger] sorted_docs(docs, keys)[j]),
{
    let order = stable_order(keys);
    let entries = sorted_docs(docs, keys);
    lemma_stable_order(keys);
    assert forall|i: int, j: int| 0 <= i <= j < entries.len() implies lex_le(
        (#[trigger] entries[i]).0,
        (#[trigger] entries[j]).0,
    ) by {
        lemma_lex_strict(keys[order[i]], keys[order[j]]);
        if i < j {
            assert(comes_before(keys, order[i], order[j]));
        }
    }
    assert forall|i: int| 0 <= i < docs.len() implies entries.contains(
        (keys[i], #[trigger] docs[i]),
    ) by {
        assert(order.contains(i));
        let j = choose|j: int| 0 <= j < order.len() && order[j] == i;
        assert(entries[j] == (keys[i], docs[i]));
    }
    assert forall|j: int| 0 <= j < docs.len() implies is_entry_of(
        docs,
        keys,
        #[trigger] entries[j],
    ) by {
        let i = order[j];
        assert(entries[j] == (keys[i], docs[i]));
    }
}

pub proof fn lemma_docs_fit(docs: Seq<Doc>, keys: Seq<Seq<u8>>)
    requires
        docs_fit(docs, keys),
    ensures
        fits_table(sorted_docs(docs, keys)),
{
    let entries = sorted_docs(docs, keys);
    law_entries_are_the_documents(docs, keys);
    assert forall|j: int| 0 <= j < entries.len() implies fits_entry(#[trigger] entries[j]) by {
        assert(is_entry_of(docs, keys, entries[j]));
        let i = choose|i: int|
            0 <= i < docs.len() && entries[j] == (keys[i], #[trigger] docs[i]);
        assert(fits_entry((keys[i], docs[i])));
    }
}

/// Whether `r` is a version of a document that is the latest up to a snapshot, or there is no
/// version up to the snapshot.
pub open spec fn is_latest_version(
    docs: Seq<Doc>,
    id: Seq<u8>,
    snapshot: Seq<u8>,
    r: Option<Doc>,
) -> bool {
    match r {
        Some(d) => {
            &&& docs.contains(d)
            &&& d.id == id
            &&& lex_le(d.version, snapshot)
            &&& forall|i: int|
                0 <= i < docs.len() && (#[trigger] docs[i]).id == id && lex_le(
                    docs[i].version,
                    snapshot,
                ) ==> lex_le(docs[i].version, d.version)
        },
        None => forall|i: int|
            0 <= i < docs.len() && (#[trigger] docs[i]).id == id ==> !lex_le(
                docs[i].version,
                snapshot,
            ),
    }
}

/// What is latest among some entries is a visible entry that no visible one is newer than.
proof fn lemma_latest_of(entries: Seq<(Seq<u8>, Doc)>, id: Seq<u8>, snapshot: Seq<u8>)
    ensures
        match latest_of(entries, id, snapshot) {
            Some(d) => {
                &&& exists|j: int| 0 <= j < entries.len() && (#[trigger] entries[j]).1 == d
                &&& visible(d, id, snapshot)
                &&& forall|j: int|
                    0 <= j < entries.len() && visible((#[trigger] entries[j]).1, id, snapshot)
                        ==> lex_le(entries[j].1.version, d.version)
            },
            None => forall|j: int|
                0 <= j < entries.len() ==> !visible((#[trigger] entries[j]).1, id, snapshot),
        },
    decreases entries.len(),
{
    if entries.len() > 0 {
        let init = entries.drop_last();
        let n = entries.len() - 1;
        let last = entries[n].1;
        lemma_latest_of(init, id, snapshot);
        let best = latest_of(init, id, snapshot);
        let r = latest_of(entries, id, snapshot);
        if let Some(d) = r {
            if visible(last, id, snapshot) && r == Some(last) && (best matches Some(b) ==> lex_le(
                b.version,
                last.version,
            )) {
                assert(entries[n].1 == d);
            } else {
                let j = choose|j: int| 0 <= j < init.len() && (#[trigger] init[j]).1 == d;
                assert(entries[j].1 == d);
            }
            assert forall|j: int|
                0 <= j < entries.len() && visible(
                    (#[trigger] entries[j]).1,
                    id,
                    snapshot,
                ) implies lex_le(entries[j].1.version, d.version) by {
                lemma_lex_strict(last.version, last.version);
                if j < n {
                    assert(init[j] == entries[j]);
                    let b = best->Some_0;
                    lemma_lex_total(b.version, d.version);
                    lemma_lex_transitive(entries[j].1.version, b.version, d.version);
                } else if let Some(b) = best {
                    lemma_lex_total(b.version, last.version);
                    lemma_lex_strict(last.version, b.version);
                }
            }
        } else {
            assert forall|j: int| 0 <= j < entries.len() implies !visible(
                (#[trigger] entries[j]).1,
                id,
                snapshot,
            ) by {
                if j < n {
                    assert(init[j] == entries[j]);
                }
            }
        }
    }
}

/// An entry lies between two bounds exactly where it is one of the entries and its key does.
pub proof fn lemma_in_range_entries(entries: Seq<(Seq<u8>, Doc)>, start: Seq<u8>, end: Seq<u8>)
    ensures
        forall|i: int|
            0 <= i < in_range(entries, start, end).len() ==> entries.contains(
                #[trigger] in_range(entries, start, end)[i],
            ),
        forall|j: int|
            0 <= j < entries.len() && lex_le(start, (#[trigger] entries[j]).0) && lex_le(
                entries[j].0,
                end,
            ) ==> in_range(entries, start, end).contains(entries[j]),
    decreases entries.len(),
{
    if entries.len() > 0 {
        let init = entries.drop_last();
        let before = in_range(init, start, end);
        let all = in_range(entries, start, end);
        let n = entries.len() - 1;
        lemma_in_range_entries(init, start, end);
        assert forall|i: int| 0 <= i < all.len() implies entries.contains(#[trigger] all[i]) by {
            if i < before.len() {
                assert(init.contains(before[i]));
                let m = choose|m: int| 0 <= m < init.len() && init[m] == before[i];
                assert(entries[m] == all[i]);
            } else {
                assert(entries[n] == all[i]);
            }
        }
        assert forall|j: int|
            0 <= j < entries.len() && lex_le(start, (#[trigger] entries[j]).0) && lex_le(
                entries[j].0,
                end,
            ) implies all.contains(entries[j]) by {
            if j < n {
                assert(init[j] == entries[j]);
                let m = choose|m: int| 0 <= m < before.len() && before[m] == init[j];
                assert(all[m] == entries[j]);
            } else {
                assert(all[all.len() - 1] == entries[j]);
            }
        }
    }
}

/// Where the keys of all visible documents lie between an identity and the key of a snapshot,
/// what is latest in that range is the latest version.
proof fn lemma_latest_version(
    docs: Seq<Doc>,
    keys: Seq<Seq<u8>>,
    id: Seq<u8>,
    snapshot: Seq<u8>,
)
    requires
        keys.len() == docs.len(),
        forall|i: int|
            0 <= i < docs.len() && visible(#[trigger] docs[i], id, snapshot) ==> lex_le(id, keys[i])
                && lex_le(keys[i], version_key(id, snapshot)),
    ensures
        is_latest_version(
            docs,
            id,
            snapshot,
            latest_of(
                in_range(sorted_docs(docs, keys), id, version_key(id, snapshot)),
                id,
                snapshot,
            ),
        ),
{
    let entries = sorted_docs(docs, keys);
    let max_key = version_key(id, snapshot);
    let found = in_range(entries, id, max_key);
    let r = latest_of(found, id, snapshot);
    law_entries_are_the_documents(docs, keys);
    lemma_in_range_entries(entries, id, max_key);
    lemma_latest_of(found, id, snapshot);
    assert forall|k: int| 0 <= k < docs.len() && visible(#[trigger] docs[k], id, snapshot) implies (
    r matches Some(d) && lex_le(docs[k].version, d.version)) by {
        assert(entries.contains((keys[k], docs[k])));
        let m = choose|m: int| 0 <= m < entries.len() && entries[m] == (keys[k], docs[k]);
        assert(found.contains(entries[m]));
        let j = choose|j: int| 0 <= j < found.len() && found[j] == entries[m];
        assert(visible(found[j].1, id, snapshot));
    }
    match r {
        Some(d) => {
            let j = choose|j: int| 0 <= j < found.len() && (#[trigger] found[j]).1 == d;
            assert(entries.contains(found[j]));
            let m = choose|m: int| 0 <= m < entries.len() && entries[m] == found[j];
            assert(is_entry_of(docs, keys, entries[m]));
            let i = choose|i: int|
                0 <= i < docs.len() && entries[m] == (keys[i], #[trigger] docs[i]);
            assert(docs[i] == d);
            assert forall|k: int|
                0 <= k < docs.len() && (#[trigger] docs[k]).id == id && lex_le(
                    docs[k].version,
                    snapshot,
                ) implies lex_le(docs[k].version, d.version) by {
                assert(visible(docs[k], id, snapshot));
            }
        },
        None => {
            assert forall|k: int|
                0 <= k < docs.len() && (#[trigger] docs[k]).id == id implies !lex_le(
                docs[k].version,
                snapshot,
            ) by {
                if lex_le(docs[k].version, snapshot) {
                    assert(visible(docs[k], id, snapshot));
                }
            }
        },
    }
}

/// A longer byte string does not come before its beginning.
proof fn lemma_prefix_first(p: Seq<u8>, rest: Seq<u8>)
    ensures
        lex_le(p, p + rest),
{
    let none = Seq::<u8>::empty();
    lemma_lex_common_prefix(p, rest, none);
    assert(p + none =~= p);
}

proof fn lemma_version_keys(docs: Seq<Doc>, id: Seq<u8>, snapshot: Seq<u8>)
    ensures
        is_latest_version(
            docs,
            id,
            snapshot,
            latest_of(
                in_range(
                    sorted_docs(docs, keys_of(MvccKeyExtractor, docs)),
                    id,
                    version_key(id, snapshot),
                ),
                id,
                snapshot,
            ),
        ),
{
    let keys = keys_of(MvccKeyExtractor, docs);
    assert forall|i: int| 0 <= i < docs.len() && visible(#[trigger] docs[i], id, snapshot) implies
    lex_le(id, keys[i]) && lex_le(keys[i], version_key(id, snapshot)) by {
        assert(keys[i] == id + docs[i].version);
        lemma_prefix_first(id, docs[i].version);
        lemma_lex_common_prefix(id, snapshot, docs[i].version);
    }
    lemma_latest_version(docs, keys, id, snapshot);
}

proof fn lemma_identity_keys(docs: Seq<Doc>, id: Seq<u8>, snapshot: Seq<u8>)
    ensures
        is_latest_version(
            docs,
            id,
            snapshot,
            latest_of(
                in_range(
                    sorted_docs(docs, keys_of(IdKeyExtractor, docs)),
                    id,
                    version_key(id, snapshot),
                ),
                id,
                snapshot,
            ),
        ),
{
    let keys = keys_of(IdKeyExtractor, docs);
    assert forall|i: int| 0 <= i < docs.len() && visible(#[trigger] docs[i], id, snapshot) implies
    lex_le(id, keys[i]) && lex_le(keys[i], version_key(id, snapshot)) by {
        assert(keys[i] == id);
        lemma_lex_strict(id, id);
        lemma_prefix_first(id, snapshot);
    }
    lemma_latest_version(docs, keys, id, snapshot);
}

/// In a table that was written with version keys, a lookup at a snapshot gives the highest
/// version of the document that is not above the snapshot.
pub proof fn law_snapshot_read(
    docs: Seq<Doc>,
    block_size: nat,
    file: Seq<u8>,
    id: Seq<u8>,
    snapshot: Seq<u8>,
)
    requires
        docs_fit(docs, keys_of(MvccKeyExtractor, docs)),
        is_table_of(file, table_entries(docs, keys_of(MvccKeyExtractor, docs)), block_size),
        file.len() <= u64::MAX,
        id.len() == 16,
    ensures
        parse_table(file) matches Ok(t) && table_latest(t, id, snapshot) matches Ok(r)
            && is_latest_version(docs, id, snapshot, r),
{
    let keys = keys_of(MvccKeyExtractor, docs);
    lemma_docs_fit(docs, keys);
    law_entries_are_the_documents(docs, keys);
    law_latest_of_write(sorted_docs(docs, keys), block_size, file, id, snapshot);
    lemma_version_keys(docs, id, snapshot);
}

/// In a table that was written with identity keys, a lookup at a snapshot gives the highest
/// version of the document that is not above the snapshot, and nothing where every version is
/// above it.
pub proof fn law_snapshot_read_of_identities(
    docs: Seq<Doc>,
    block_size: nat,
    file: Seq<u8>,
    id: Seq<u8>,
    snapshot: Seq<u8>,
)
    requires
        docs_fit(docs, keys_of(IdKeyExtractor, docs)),
        is_table_of(file, table_entries(docs, keys_of(IdKeyExtractor, docs)), block_size),
        file.len() <= u64::MAX,
        id.len() == 16,
    ensures
        parse_table(file) matches Ok(t) && table_latest(t, id, snapshot) matches Ok(r)
            && is_latest_version(docs, id, snapshot, r),
{
    let keys = keys_of(IdKeyExtractor, docs);
    lemma_docs_fit(docs, keys);
    law_entries_are_the_documents(docs, keys);
    law_latest_of_write(sorted_docs(docs, keys), block_size, file, id, snapshot);
    lemma_identity_keys(docs, id, snapshot);
}

/// No version is above the highest one.
proof fn lemma_highest_version(v: Seq<u8>, n: nat)
    requires
        v.len() == n,
    ensures
        lex_le(v, Seq::new(n, |i: int| 0xFFu8)),
    decreases n,
{
    if n > 0 {
        let top = Seq::new(n, |i: int| 0xFFu8);
        lemma_highest_version(v.drop_first(), (n - 1) as nat);
        assert(top.drop_first() =~= Seq::new((n - 1) as nat, |i: int| 0xFFu8));
    }
}

/// The latest version of all is missing only where the document is.
proof fn lemma_latest_of_all(docs: Seq<Doc>, keys: Seq<Seq<u8>>, id: Seq<u8>, r: Option<Doc>)
    requires
        docs_fit(docs, keys),
        is_latest_version(docs, id, filled_id(0xFF), r),
    ensures
        r is None ==> forall|i: int| 0 <= i < docs.len() ==> (#[trigger] docs[i]).id != id,
        r matches Some(d) ==> forall|i: int|
            0 <= i < docs.len() && (#[trigger] docs[i]).id == id ==> lex_le(
                docs[i].version,
                d.version,
            ),
{
    assert forall|i: int| 0 <= i < docs.len() implies lex_le(
        (#[trigger] docs[i]).version,
        filled_id(0xFF),
    ) by {
        assert(fits_entry((keys[i], docs[i])));
        lemma_highest_version(docs[i].version, 16);
        assert(filled_id(0xFF) =~= Seq::new(16, |i: int| 0xFFu8));
    }
}

/// Whether `r` is the latest version of a document, or there is no such document.
pub open spec fn is_latest_of_all(docs: Seq<Doc>, id: Seq<u8>, r: Option<Doc>) -> bool {
    match r {
        Some(d) => {
            &&& docs.contains(d)
            &&& d.id == id
            &&& forall|i: int|
                0 <= i < docs.len() && (#[trigger] docs[i]).id == id ==> lex_le(
                    docs[i].version,
                    d.version,
                )
        },
        None => forall|i: int| 0 <= i < docs.len() ==> (#[trigger] docs[i]).id != id,
    }
}

/// In a table that was written with version keys, a lookup by identity gives the highest
/// version of the document, and nothing only where there is none.
pub proof fn law_get_by_id_of_versions(
    docs: Seq<Doc>,
    block_size: nat,
    file: Seq<u8>,
    id: Seq<u8>,
)
    requires
        docs_fit(docs, keys_of(MvccKeyExtractor, docs)),
        is_table_of(file, table_entries(docs, keys_of(MvccKeyExtractor, docs)), block_size),
        file.len() <= u64::MAX,
        id.len() == 16,
    ensures
        parse_table(file) matches Ok(t) && table_get_by_id(t, id) matches Ok(r)
            && is_latest_of_all(docs, id, r),
{
    law_snapshot_read(docs, block_size, file, id, filled_id(0xFF));
    let t = parse_table(file)->Ok_0;
    let r = table_get_by_id(t, id)->Ok_0;
    lemma_latest_of_all(docs, keys_of(MvccKeyExtractor, docs), id, r);
}

/// In a table that was written with identity keys, a lookup by identity gives the highest
/// version of the document, and nothing only where there is none.
pub proof fn law_get_by_id_of_identities(
    docs: Seq<Doc>,
    block_size: nat,
    file: Seq<u8>,
    id: Seq<u8>,
)
    requires
        docs_fit(docs, keys_of(IdKeyExtractor, docs)),
        is_table_of(file, table_entries(docs, keys_of(IdKeyExtractor, docs)), block_size),
        file.len() <= u64::MAX,
        id.len() == 16,
    ensures
        parse_table(file) matches Ok(t) && table_get_by_id(t, id) matches Ok(r)
            && is_latest_of_all(docs, id, r),
{
    law_snapshot_read_of_identities(docs, block_size, file, id, filled_id(0xFF));
    let t = parse_table(file)->Ok_0;
    let r = table_get_by_id(t, id)->Ok_0;
    lemma_latest_of_all(docs, keys_of(IdKeyExtractor, docs), id, r);
}

/// A table that was written has one block for each group that its entries make: a new block
/// is begun with the first entry, and where an entry would make the last block larger than the
/// block size.
pub proof fn law_block_count(entries: Seq<(Seq<u8>, Doc)>, block_size: nat, file: Seq<u8>)
    requires
        fits_table(entries),
        is_table_of(file, encoded_entries(entries), block_size),
        file.len() <= u64::MAX,
    ensures
        parse_table(file) matches Ok(t) && t.blocks.len() == grouped_docs(entries, block_size).len()
            && 1 <= t.blocks.len() <= entries.len() && (block_size == 0 ==> t.blocks.len()
            == entries.len()),
{
    let t = lemma_table_opens(entries, block_size, file);
    reveal(opens_as);
    lemma_grouped_docs(entries, block_size);
    if block_size == 0 {
        lemma_one_entry_blocks(entries);
    }
}

/// Where blocks have no room, each entry has a block of its own.
proof fn lemma_one_entry_blocks(entries: Seq<(Seq<u8>, Doc)>)
    ensures
        grouped_docs(entries, 0).len() == entries.len(),
    decreases entries.len(),
{
    if entries.len() > 0 {
        lemma_one_entry_blocks(entries.drop_last());
        let entry = entries.last();
        lemma_pow256_values();
        lemma_le_len(entry.0.len(), 2);
    }
}

} // verus!
