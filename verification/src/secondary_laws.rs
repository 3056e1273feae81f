//! What holds of secondary indexes as a whole.

use crate::bytes::{
    lemma_lex_common_prefix, lemma_lex_dominates, lemma_lex_strict, lemma_lex_total,
    lemma_lex_transitive, lex_le, lex_lt,
};
use crate::compression::{may_overflow, surely_packs};
use crate::iblob::{field_value, law_projection, projection, tombstone_of, valid_doc, Doc};
use crate::rebuild::{law_rebuild_covers_half, rebuild_answer};
use crate::secondary::{
    after_delete, after_put, compacted, entry_at, entry_docs, entry_total, fresh_index, has_fields,
    index_blocks, index_docs, index_entries, index_fault, index_keys, index_listing, index_range,
    index_size, indexes, is_index_file, law_buffer_set, lemma_slot_of, listing, may_exceed_table,
    merged, newest, places_rise, rebuild_range, recencies, recency, run_heads, scan_end,
    scan_start, slot_of, with_entry, IndexState,
};
use crate::sort::{
    comes_before, is_stable_order, lemma_stable_order, lemma_stable_order_unique, stable_order,
};
use crate::query::Condition;
use crate::sstable::error::{SSTableError, TableFault};
use crate::sstable::format::{block_data, parse_table, Table};
use crate::sstable::keys::{comparable, field_key, key_part};
use crate::sstable::laws::{
    docs_fit, in_range, is_entry_of, keys_sorted, law_entries_are_the_documents,
    law_range_of_write, law_read_of_write, lemma_docs_fit, lemma_in_range_concat,
    lemma_in_range_entries,
};
use crate::sstable::reader::{entry_keys, table_entries_read, table_range};
use crate::sstable::writer::sorted_docs;
use crate::value::Datum;
use vstd::prelude::*;

verus! {

/// Bytes with all bits flipped.
spec fn flipped(v: Seq<u8>) -> Seq<u8> {
    Seq::new(v.len(), |i: int| (255 - v[i]) as u8)
}

/// Flipping all bits turns the order around.
proof fn lemma_flipped_order(a: Seq<u8>, b: Seq<u8>)
    requires
        a.len() == b.len(),
    ensures
        lex_lt(flipped(a), flipped(b)) <==> lex_lt(b, a),
    decreases a.len(),
{
    if a.len() > 0 {
        assert(flipped(a).drop_first() =~= flipped(a.drop_first()));
        assert(flipped(b).drop_first() =~= flipped(b.drop_first()));
        lemma_flipped_order(a.drop_first(), b.drop_first());
    }
}

/// Documents rank by identity, and those of one identity from the newest version on.
proof fn lemma_recency_order(a: Doc, b: Doc)
    requires
        a.id.len() == 16 && a.version.len() == 16,
        b.id.len() == 16 && b.version.len() == 16,
    ensures
        lex_le(recency(a), recency(b)) ==> lex_le(a.id, b.id),
        lex_le(recency(a), recency(b)) && a.id == b.id ==> lex_le(b.version, a.version),
{
    assert(recency(a) =~= a.id + flipped(a.version));
    assert(recency(b) =~= b.id + flipped(b.version));
    if a.id == b.id {
        lemma_lex_common_prefix(a.id, flipped(b.version), flipped(a.version));
        lemma_flipped_order(b.version, a.version);
        lemma_lex_strict(a.id, a.id);
    } else {
        assert(a.id.take(16) =~= a.id && b.id.take(16) =~= b.id);
        lemma_lex_dominates(b.id, a.id, flipped(b.version), flipped(a.version));
        lemma_lex_total(a.id, b.id);
    }
}

/// Whether documents at positions do not fall in identity.
spec fn ids_ascend(docs: Seq<Doc>, order: Seq<int>) -> bool {
    forall|i: int, j: int|
        0 <= i <= j < order.len() ==> lex_le(
            docs[#[trigger] order[i]].id,
            docs[#[trigger] order[j]].id,
        )
}

/// Whether a head stands for the document at a place of the order: it has its identity and
/// comes no later.
spec fn heads_run(docs: Seq<Doc>, order: Seq<int>, head: int, i: int) -> bool {
    docs[head].id == docs[order[i]].id && exists|p: int|
        0 <= p <= i && #[trigger] order[p] == head
}

/// Whether some head stands for the document at a place of the order.
spec fn has_head(docs: Seq<Doc>, order: Seq<int>, i: int) -> bool {
    exists|k: int|
        0 <= k < run_heads(docs, order).len() && heads_run(
            docs,
            order,
            #[trigger] run_heads(docs, order)[k],
            i,
        )
}

proof fn lemma_run_heads(docs: Seq<Doc>, order: Seq<int>)
    requires
        ids_ascend(docs, order),
    ensures
        order.len() > 0 ==> run_heads(docs, order).len() > 0 && docs[run_heads(
            docs,
            order,
        ).last()].id == docs[order.last()].id,
        forall|k: int|
            0 <= k < run_heads(docs, order).len() ==> order.contains(
                #[trigger] run_heads(docs, order)[k],
            ),
        forall|k: int, l: int|
            0 <= k < l < run_heads(docs, order).len() ==> lex_lt(
                docs[#[trigger] run_heads(docs, order)[k]].id,
                docs[#[trigger] run_heads(docs, order)[l]].id,
            ),
        forall|i: int| 0 <= i < order.len() ==> #[trigger] has_head(docs, order, i),
    decreases order.len(),
{
    if order.len() > 0 {
        let init = order.drop_last();
        let next = order.last();
        let n = order.len() - 1;
        assert(order[n] == next);
        assert forall|i: int, j: int| 0 <= i <= j < init.len() implies lex_le(
            docs[#[trigger] init[i]].id,
            docs[#[trigger] init[j]].id,
        ) by {
            assert(init[i] == order[i] && init[j] == order[j]);
        }
        lemma_run_heads(docs, init);
        let before = run_heads(docs, init);
        let after = run_heads(docs, order);
        let repeats = n > 0 && docs[order[n - 1]].id == docs[next].id;
        if n > 0 {
            assert(init.last() == order[n - 1]);
            assert(lex_le(docs[order[n - 1]].id, docs[order[n]].id));
            lemma_lex_total(docs[order[n - 1]].id, docs[order[n]].id);
        }
        assert forall|k: int| 0 <= k < after.len() implies order.contains(
            #[trigger] after[k],
        ) by {
            if k < before.len() {
                assert(init.contains(before[k]));
                let m = choose|m: int| 0 <= m < init.len() && init[m] == before[k];
                assert(order[m] == after[k]);
            }
        }
        assert forall|k: int, l: int| 0 <= k < l < after.len() implies lex_lt(
            docs[#[trigger] after[k]].id,
            docs[#[trigger] after[l]].id,
        ) by {
            if l < before.len() {
                assert(after[k] == before[k] && after[l] == before[l]);
            } else {
                let m = before.len() - 1;
                assert(after[k] == before[k]);
                if k < m {
                    assert(lex_lt(docs[before[k]].id, docs[before[m]].id));
                    lemma_lex_transitive(docs[before[k]].id, docs[before[m]].id, docs[next].id);
                }
            }
        }
        assert forall|i: int| 0 <= i < order.len() implies #[trigger] has_head(
            docs,
            order,
            i,
        ) by {
            if i < n {
                assert(has_head(docs, init, i));
                let k = choose|k: int|
                    0 <= k < before.len() && heads_run(docs, init, #[trigger] before[k], i);
                let p = choose|p: int| 0 <= p <= i && #[trigger] init[p] == before[k];
                assert(order[p] == after[k]);
                assert(heads_run(docs, order, after[k], i));
            } else if repeats {
                assert(has_head(docs, init, n - 1));
                let k = choose|k: int|
                    0 <= k < before.len() && heads_run(docs, init, #[trigger] before[k], n - 1);
                let p = choose|p: int| 0 <= p <= n - 1 && #[trigger] init[p] == before[k];
                assert(order[p] == after[k]);
                assert(heads_run(docs, order, after[k], i));
            } else {
                assert(after[after.len() - 1] == order[n]);
                assert(heads_run(docs, order, after[after.len() - 1], i));
            }
        }
    }
}

/// Whether a position is that of a version of a document that is as new as another.
pub open spec fn stands_for(docs: Seq<Doc>, head: int, m: int) -> bool {
    docs[head].id == docs[m].id && lex_le(docs[m].version, docs[head].version)
}

/// Whether a kept version stands for a document.
pub open spec fn is_represented(docs: Seq<Doc>, m: int) -> bool {
    exists|k: int| 0 <= k < newest(docs).len() && stands_for(docs, #[trigger] newest(docs)[k], m)
}

/// Deduplication keeps one version of each document, its newest: identities rise strictly, and
/// for every document there is a kept one of the same identity with no older version.
pub proof fn law_newest_version_wins(docs: Seq<Doc>)
    requires
        forall|i: int|
            0 <= i < docs.len() ==> (#[trigger] docs[i]).id.len() == 16 && docs[i].version.len()
                == 16,
    ensures
        forall|k: int|
            0 <= k < newest(docs).len() ==> 0 <= #[trigger] newest(docs)[k] < docs.len(),
        forall|k: int, l: int|
            0 <= k < l < newest(docs).len() ==> lex_lt(
                docs[#[trigger] newest(docs)[k]].id,
                docs[#[trigger] newest(docs)[l]].id,
            ),
        forall|m: int| 0 <= m < docs.len() ==> #[trigger] is_represented(docs, m),
{
    let rs = recencies(docs);
    let order = stable_order(rs);
    lemma_stable_order(rs);
    assert forall|i: int, j: int| 0 <= i <= j < order.len() implies lex_le(
        docs[#[trigger] order[i]].id,
        docs[#[trigger] order[j]].id,
    ) && lex_le(recency(docs[order[i]]), recency(docs[order[j]])) by {
        lemma_lex_strict(rs[order[i]], rs[order[j]]);
        if i < j {
            assert(comes_before(rs, order[i], order[j]));
        }
        lemma_recency_order(docs[order[i]], docs[order[j]]);
    }
    lemma_run_heads(docs, order);
    let heads = newest(docs);
    assert forall|k: int| 0 <= k < heads.len() implies 0 <= #[trigger] heads[k] < docs.len() by {
        assert(order.contains(heads[k]));
    }
    assert forall|m: int| 0 <= m < docs.len() implies #[trigger] is_represented(docs, m) by {
        assert(order.contains(m));
        let i = choose|i: int| 0 <= i < order.len() && order[i] == m;
        assert(has_head(docs, order, i));
        let k = choose|k: int|
            0 <= k < heads.len() && heads_run(docs, order, #[trigger] heads[k], i);
        let p = choose|p: int| 0 <= p <= i && #[trigger] order[p] == heads[k];
        assert(lex_le(recency(docs[order[p]]), recency(docs[order[i]])));
        lemma_recency_order(docs[order[p]], docs[order[i]]);
        assert(stands_for(docs, heads[k], m));
    }
}

/// Whether a position is that of the newest version of its document, and of the first of these
/// where the version occurs several times.
pub open spec fn is_current(docs: Seq<Doc>, m: int) -> bool {
    &&& 0 <= m < docs.len()
    &&& forall|j: int|
        0 <= j < docs.len() && j != m && (#[trigger] docs[j]).id == docs[m].id ==> lex_lt(
            docs[j].version,
            docs[m].version,
        ) || (docs[j].version == docs[m].version && m < j)
}

/// Deduplication keeps exactly the newest version of each document.
pub proof fn law_newest_are_current(docs: Seq<Doc>, m: int)
    requires
        forall|i: int|
            0 <= i < docs.len() ==> (#[trigger] docs[i]).id.len() == 16 && docs[i].version.len()
                == 16,
    ensures
        newest(docs).contains(m) <==> is_current(docs, m),
{
    let rs = recencies(docs);
    let order = stable_order(rs);
    let heads = newest(docs);
    law_newest_version_wins(docs);
    lemma_stable_order(rs);
    if heads.contains(m) {
        let k = choose|k: int| 0 <= k < heads.len() && heads[k] == m;
        lemma_head_is_current(docs, k);
    }
    if is_current(docs, m) {
        assert(is_represented(docs, m));
        let k = choose|k: int|
            0 <= k < heads.len() && stands_for(docs, #[trigger] heads[k], m);
        let h = heads[k];
        lemma_head_is_current(docs, k);
        if h != m {
            assert(docs[h].id == docs[m].id);
            lemma_lex_strict(docs[h].version, docs[m].version);
            lemma_lex_strict(docs[m].version, docs[m].version);
        }
    }
}

proof fn lemma_head_is_current(docs: Seq<Doc>, k: int)
    requires
        forall|i: int|
            0 <= i < docs.len() ==> (#[trigger] docs[i]).id.len() == 16 && docs[i].version.len()
                == 16,
        0 <= k < newest(docs).len(),
    ensures
        is_current(docs, newest(docs)[k]),
{
    let rs = recencies(docs);
    let order = stable_order(rs);
    let heads = newest(docs);
    let m = heads[k];
    law_newest_version_wins(docs);
    lemma_stable_order(rs);
    assert forall|i: int, j: int| 0 <= i <= j < order.len() implies lex_le(
        docs[#[trigger] order[i]].id,
        docs[#[trigger] order[j]].id,
    ) by {
        lemma_lex_strict(rs[order[i]], rs[order[j]]);
        if i < j {
            assert(comes_before(rs, order[i], order[j]));
        }
        lemma_recency_order(docs[order[i]], docs[order[j]]);
    }
    lemma_run_heads(docs, order);
    assert forall|j: int|
        0 <= j < docs.len() && j != m && (#[trigger] docs[j]).id == docs[m].id implies lex_lt(
        docs[j].version,
        docs[m].version,
    ) || (docs[j].version == docs[m].version && m < j) by {
        assert(order.contains(j));
        let i = choose|i: int| 0 <= i < order.len() && order[i] == j;
        assert(has_head(docs, order, i));
        let l = choose|l: int|
            0 <= l < heads.len() && heads_run(docs, order, #[trigger] heads[l], i);
        lemma_lex_strict(docs[m].id, docs[m].id);
        if l < k {
            assert(lex_lt(docs[heads[l]].id, docs[heads[k]].id));
        } else if k < l {
            assert(lex_lt(docs[heads[k]].id, docs[heads[l]].id));
        }
        let p = choose|p: int| 0 <= p <= i && #[trigger] order[p] == heads[l];
        assert(comes_before(rs, order[p], order[i]));
        assert(recency(docs[m]) =~= docs[m].id + flipped(docs[m].version));
        assert(recency(docs[j]) =~= docs[j].id + flipped(docs[j].version));
        lemma_lex_common_prefix(
            docs[m].id,
            flipped(docs[m].version),
            flipped(docs[j].version),
        );
        lemma_flipped_order(docs[m].version, docs[j].version);
        lemma_lex_total(docs[j].version, docs[m].version);
        if recency(docs[m]) == recency(docs[j]) {
            lemma_lex_strict(recency(docs[m]), recency(docs[m]));
            lemma_flipped_order(docs[j].version, docs[m].version);
            lemma_lex_common_prefix(
                docs[m].id,
                flipped(docs[j].version),
                flipped(docs[m].version),
            );
        }
    }
}

/// A document and its projection have the same index key.
pub proof fn law_projection_keeps_key(d: Doc, names: Seq<Seq<char>>)
    requires
        valid_doc(d),
    ensures
        field_key(names, projection(d, names)) == field_key(names, d),
{
    lemma_projection_key(d, names, names.len() as int);
    assert(names.take(names.len() as int) =~= names);
}

proof fn lemma_projection_key(d: Doc, names: Seq<Seq<char>>, n: int)
    requires
        valid_doc(d),
        0 <= n <= names.len(),
    ensures
        field_key(names.take(n), projection(d, names)) == field_key(names.take(n), d),
    decreases n,
{
    if n > 0 {
        assert(names.take(n).drop_last() =~= names.take(n - 1));
        assert(names.take(n).last() == names[n - 1]);
        lemma_projection_key(d, names, n - 1);
        law_projection(d, names, names[n - 1]);
        assert(names.contains(names[n - 1]));
    }
}

/// The index key of one field is the comparable encoding of its value.
pub proof fn law_single_field_key(name: Seq<char>, d: Doc)
    ensures
        field_key(seq![name], d) == key_part(field_value(d, name)),
{
    let names = seq![name];
    reveal_with_fuel(field_key, 2);
    assert(names.drop_last() =~= seq![]);
    assert(field_key(names, d) =~= key_part(field_value(d, name)));
}

/// Merging gives the entries in key order: none is lost and none is added.
pub proof fn law_merged(entries: Seq<(Seq<u8>, Doc)>)
    ensures
        merged(entries).len() == entries.len(),
        keys_sorted(merged(entries)),
        forall|i: int| 0 <= i < entries.len() ==> merged(entries).contains(#[trigger] entries[i]),
        forall|j: int| 0 <= j < entries.len() ==> entries.contains(#[trigger] merged(entries)[j]),
{
    let keys = entry_keys(entries);
    let order = stable_order(keys);
    let sorted = merged(entries);
    lemma_stable_order(keys);
    assert forall|i: int, j: int| 0 <= i <= j < sorted.len() implies lex_le(
        (#[trigger] sorted[i]).0,
        (#[trigger] sorted[j]).0,
    ) by {
        lemma_lex_strict(keys[order[i]], keys[order[j]]);
        if i < j {
            assert(comes_before(keys, order[i], order[j]));
        }
    }
    assert forall|i: int| 0 <= i < entries.len() implies sorted.contains(
        #[trigger] entries[i],
    ) by {
        assert(order.contains(i));
        let j = choose|j: int| 0 <= j < order.len() && order[j] == i;
        assert(sorted[j] == entries[i]);
    }
    assert forall|j: int| 0 <= j < entries.len() implies entries.contains(
        #[trigger] sorted[j],
    ) by {
        assert(sorted[j] == entries[order[j]]);
    }
}

/// Entries in key order stay as they are.
proof fn lemma_merged_sorted(entries: Seq<(Seq<u8>, Doc)>)
    requires
        keys_sorted(entries),
    ensures
        merged(entries) == entries,
{
    let keys = entry_keys(entries);
    let same = Seq::new(entries.len(), |i: int| i);
    assert forall|k: int| 0 <= k < keys.len() implies #[trigger] same.contains(k) by {
        assert(same[k] == k);
    }
    assert forall|i: int, j: int| 0 <= i < j < same.len() implies comes_before(
        keys,
        #[trigger] same[i],
        #[trigger] same[j],
    ) by {
        assert(lex_le(entries[i].0, entries[j].0));
        lemma_lex_total(entries[i].0, entries[j].0);
    }
    assert(is_stable_order(keys, same));
    lemma_stable_order(keys);
    lemma_stable_order_unique(keys, same, stable_order(keys));
    assert(merged(entries) =~= entries);
}

/// A table that an index was written to reads as its documents in key order.
proof fn lemma_index_reads(t: Table, docs: Seq<Doc>, names: Seq<Seq<char>>, block_size: nat)
    requires
        indexes(t, docs, names, block_size),
        docs_fit(docs, index_keys(names, docs)),
    ensures
        table_entries_read(t) == Ok::<Seq<(Seq<u8>, Doc)>, TableFault>(
            sorted_docs(docs, index_keys(names, docs)),
        ),
        keys_sorted(sorted_docs(docs, index_keys(names, docs))),
{
    let keys = index_keys(names, docs);
    let file = choose|file: Seq<u8>| #[trigger]
        is_index_file(file, docs, names, block_size) && parse_table(file) == Ok::<
            Table,
            TableFault,
        >(t);
    lemma_docs_fit(docs, keys);
    law_entries_are_the_documents(docs, keys);
    law_read_of_write(sorted_docs(docs, keys), block_size, file);
}

/// A fresh index lists its documents in the order of their index keys.
pub proof fn law_fresh_index_lists_documents(
    t: Table,
    docs: Seq<Doc>,
    names: Seq<Seq<char>>,
    range: Option<Condition>,
    path: Seq<char>,
    block_size: nat,
)
    requires
        indexes(t, docs, names, block_size),
        docs_fit(docs, index_keys(names, docs)),
    ensures
        index_listing(fresh_index(names, range, t, path)) == Ok::<
            Seq<(Seq<u8>, Doc)>,
            TableFault,
        >(listing(sorted_docs(docs, index_keys(names, docs)))),
{
    let entries = sorted_docs(docs, index_keys(names, docs));
    lemma_index_reads(t, docs, names, block_size);
    lemma_merged_sorted(entries);
    assert(entries + Seq::<(Seq<u8>, Doc)>::empty() =~= entries);
}

/// Documents that fit a table fail to be indexed only where a block may be too large.
pub proof fn law_index_fault(
    docs: Seq<Doc>,
    names: Seq<Seq<char>>,
    block_size: nat,
    e: TableFault,
)
    requires
        docs_fit(docs, index_keys(names, docs)),
        index_fault(docs, names, block_size, e),
    ensures
        e == TableFault::TooLarge,
        may_exceed_table(docs, names, block_size),
{
    let keys = index_keys(names, docs);
    if exists|file: Seq<u8>| #[trigger]
        is_index_file(file, docs, names, block_size) && parse_table(file) == Err::<
            Table,
            TableFault,
        >(e) {
        let file = choose|file: Seq<u8>| #[trigger]
            is_index_file(file, docs, names, block_size) && parse_table(file) == Err::<
                Table,
                TableFault,
            >(e);
        lemma_docs_fit(docs, keys);
        law_read_of_write(sorted_docs(docs, keys), block_size, file);
    }
}

/// Documents that fit a table are always indexed where every block is small enough to be
/// stored, which on a 64-bit machine all blocks below 3.9 gigabytes are.
pub proof fn law_fitting_documents_are_indexed(
    docs: Seq<Doc>,
    names: Seq<Seq<char>>,
    block_size: nat,
    e: TableFault,
)
    requires
        docs_fit(docs, index_keys(names, docs)),
        forall|j: int|
            0 <= j < index_blocks(docs, names, block_size).len() ==> surely_packs(
                block_data(#[trigger] index_blocks(docs, names, block_size)[j]),
            ),
    ensures
        !index_fault(docs, names, block_size, e),
{
    if index_fault(docs, names, block_size, e) {
        law_index_fault(docs, names, block_size, e);
        let blocks = index_blocks(docs, names, block_size);
        let j = choose|j: int|
            0 <= j < blocks.len() && may_overflow(block_data(#[trigger] blocks[j]));
        assert(surely_packs(block_data(blocks[j])));
    }
}

/// A notification that an index gets.
pub enum Notice {
    Put(Doc),
    Delete(Seq<u8>),
}

/// The identity of the document that a notification is about.
pub open spec fn notice_id(notice: Notice) -> Seq<u8> {
    match notice {
        Notice::Put(d) => d.id,
        Notice::Delete(id) => id,
    }
}

/// Whether a notification is about a valid document.
pub open spec fn valid_notice(notice: Notice) -> bool {
    notice matches Notice::Put(d) ==> valid_doc(d)
}

/// What a notification makes of an index.
pub open spec fn after_notice(s: IndexState, notice: Notice) -> IndexState {
    match notice {
        Notice::Put(d) => after_put(s, d),
        Notice::Delete(id) => after_delete(s, id),
    }
}

/// What notifications one after another make of an index.
pub open spec fn after_notices(s: IndexState, notices: Seq<Notice>) -> IndexState
    decreases notices.len(),
{
    if notices.len() == 0 {
        s
    } else {
        after_notice(after_notices(s, notices.drop_last()), notices.last())
    }
}

/// Notifications of other documents keep an entry.
proof fn lemma_entry_stays(s: IndexState, notices: Seq<Notice>, at: (Seq<u8>, Seq<u8>))
    requires
        places_rise(s.pending),
        forall|i: int| 0 <= i < notices.len() ==> notice_id(#[trigger] notices[i]) != at.1,
    ensures
        places_rise(after_notices(s, notices).pending),
        entry_at(after_notices(s, notices).pending, at) == entry_at(s.pending, at),
        after_notices(s, notices).names == s.names,
        after_notices(s, notices).table == s.table,
    decreases notices.len(),
{
    if notices.len() > 0 {
        let init = notices.drop_last();
        assert forall|i: int| 0 <= i < init.len() implies notice_id(#[trigger] init[i]) != at.1 by {
            assert(init[i] == notices[i]);
        }
        lemma_entry_stays(s, init, at);
        let before = after_notices(s, init);
        assert(notice_id(notices[notices.len() - 1]) != at.1);
        match notices.last() {
            Notice::Put(d) => {
                law_buffer_set(
                    before.pending,
                    field_key(s.names, d),
                    projection(d, s.names),
                    at,
                );
            },
            Notice::Delete(id) => {
                let tomb = tombstone_of(id);
                law_buffer_set(before.pending, field_key(s.names, tomb), tomb, at);
            },
        }
    }
}

/// An entry of the buffer is listed.
proof fn lemma_entry_is_listed(s: IndexState, at: (Seq<u8>, Seq<u8>))
    requires
        places_rise(s.pending),
        index_entries(s) is Ok,
        entry_at(s.pending, at) is Some,
    ensures
        index_listing(s) matches Ok(listed) && listed.contains(
            (at.1, entry_at(s.pending, at)->Some_0),
        ),
{
    let d = entry_at(s.pending, at)->Some_0;
    let entries = index_entries(s)->Ok_0;
    let read = table_entries_read(s.table)->Ok_0;
    let slot = slot_of(s.pending, at);
    lemma_slot_of(s.pending, at);
    assert(entries[read.len() + slot] == s.pending[slot]);
    law_merged(entries);
    let j = choose|j: int| 0 <= j < merged(entries).len() && merged(entries)[j] == s.pending[slot];
    assert(listing(merged(entries))[j] == (at.1, d));
}

/// A document that was put and has the indexed fields is listed from then on, at least until
/// the index is notified of the same document again or is compacted.
pub proof fn law_put_is_listed(s: IndexState, d: Doc, later: Seq<Notice>)
    requires
        places_rise(s.pending),
        index_entries(s) is Ok,
        has_fields(s.names, d),
        forall|i: int| 0 <= i < later.len() ==> notice_id(#[trigger] later[i]) != d.id,
    ensures
        index_listing(after_notices(after_put(s, d), later)) matches Ok(listed) && listed.contains(
            (d.id, projection(d, s.names)),
        ),
{
    let key = field_key(s.names, d);
    let p = projection(d, s.names);
    law_buffer_set(s.pending, key, p, (key, d.id));
    lemma_entry_stays(after_put(s, d), later, (key, d.id));
    lemma_entry_is_listed(after_notices(after_put(s, d), later), (key, d.id));
}

/// The deletion of a document is listed from then on, as a tombstone, at least until the index
/// is notified of the same document again or is compacted.
pub proof fn law_delete_is_listed(s: IndexState, id: Seq<u8>, later: Seq<Notice>)
    requires
        places_rise(s.pending),
        index_entries(s) is Ok,
        forall|i: int| 0 <= i < later.len() ==> notice_id(#[trigger] later[i]) != id,
    ensures
        index_listing(after_notices(after_delete(s, id), later)) matches Ok(listed)
            && listed.contains((id, tombstone_of(id))),
{
    let tomb = tombstone_of(id);
    let key = field_key(s.names, tomb);
    law_buffer_set(s.pending, key, tomb, (key, id));
    lemma_entry_stays(after_delete(s, id), later, (key, id));
    lemma_entry_is_listed(after_notices(after_delete(s, id), later), (key, id));
}

/// A put adds one entry, in place of the one that the buffer had for the same document under
/// the same key, and none for a document that lacks an indexed field.
pub proof fn law_put_counts(s: IndexState, d: Doc)
    requires
        places_rise(s.pending),
    ensures
        index_size(after_put(s, d)) == index_size(s) + (if has_fields(s.names, d) && entry_at(
            s.pending,
            (field_key(s.names, d), d.id),
        ) is None {
            1int
        } else {
            0
        }),
{
    let key = field_key(s.names, d);
    law_buffer_set(s.pending, key, projection(d, s.names), (key, d.id));
}

/// Two documents that are put are both listed and count as two entries, also where their
/// indexed fields are equal.
pub proof fn law_two_puts(s: IndexState, a: Doc, b: Doc)
    requires
        places_rise(s.pending),
        index_entries(s) is Ok,
        has_fields(s.names, a),
        has_fields(s.names, b),
        a.id != b.id,
        entry_at(s.pending, (field_key(s.names, a), a.id)) is None,
        entry_at(s.pending, (field_key(s.names, b), b.id)) is None,
    ensures
        index_size(after_put(after_put(s, a), b)) == index_size(s) + 2,
        index_listing(after_put(after_put(s, a), b)) matches Ok(listed) && listed.contains(
            (a.id, projection(a, s.names)),
        ) && listed.contains((b.id, projection(b, s.names))),
{
    let key = field_key(s.names, a);
    let one = after_put(s, a);
    law_buffer_set(s.pending, key, projection(a, s.names), (field_key(s.names, b), b.id));
    law_put_counts(s, a);
    law_put_counts(one, b);
    let later = seq![Notice::Put(b)];
    reveal_with_fuel(after_notices, 2);
    assert(later.drop_last() =~= seq![]);
    law_put_is_listed(s, a, later);
    law_put_is_listed(one, b, seq![]);
}

/// Whether each entry has the index key of its document.
pub open spec fn keyed(names: Seq<Seq<char>>, entries: Seq<(Seq<u8>, Doc)>) -> bool {
    forall|i: int|
        0 <= i < entries.len() ==> (#[trigger] entries[i]).0 == field_key(names, entries[i].1)
}

/// Whether a table is one of some documents that fit it.
#[verifier::opaque]
pub open spec fn is_index_table(
    t: Table,
    docs: Seq<Doc>,
    names: Seq<Seq<char>>,
    block_size: nat,
) -> bool {
    indexes(t, docs, names, block_size) && docs_fit(docs, index_keys(names, docs))
}

proof fn lemma_is_index_table(
    t: Table,
    docs: Seq<Doc>,
    names: Seq<Seq<char>>,
    block_size: nat,
)
    ensures
        is_index_table(t, docs, names, block_size) == (indexes(t, docs, names, block_size)
            && docs_fit(docs, index_keys(names, docs))),
{
    reveal(is_index_table);
}

/// Whether an index is over a table that was written for it, and each buffered entry has the
/// key of its document. A new index is sound, and notifications and compactions keep it so.
pub open spec fn is_sound(s: IndexState) -> bool {
    &&& exists|docs: Seq<Doc>, block_size: nat| #[trigger]
        is_index_table(s.table, docs, s.names, block_size)
    &&& places_rise(s.pending)
    &&& keyed(s.names, s.pending)
}

/// A new index over documents that fit a table is sound.
pub proof fn law_fresh_index_is_sound(
    t: Table,
    docs: Seq<Doc>,
    names: Seq<Seq<char>>,
    range: Option<Condition>,
    path: Seq<char>,
    block_size: nat,
)
    requires
        indexes(t, docs, names, block_size),
        docs_fit(docs, index_keys(names, docs)),
    ensures
        is_sound(fresh_index(names, range, t, path)),
{
    lemma_is_index_table(t, docs, names, block_size);
    lemma_sound(fresh_index(names, range, t, path), docs, block_size);
}

/// A table of fitting documents with nothing buffered makes a sound index.
proof fn lemma_sound(s: IndexState, docs: Seq<Doc>, block_size: nat)
    requires
        is_index_table(s.table, docs, s.names, block_size),
        s.pending.len() == 0,
    ensures
        is_sound(s),
{
}

proof fn lemma_entry_keeps_keyed(
    names: Seq<Seq<char>>,
    entries: Seq<(Seq<u8>, Doc)>,
    d: Doc,
)
    requires
        places_rise(entries),
        keyed(names, entries),
    ensures
        places_rise(with_entry(entries, field_key(names, d), d)),
        keyed(names, with_entry(entries, field_key(names, d), d)),
{
    let key = field_key(names, d);
    let after = with_entry(entries, key, d);
    let slot = slot_of(entries, (key, d.id));
    law_buffer_set(entries, key, d, (key, d.id));
    lemma_slot_of(entries, (key, d.id));
    assert forall|i: int| 0 <= i < after.len() implies (#[trigger] after[i]).0 == field_key(
        names,
        after[i].1,
    ) by {
        if after.len() == entries.len() {
            if i != slot {
                assert(after[i] == entries[i]);
            }
        } else if i < slot {
            assert(after[i] == entries[i]);
        } else if i > slot {
            assert(after[i] == entries[i - 1]);
        }
    }
}

/// Notifications keep an index sound.
pub proof fn law_notice_keeps_sound(s: IndexState, notice: Notice)
    requires
        is_sound(s),
        valid_notice(notice),
    ensures
        is_sound(after_notice(s, notice)),
{
    match notice {
        Notice::Put(d) => {
            law_projection_keeps_key(d, s.names);
            lemma_entry_keeps_keyed(s.names, s.pending, projection(d, s.names));
        },
        Notice::Delete(id) => {
            lemma_entry_keeps_keyed(s.names, s.pending, tombstone_of(id));
        },
    }
    let (docs, block_size) = choose|docs: Seq<Doc>, block_size: nat| #[trigger]
        is_index_table(s.table, docs, s.names, block_size);
    assert(is_index_table(after_notice(s, notice).table, docs, s.names, block_size));
}

/// Notifications one after another keep an index sound.
pub proof fn law_notices_keep_sound(s: IndexState, notices: Seq<Notice>)
    requires
        is_sound(s),
        forall|i: int| 0 <= i < notices.len() ==> valid_notice(#[trigger] notices[i]),
    ensures
        is_sound(after_notices(s, notices)),
    decreases notices.len(),
{
    if notices.len() > 0 {
        let init = notices.drop_last();
        assert forall|i: int| 0 <= i < init.len() implies valid_notice(#[trigger] init[i]) by {
            assert(init[i] == notices[i]);
        }
        law_notices_keep_sound(s, init);
        assert(valid_notice(notices[notices.len() - 1]));
        law_notice_keeps_sound(after_notices(s, init), notices.last());
    }
}

/// A sound index can be read, and each of its entries has the key of its document.
proof fn lemma_sound_reads(s: IndexState) -> (entries: Seq<(Seq<u8>, Doc)>)
    requires
        is_sound(s),
    ensures
        table_entries_read(s.table) == Ok::<Seq<(Seq<u8>, Doc)>, TableFault>(entries),
        keys_sorted(entries),
        keyed(s.names, entries),
        keyed(s.names, entries + s.pending),
        forall|start: Seq<u8>, end: Seq<u8>| #[trigger]
            table_range(s.table, start, end) == Ok::<Seq<(Seq<u8>, Doc)>, TableFault>(
                in_range(entries, start, end),
            ),
{
    let (docs, block_size) = choose|docs: Seq<Doc>, block_size: nat| #[trigger]
        is_index_table(s.table, docs, s.names, block_size);
    let keys = index_keys(s.names, docs);
    let entries = sorted_docs(docs, keys);
    lemma_is_index_table(s.table, docs, s.names, block_size);
    lemma_index_reads(s.table, docs, s.names, block_size);
    law_entries_are_the_documents(docs, keys);
    assert forall|j: int| 0 <= j < entries.len() implies (#[trigger] entries[j]).0 == field_key(
        s.names,
        entries[j].1,
    ) by {
        assert(is_entry_of(docs, keys, entries[j]));
    }
    let both = entries + s.pending;
    assert forall|j: int| 0 <= j < both.len() implies (#[trigger] both[j]).0 == field_key(
        s.names,
        both[j].1,
    ) by {
        if j < entries.len() {
            assert(both[j] == entries[j]);
        } else {
            assert(both[j] == s.pending[j - entries.len()]);
        }
    }
    let file = choose|file: Seq<u8>| #[trigger]
        is_index_file(file, docs, s.names, block_size) && parse_table(file) == Ok::<
            Table,
            TableFault,
        >(s.table);
    lemma_docs_fit(docs, keys);
    assert forall|start: Seq<u8>, end: Seq<u8>| #[trigger]
        table_range(s.table, start, end) == Ok::<Seq<(Seq<u8>, Doc)>, TableFault>(
            in_range(entries, start, end),
        ) by {
        law_range_of_write(entries, block_size, file, start, end);
    }
    entries
}

/// What merging buffered entries into the table of an index leaves of it.
proof fn lemma_merge(
    s: IndexState,
    entries: Seq<(Seq<u8>, Doc)>,
    t: Table,
    block_size: nat,
)
    requires
        keyed(s.names, entries),
        indexes(t, entry_docs(merged(entries)), s.names, block_size),
        docs_fit(
            entry_docs(merged(entries)),
            index_keys(s.names, entry_docs(merged(entries))),
        ),
    ensures
        table_entries_read(t) == Ok::<Seq<(Seq<u8>, Doc)>, TableFault>(merged(entries)),
        merged(merged(entries)) == merged(entries),
        merged(entries).len() == entries.len(),
        is_index_table(t, entry_docs(merged(entries)), s.names, block_size),
{
    let sorted = merged(entries);
    let docs = entry_docs(sorted);
    let keys = index_keys(s.names, docs);
    law_merged(entries);
    assert forall|i: int| 0 <= i < sorted.len() implies #[trigger] keys[i] == sorted[i].0 by {
        assert(entries.contains(sorted[i]));
    }
    assert(keys =~= entry_keys(sorted));
    assert(Seq::new(docs.len(), |i: int| (keys[i], docs[i])) =~= sorted);
    lemma_merged_sorted(sorted);
    assert(sorted_docs(docs, keys) == sorted);
    lemma_index_reads(t, docs, s.names, block_size);
    lemma_is_index_table(t, docs, s.names, block_size);
}

/// An index whose table was opened from a file.
proof fn lemma_index_table_data(t: Table, docs: Seq<Doc>, names: Seq<Seq<char>>, block_size: nat)
    requires
        is_index_table(t, docs, names, block_size),
    ensures
        parse_table(t.data) == Ok::<Table, TableFault>(t),
{
    lemma_is_index_table(t, docs, names, block_size);
    let file = choose|file: Seq<u8>| #[trigger]
        is_index_file(file, docs, names, block_size) && parse_table(file) == Ok::<
            Table,
            TableFault,
        >(t);
    law_reopen(file, t);
}

/// An index with nothing buffered lists what its table holds.
proof fn lemma_listing_of_table(s: IndexState, entries: Seq<(Seq<u8>, Doc)>)
    requires
        s.pending.len() == 0,
        table_entries_read(s.table) == Ok::<Seq<(Seq<u8>, Doc)>, TableFault>(entries),
    ensures
        index_listing(s) == Ok::<Seq<(Seq<u8>, Doc)>, TableFault>(listing(merged(entries))),
        index_size(s) == entries.len(),
{
    assert(entries + s.pending =~= entries);
}

/// What a merging compaction leaves of a sound index: it lists and counts the same entries,
/// in the same order, its fields and its range are the same, nothing is buffered any more, and
/// opening its file again gives an index that lists them too. It is sound again.
pub proof fn law_merge_keeps_listing(
    s: IndexState,
    tables: Seq<Table>,
    doc_count: nat,
    block_size: nat,
    t: IndexState,
    r: Result<(), SSTableError>,
)
    requires
        is_sound(s),
        compacted(s, tables, doc_count, block_size, false, t, r),
        r is Ok,
        s.pending.len() > 0 ==> (index_entries(s) matches Ok(entries) && docs_fit(
            entry_docs(merged(entries)),
            index_keys(s.names, entry_docs(merged(entries))),
        )),
    ensures
        index_listing(s) is Ok,
        index_listing(t) == index_listing(s),
        entry_total(t) == entry_total(s),
        t.names == s.names,
        t.range == s.range,
        t.path == s.path,
        t.pending.len() == 0,
        parse_table(t.table.data) == Ok::<Table, TableFault>(t.table),
        index_listing(fresh_index(t.names, t.range, t.table, t.path)) == index_listing(s),
        is_sound(t),
{
    let read = lemma_sound_reads(s);
    let reopened = fresh_index(t.names, t.range, t.table, t.path);
    if s.pending.len() > 0 {
        let entries = read + s.pending;
        let docs = entry_docs(merged(entries));
        lemma_merge(s, entries, t.table, block_size);
        lemma_listing_of_table(t, merged(entries));
        lemma_listing_of_table(reopened, merged(entries));
        lemma_index_table_data(t.table, docs, t.names, block_size);
        lemma_sound(t, docs, block_size);
    } else {
        let (docs, size) = choose|docs: Seq<Doc>, size: nat| #[trigger]
            is_index_table(s.table, docs, s.names, size);
        lemma_listing_of_table(s, read);
        lemma_listing_of_table(t, read);
        lemma_listing_of_table(reopened, read);
        lemma_index_table_data(t.table, docs, t.names, size);
        lemma_sound(t, docs, size);
    }
}

/// A compaction that rebuilds leaves an index that lists exactly the newest versions of the
/// documents of the primary tables that are not deleted and that its range admits, reduced to
/// the indexed fields and in the order of their keys. Nothing is buffered any more. Where the
/// rebuild pays, the range is the full one.
pub proof fn law_rebuild_lists_newest(
    s: IndexState,
    tables: Seq<Table>,
    doc_count: nat,
    block_size: nat,
    t: IndexState,
    r: Result<(), SSTableError>,
    docs: Seq<Doc>,
)
    requires
        compacted(s, tables, doc_count, block_size, true, t, r),
        r is Ok,
        index_docs(tables, rebuild_range(s, doc_count), s.names) == Ok::<Seq<Doc>, TableFault>(
            docs,
        ),
        docs_fit(docs, index_keys(s.names, docs)),
    ensures
        index_listing(t) == Ok::<Seq<(Seq<u8>, Doc)>, TableFault>(
            listing(sorted_docs(docs, index_keys(s.names, docs))),
        ),
        entry_total(t) == docs.len(),
        t.pending.len() == 0,
        t.names == s.names,
        t.range == rebuild_range(s, doc_count),
        rebuild_answer(entry_total(s), doc_count, true) ==> t.range is None,
        is_sound(t),
{
    let s1 = IndexState { cycles: s.cycles + 1, ..s };
    let entries = sorted_docs(docs, index_keys(s.names, docs));
    assert(rebuild_range(s1, doc_count) == rebuild_range(s, doc_count));
    lemma_index_reads(t.table, docs, s.names, block_size);
    law_entries_are_the_documents(docs, index_keys(s.names, docs));
    lemma_merged_sorted(entries);
    assert(entries + Seq::<(Seq<u8>, Doc)>::empty() =~= entries);
    if rebuild_answer(entry_total(s), doc_count, true) {
        law_rebuild_extends_range(s, doc_count);
    }
    assert(t.pending =~= seq![]);
    lemma_is_index_table(t.table, docs, t.names, block_size);
}

/// Whether a place parts entries in key order by a key: those before it have no greater key,
/// those from it on have a greater one.
spec fn parts(entries: Seq<(Seq<u8>, Doc)>, key: Seq<u8>, k: int) -> bool {
    &&& 0 <= k <= entries.len()
    &&& forall|i: int| 0 <= i < k ==> lex_le((#[trigger] entries[i]).0, key)
    &&& forall|i: int| k <= i < entries.len() ==> lex_lt(key, (#[trigger] entries[i]).0)
}

/// Entries in key order are parted by every key.
proof fn lemma_parts(entries: Seq<(Seq<u8>, Doc)>, key: Seq<u8>) -> (k: int)
    requires
        keys_sorted(entries),
    ensures
        parts(entries, key, k),
    decreases entries.len(),
{
    if entries.len() == 0 {
        0
    } else {
        let n = entries.len() - 1;
        let init = entries.drop_last();
        if lex_le(entries[n].0, key) {
            assert forall|i: int| 0 <= i < entries.len() implies lex_le(
                (#[trigger] entries[i]).0,
                key,
            ) by {
                assert(lex_le(entries[i].0, entries[n].0));
                lemma_lex_transitive(entries[i].0, entries[n].0, key);
            }
            n + 1
        } else {
            assert forall|i: int, j: int| 0 <= i <= j < init.len() implies lex_le(
                (#[trigger] init[i]).0,
                (#[trigger] init[j]).0,
            ) by {
                assert(init[i] == entries[i] && init[j] == entries[j]);
            }
            let k = lemma_parts(init, key);
            assert forall|i: int| 0 <= i < k implies lex_le((#[trigger] entries[i]).0, key) by {
                assert(init[i] == entries[i]);
            }
            assert forall|i: int| k <= i < entries.len() implies lex_lt(
                key,
                (#[trigger] entries[i]).0,
            ) by {
                if i < n {
                    assert(init[i] == entries[i]);
                }
            }
            k
        }
    }
}

/// The last entry goes behind those that have no greater key.
proof fn lemma_merged_push(entries: Seq<(Seq<u8>, Doc)>, e: (Seq<u8>, Doc), k: int)
    requires
        parts(merged(entries), e.0, k),
    ensures
        merged(entries.push(e)) == merged(entries).insert(k, e),
{
    let keys = entry_keys(entries);
    let more = entry_keys(entries.push(e));
    let n = entries.len() as int;
    let order = stable_order(keys);
    lemma_stable_order(keys);
    let next = order.insert(k, n);
    assert(more =~= keys.push(e.0));
    let sorted = merged(entries);
    assert forall|i: int| 0 <= i < next.len() implies 0 <= #[trigger] next[i] < more.len() by {
        if i < k {
            assert(next[i] == order[i]);
        } else if i > k {
            assert(next[i] == order[i - 1]);
        }
    }
    assert forall|m: int| 0 <= m < more.len() implies #[trigger] next.contains(m) by {
        if m == n {
            assert(next[k] == m);
        } else {
            assert(order.contains(m));
            let i = choose|i: int| 0 <= i < order.len() && order[i] == m;
            if i < k {
                assert(next[i] == m);
            } else {
                assert(next[i + 1] == m);
            }
        }
    }
    assert forall|i: int, j: int| 0 <= i < j < next.len() implies comes_before(
        more,
        #[trigger] next[i],
        #[trigger] next[j],
    ) by {
        let i0 = if i < k { i } else { i - 1 };
        let j0 = if j < k { j } else { j - 1 };
        if i != k && j != k {
            assert(comes_before(keys, order[i0], order[j0]));
        } else if j == k {
            assert(sorted[i] == entries[order[i]]);
            assert(lex_le(sorted[i].0, e.0));
            lemma_lex_total(sorted[i].0, e.0);
        } else {
            assert(sorted[j0] == entries[order[j0]]);
            assert(lex_lt(e.0, sorted[j0].0));
        }
    }
    assert(is_stable_order(more, next));
    lemma_stable_order(more);
    lemma_stable_order_unique(more, next, stable_order(more));
    assert(merged(entries.push(e)) =~= sorted.insert(k, e));
}

proof fn lemma_in_range_one(e: (Seq<u8>, Doc), start: Seq<u8>, end: Seq<u8>)
    ensures
        in_range(seq![e], start, end) == (if lex_le(start, e.0) && lex_le(e.0, end) {
            seq![e]
        } else {
            seq![]
        }),
{
    reveal_with_fuel(in_range, 2);
    assert(seq![e].drop_last() =~= seq![]);
    assert(seq![e].last() == e);
    assert(Seq::<(Seq<u8>, Doc)>::empty().push(e) =~= seq![e]);
}

/// What lies between two bounds after an entry was put at a place.
proof fn lemma_in_range_insert(
    entries: Seq<(Seq<u8>, Doc)>,
    e: (Seq<u8>, Doc),
    k: int,
    start: Seq<u8>,
    end: Seq<u8>,
)
    requires
        0 <= k <= entries.len(),
    ensures
        ({
            let head = in_range(entries.take(k), start, end);
            let tail = in_range(entries.skip(k), start, end);
            &&& in_range(entries, start, end) == head + tail
            &&& in_range(entries.insert(k, e), start, end) == (if lex_le(start, e.0) && lex_le(
                e.0,
                end,
            ) {
                (head + tail).insert(head.len() as int, e)
            } else {
                head + tail
            })
        }),
{
    let head = entries.take(k);
    let tail = entries.skip(k);
    let found_head = in_range(head, start, end);
    let found_tail = in_range(tail, start, end);
    let none = Seq::<(Seq<u8>, Doc)>::empty();
    assert(entries =~= head + tail);
    assert(entries.insert(k, e) =~= head + (seq![e] + tail));
    lemma_in_range_concat(head, tail, start, end);
    lemma_in_range_concat(head, seq![e] + tail, start, end);
    lemma_in_range_concat(seq![e], tail, start, end);
    lemma_in_range_one(e, start, end);
    assert((found_head + found_tail).insert(found_head.len() as int, e) =~= found_head + (seq![e]
        + found_tail));
    assert(found_head + (none + found_tail) =~= found_head + found_tail);
}

/// What lies between two bounds is parted where the entries are.
proof fn lemma_parts_in_range(
    entries: Seq<(Seq<u8>, Doc)>,
    key: Seq<u8>,
    k: int,
    start: Seq<u8>,
    end: Seq<u8>,
)
    requires
        parts(entries, key, k),
    ensures
        ({
            let head = in_range(entries.take(k), start, end);
            let tail = in_range(entries.skip(k), start, end);
            parts(head + tail, key, head.len() as int)
        }),
{
    let head = entries.take(k);
    let tail = entries.skip(k);
    let found_head = in_range(head, start, end);
    let found_tail = in_range(tail, start, end);
    let m = found_head.len() as int;
    let found = found_head + found_tail;
    lemma_in_range_entries(head, start, end);
    lemma_in_range_entries(tail, start, end);
    assert forall|i: int| 0 <= i < m implies lex_le((#[trigger] found[i]).0, key) by {
        assert(found[i] == found_head[i]);
        assert(head.contains(found_head[i]));
        let j = choose|j: int| 0 <= j < head.len() && head[j] == found_head[i];
        assert(head[j] == entries[j]);
    }
    assert forall|i: int| m <= i < found.len() implies lex_lt(key, (#[trigger] found[i]).0) by {
        assert(found[i] == found_tail[i - m]);
        assert(tail.contains(found_tail[i - m]));
        let j = choose|j: int| 0 <= j < tail.len() && tail[j] == found_tail[i - m];
        assert(tail[j] == entries[k + j]);
    }
}

/// Merging what lies between two bounds gives what lies between them in what is merged.
proof fn lemma_merged_in_range(entries: Seq<(Seq<u8>, Doc)>, start: Seq<u8>, end: Seq<u8>)
    ensures
        merged(in_range(entries, start, end)) == in_range(merged(entries), start, end),
    decreases entries.len(),
{
    if entries.len() == 0 {
        law_merged(entries);
        assert(merged(entries) =~= entries);
        assert(in_range(entries, start, end) =~= entries);
    } else {
        let init = entries.drop_last();
        let e = entries.last();
        let sorted = merged(init);
        lemma_merged_in_range(init, start, end);
        law_merged(init);
        let k = lemma_parts(sorted, e.0);
        lemma_merged_push(init, e, k);
        assert(init.push(e) =~= entries);
        lemma_in_range_insert(sorted, e, k, start, end);
        lemma_parts_in_range(sorted, e.0, k, start, end);
        if lex_le(start, e.0) && lex_le(e.0, end) {
            let m = in_range(sorted.take(k), start, end).len() as int;
            lemma_merged_push(in_range(init, start, end), e, m);
        }
    }
}

/// Whether the indexed value of a document lies between two values, both inclusive. A
/// document without the field comes after all values.
pub open spec fn is_between(
    d: Doc,
    name: Seq<char>,
    low: Option<Datum>,
    high: Option<Datum>,
) -> bool {
    let key = key_part(field_value(d, name));
    &&& low matches Some(v) ==> lex_le(comparable(v), key)
    &&& high matches Some(v) ==> lex_le(key, comparable(v))
}

/// The results whose indexed values lie between two values.
pub open spec fn results_between(
    listed: Seq<(Seq<u8>, Doc)>,
    name: Seq<char>,
    low: Option<Datum>,
    high: Option<Datum>,
) -> Seq<(Seq<u8>, Doc)>
    decreases listed.len(),
{
    if listed.len() == 0 {
        seq![]
    } else {
        let before = results_between(listed.drop_last(), name, low, high);
        if is_between(listed.last().1, name, low, high) {
            before.push(listed.last())
        } else {
            before
        }
    }
}

/// Every value has one of the type tags, and only the null value has the lowest.
proof fn lemma_type_tag(d: Datum)
    ensures
        comparable(d).len() > 0,
        comparable(d)[0] <= 8,
        comparable(d)[0] == 0 ==> comparable(d) == seq![0u8],
{
}

/// The keys of one field lie between the bounds of an open scan.
proof fn lemma_open_bounds(value: Option<Datum>)
    ensures
        lex_le(scan_start(None), key_part(value)),
        lex_le(key_part(value), scan_end(None)),
{
    let key = key_part(value);
    let low = scan_start(None);
    let top = scan_end(None);
    assert(low.len() == 1 && low[0] == 0);
    assert(top.len() == 32 && top[0] == 0xFF);
    lemma_lex_strict(key, key);
    if let Some(d) = value {
        lemma_type_tag(d);
        assert(!lex_lt(top, key));
        assert(key[0] > 0 ==> !lex_lt(key, low));
    } else {
        assert(key.len() == 1 && key[0] == 0xFF);
        assert(key.drop_first() =~= seq![]);
        assert(!lex_lt(top.drop_first(), key.drop_first()));
        assert(!lex_lt(top, key));
    }
}

proof fn lemma_listing_between(
    entries: Seq<(Seq<u8>, Doc)>,
    name: Seq<char>,
    low: Option<Datum>,
    high: Option<Datum>,
)
    requires
        keyed(seq![name], entries),
    ensures
        listing(in_range(entries, scan_start(low), scan_end(high))) == results_between(
            listing(entries),
            name,
            low,
            high,
        ),
    decreases entries.len(),
{
    let start = scan_start(low);
    let end = scan_end(high);
    if entries.len() == 0 {
        assert(listing(in_range(entries, start, end)) =~= seq![]);
        assert(listing(entries) =~= seq![]);
    } else {
        let init = entries.drop_last();
        let n = entries.len() - 1;
        let e = entries[n];
        assert forall|i: int| 0 <= i < init.len() implies (#[trigger] init[i]).0 == field_key(
            seq![name],
            init[i].1,
        ) by {
            assert(init[i] == entries[i]);
        }
        lemma_listing_between(init, name, low, high);
        assert(e.0 == field_key(seq![name], e.1));
        law_single_field_key(name, e.1);
        lemma_open_bounds(field_value(e.1, name));
        assert(listing(entries).drop_last() =~= listing(init));
        let before = in_range(init, start, end);
        assert(listing(before.push(e)) =~= listing(before).push((e.1.id, e.1)));
    }
}

proof fn lemma_all_between(listed: Seq<(Seq<u8>, Doc)>, name: Seq<char>)
    ensures
        results_between(listed, name, None, None) == listed,
    decreases listed.len(),
{
    if listed.len() > 0 {
        lemma_all_between(listed.drop_last(), name);
        assert(listed.drop_last().push(listed.last()) =~= listed);
    } else {
        assert(listed =~= seq![]);
    }
}

/// A scan of an index of one field gives exactly the listed entries whose values lie between
/// the two values, in the order of the listing, buffered entries as well as those of the
/// table. Without bounds it gives the whole listing.
pub proof fn law_scan_filters_listing(
    s: IndexState,
    name: Seq<char>,
    low: Option<Datum>,
    high: Option<Datum>,
)
    requires
        is_sound(s),
        s.names == seq![name],
    ensures
        index_listing(s) matches Ok(listed) && index_range(s, scan_start(low), scan_end(high))
            == Ok::<Seq<(Seq<u8>, Doc)>, TableFault>(results_between(listed, name, low, high)),
        index_range(s, scan_start(None), scan_end(None)) == index_listing(s),
{
    lemma_scan_filters_listing(s, name, low, high);
    lemma_scan_filters_listing(s, name, None, None);
    lemma_all_between(index_listing(s)->Ok_0, name);
}

/// A scan of an index of any fields gives exactly the entries whose keys lie between the bounds,
/// in the order of the listing, buffered entries as well as those of the table.
pub proof fn law_scan_gives_range(s: IndexState, start: Seq<u8>, end: Seq<u8>)
    requires
        is_sound(s),
    ensures
        index_entries(s) matches Ok(entries) && index_range(s, start, end) == Ok::<
            Seq<(Seq<u8>, Doc)>,
            TableFault,
        >(listing(in_range(merged(entries), start, end))),
{
    let read = lemma_sound_reads(s);
    assert(table_range(s.table, start, end) == Ok::<Seq<(Seq<u8>, Doc)>, TableFault>(
        in_range(read, start, end),
    ));
    lemma_in_range_concat(read, s.pending, start, end);
    lemma_merged_in_range(read + s.pending, start, end);
}

proof fn lemma_scan_filters_listing(
    s: IndexState,
    name: Seq<char>,
    low: Option<Datum>,
    high: Option<Datum>,
)
    requires
        is_sound(s),
        s.names == seq![name],
    ensures
        index_listing(s) matches Ok(listed) && index_range(s, scan_start(low), scan_end(high))
            == Ok::<Seq<(Seq<u8>, Doc)>, TableFault>(results_between(listed, name, low, high)),
{
    let read = lemma_sound_reads(s);
    let entries = read + s.pending;
    let sorted = merged(entries);
    law_scan_gives_range(s, scan_start(low), scan_end(high));
    law_merged(entries);
    assert forall|i: int| 0 <= i < sorted.len() implies (#[trigger] sorted[i]).0 == field_key(
        s.names,
        sorted[i].1,
    ) by {
        assert(entries.contains(sorted[i]));
    }
    lemma_listing_between(sorted, name, low, high);
}

/// A rebuild that pays always extends the index to its full range.
pub proof fn law_rebuild_extends_range(s: IndexState, doc_count: nat)
    requires
        rebuild_answer(entry_total(s), doc_count, true),
    ensures
        rebuild_range(s, doc_count) is None,
{
    law_rebuild_covers_half(entry_total(s), doc_count);
}

/// A table that was opened opens again from its content, as the same table.
pub proof fn law_reopen(data: Seq<u8>, t: Table)
    requires
        parse_table(data) == Ok::<Table, TableFault>(t),
    ensures
        parse_table(t.data) == Ok::<Table, TableFault>(t),
{
}

} // verus!
