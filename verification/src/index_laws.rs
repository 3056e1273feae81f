//! Laws of secondary indexes: which documents they hold, which queries they serve, and what
//! notifications, scans and compactions make of them.

use crate::blob_laws::law_projection_marks;
use crate::bytes::{lemma_lex_strict, lex_le, lex_lt};
use crate::document_id::DocumentId;
use crate::fields::lookup;
use crate::iblob::{
    deleted, field_value, law_projection, projection, tombstone_of, valid_doc, Doc, IBlob,
};
use crate::query::{holds, same_condition, value_order, Condition};
use crate::query_laws::{
    law_equal_filters_select_alike, law_filter_equality_is_identity,
    law_filter_equality_is_reflexive, law_only_named_fields_matter, names_float, names_nan,
};
use crate::secondary::{
    after_delete, after_put, all_docs, all_projections, compacted, drop_due, entry_docs,
    entry_total, fresh_index, index_docs, index_keys, index_listing, index_size,
    indexed, indexes, lemma_slot_of, listing, merged, newest, place, place_lt, places_rise,
    projections, reader_follows, rebuild_range, results_of, scan_end, scan_start, serves, slot_of,
    with_entry, writes_table, IndexState, SecondaryIndex,
};
use crate::secondary_laws::{
    is_between, is_current, law_fresh_index_lists_documents, law_newest_are_current,
    law_newest_version_wins, law_projection_keeps_key, results_between,
};
use crate::sort::law_sort_is_stable;
use crate::sstable::error::{SSTableError, TableFault};
use crate::sstable::format::Table;
use crate::sstable::keys::{comparable, field_key, key_part, law_types_do_not_collide, type_tag};
use crate::sstable::laws::docs_fit;
use crate::sstable::reader::{entries_of, entry_keys, table_entries_read};
use crate::sstable::writer::{docs_of, sorted_docs};
use crate::value::Datum;
use crate::value_laws::{law_encodings_order_as_values, law_types_are_ordered, orderable};
use std::cmp::Ordering;
use vstd::prelude::*;

verus! {

/// The documents of a partial index are the given documents, one for one and in their order,
/// reduced to the indexed fields. Each keeps its identity, its version and its deletion mark, is
/// marked as a partial view, has every indexed field with the value that it had, and no other
/// field. Its index key is that of the given document.
pub proof fn law_partial_index_documents(
    docs: Seq<Doc>,
    names: Seq<Seq<char>>,
    i: int,
    name: Seq<char>,
)
    requires
        0 <= i < docs.len(),
        valid_doc(docs[i]),
    ensures
        all_projections(docs, names).len() == docs.len(),
        all_projections(docs, names)[i].id == docs[i].id,
        all_projections(docs, names)[i].version == docs[i].version,
        all_projections(docs, names)[i].flags % 2 == docs[i].flags % 2,
        (all_projections(docs, names)[i].flags / 2) % 2 == 1,
        all_projections(docs, names)[i].fields == docs[i].fields.filter(
            |f: (Seq<char>, Datum)| names.contains(f.0),
        ),
        lookup(all_projections(docs, names)[i].fields, name) == (if names.contains(name) {
            lookup(docs[i].fields, name)
        } else {
            None
        }),
        names.contains(name) ==> field_value(all_projections(docs, names)[i], name) == field_value(
            docs[i],
            name,
        ),
        field_key(names, all_projections(docs, names)[i]) == field_key(names, docs[i]),
{
    law_projection(docs[i], names, name);
    law_projection_marks(docs[i], names);
    law_projection_keeps_key(docs[i], names);
}

/// A partial index lists every given document once, reduced to the indexed fields, in the order
/// of the index keys of the given documents. Its range is the one that it was built for.
pub proof fn law_partial_index_lists_documents(
    t: Table,
    docs: Seq<Doc>,
    names: Seq<Seq<char>>,
    range: Option<Condition>,
    path: Seq<char>,
    block_size: nat,
) -> (order: Seq<int>)
    requires
        forall|i: int| 0 <= i < docs.len() ==> valid_doc(#[trigger] docs[i]),
        indexes(t, all_projections(docs, names), names, block_size),
        docs_fit(
            all_projections(docs, names),
            index_keys(names, all_projections(docs, names)),
        ),
    ensures
        fresh_index(names, range, t, path).range == range,
        fresh_index(names, range, t, path).names == names,
        order.len() == docs.len(),
        order.no_duplicates(),
        forall|i: int| 0 <= i < order.len() ==> 0 <= #[trigger] order[i] < docs.len(),
        index_listing(fresh_index(names, range, t, path)) matches Ok(listed) && listed.len()
            == docs.len() && forall|i: int|
            0 <= i < order.len() ==> (#[trigger] listed[i]).0 == docs[order[i]].id
                && listed[i].1.id == docs[order[i]].id && listed[i].1.version
                == docs[order[i]].version && listed[i].1.fields == docs[order[i]].fields.filter(
                |f: (Seq<char>, Datum)| names.contains(f.0),
            ),
        forall|i: int, j: int|
            0 <= i < j < order.len() ==> lex_le(
                field_key(names, docs[#[trigger] order[i]]),
                field_key(names, docs[#[trigger] order[j]]),
            ),
{
    let entries = all_projections(docs, names);
    let keys = index_keys(names, entries);
    law_fresh_index_lists_documents(t, entries, names, range, path, block_size);
    let pairs = Seq::new(entries.len(), |i: int| (keys[i], entries[i]));
    let order = law_sort_is_stable(pairs, keys);
    assert(sorted_docs(entries, keys) == crate::sort::sorted_by_rank(pairs, keys));
    let listed = listing(sorted_docs(entries, keys));
    assert forall|i: int| 0 <= i < order.len() implies (#[trigger] listed[i]).0
        == docs[order[i]].id && listed[i].1.id == docs[order[i]].id && listed[i].1.version
        == docs[order[i]].version && listed[i].1.fields == docs[order[i]].fields.filter(
        |f: (Seq<char>, Datum)| names.contains(f.0),
    ) by {
        assert(sorted_docs(entries, keys)[i] == pairs[order[i]]);
        law_projection_marks(docs[order[i]], names);
    }
    assert forall|i: int, j: int| 0 <= i < j < order.len() implies lex_le(
        field_key(names, docs[#[trigger] order[i]]),
        field_key(names, docs[#[trigger] order[j]]),
    ) by {
        law_projection_keeps_key(docs[order[i]], names);
        law_projection_keeps_key(docs[order[j]], names);
        lemma_lex_strict(keys[order[i]], keys[order[j]]);
        lemma_lex_strict(keys[order[i]], keys[order[i]]);
    }
    order
}

proof fn lemma_indexed(d: Doc, range: Option<Condition>, get: spec_fn(Seq<char>) -> Option<Datum>)
    requires
        forall|name: Seq<char>| #[trigger] get(name) == field_value(d, name),
    ensures
        indexed(d, range) <==> !deleted(d) && (range matches Some(c) ==> holds(c, get)),
{
    if let Some(c) = range {
        law_only_named_fields_matter(c, get, |name: Seq<char>| field_value(d, name));
    }
}

proof fn lemma_projections(
    docs: Seq<Doc>,
    places: Seq<int>,
    range: Option<Condition>,
    names: Seq<Seq<char>>,
)
    requires
        forall|k: int, l: int|
            0 <= k < l < places.len() ==> lex_lt(
                docs[#[trigger] places[k]].id,
                docs[#[trigger] places[l]].id,
            ),
    ensures
        ({
            let out = projections(docs, places, range, names);
            &&& forall|k: int| 0 <= k < out.len() ==> #[trigger] projects(
                docs,
                places,
                range,
                names,
                out[k],
            )
            &&& forall|p: int|
                0 <= p < places.len() && indexed(docs[#[trigger] places[p]], range)
                    ==> out.contains(projection(docs[places[p]], names))
            &&& forall|k: int, l: int|
                0 <= k < l < out.len() ==> lex_lt((#[trigger] out[k]).id, (#[trigger] out[l]).id)
        }),
    decreases places.len(),
{
    if places.len() > 0 {
        let init = places.drop_last();
        let n = places.len() - 1;
        let d = docs[places[n]];
        assert forall|k: int, l: int| 0 <= k < l < init.len() implies lex_lt(
            docs[#[trigger] init[k]].id,
            docs[#[trigger] init[l]].id,
        ) by {
            assert(init[k] == places[k] && init[l] == places[l]);
        }
        lemma_projections(docs, init, range, names);
        let before = projections(docs, init, range, names);
        let out = projections(docs, places, range, names);
        assert forall|k: int| 0 <= k < out.len() implies #[trigger] projects(
            docs,
            places,
            range,
            names,
            out[k],
        ) by {
            if k < before.len() {
                assert(projects(docs, init, range, names, before[k]));
                let p = choose|p: int|
                    0 <= p < init.len() && indexed(docs[#[trigger] init[p]], range) && before[k]
                        == projection(docs[init[p]], names);
                assert(places[p] == init[p]);
            } else {
                assert(indexed(docs[places[n]], range));
            }
        }
        assert forall|p: int|
            0 <= p < places.len() && indexed(
                docs[#[trigger] places[p]],
                range,
            ) implies out.contains(projection(docs[places[p]], names)) by {
            if p < n {
                assert(init[p] == places[p]);
                let k = choose|k: int|
                    0 <= k < before.len() && before[k] == projection(docs[init[p]], names);
                assert(out[k] == before[k]);
            } else {
                assert(out[before.len() as int] == projection(d, names));
            }
        }
        assert forall|k: int, l: int| 0 <= k < l < out.len() implies lex_lt(
            (#[trigger] out[k]).id,
            (#[trigger] out[l]).id,
        ) by {
            assert(out[k] == before[k]);
            if l < before.len() {
                assert(out[l] == before[l]);
            } else {
                assert(projects(docs, init, range, names, before[k]));
                let p = choose|p: int|
                    0 <= p < init.len() && indexed(docs[#[trigger] init[p]], range) && before[k]
                        == projection(docs[init[p]], names);
                assert(places[p] == init[p]);
                assert(lex_lt(docs[places[p]].id, docs[places[n]].id));
            }
        }
    }
}

/// Whether a document is the projection of an indexed one at some positions.
spec fn projects(
    docs: Seq<Doc>,
    places: Seq<int>,
    range: Option<Condition>,
    names: Seq<Seq<char>>,
    e: Doc,
) -> bool {
    exists|p: int|
        0 <= p < places.len() && indexed(docs[#[trigger] places[p]], range) && e == projection(
            docs[places[p]],
            names,
        )
}

/// Whether a document of an index is what the index holds of a document: the same identity and
/// version, and the indexed fields.
pub open spec fn is_reduced(e: Doc, d: Doc, names: Seq<Seq<char>>) -> bool {
    &&& e.id == d.id
    &&& e.version == d.version
    &&& e.fields == d.fields.filter(|f: (Seq<char>, Datum)| names.contains(f.0))
    &&& (e.flags / 2) % 2 == 1
    &&& e.flags % 2 == d.flags % 2
}

/// Whether an index of a range should hold a document at a position: its newest version, which
/// is not deleted and which the range admits.
pub open spec fn belongs(docs: Seq<Doc>, m: int, range: Option<Condition>) -> bool {
    &&& is_current(docs, m)
    &&& docs[m].flags % 2 == 0
    &&& range matches Some(c) ==> holds(c, |name: Seq<char>| field_value(docs[m], name))
}

/// Whether a document of an index is what the index should hold of one of some documents.
pub open spec fn stems_from(
    docs: Seq<Doc>,
    range: Option<Condition>,
    names: Seq<Seq<char>>,
    e: Doc,
) -> bool {
    exists|m: int| #[trigger] belongs(docs, m, range) && is_reduced(e, docs[m], names)
}

/// Whether one of the documents of an index is what the index holds of a document.
pub open spec fn is_held(held: Seq<Doc>, d: Doc, names: Seq<Seq<char>>) -> bool {
    exists|k: int| 0 <= k < held.len() && is_reduced(#[trigger] held[k], d, names)
}

/// An index over some tables holds exactly the newest versions of their documents that are not
/// deleted and that its range admits, each once and reduced to the indexed fields.
pub proof fn law_index_holds_current_documents(
    tables: Seq<Table>,
    docs: Seq<Doc>,
    range: Option<Condition>,
    names: Seq<Seq<char>>,
    held: Seq<Doc>,
)
    requires
        all_docs(tables) == Ok::<Seq<Doc>, TableFault>(docs),
        forall|i: int| 0 <= i < docs.len() ==> valid_doc(#[trigger] docs[i]),
        index_docs(tables, range, names) == Ok::<Seq<Doc>, TableFault>(held),
    ensures
        forall|k: int|
            0 <= k < held.len() ==> stems_from(docs, range, names, #[trigger] held[k]),
        forall|m: int| #[trigger] belongs(docs, m, range) ==> is_held(held, docs[m], names),
        forall|k: int, l: int|
            0 <= k < l < held.len() ==> lex_lt((#[trigger] held[k]).id, (#[trigger] held[l]).id),
{
    let heads = newest(docs);
    law_newest_version_wins(docs);
    lemma_projections(docs, heads, range, names);
    assert forall|k: int| 0 <= k < held.len() implies stems_from(
        docs,
        range,
        names,
        #[trigger] held[k],
    ) by {
        assert(projects(docs, heads, range, names, held[k]));
        let p = choose|p: int|
            0 <= p < heads.len() && indexed(docs[#[trigger] heads[p]], range) && held[k]
                == projection(docs[heads[p]], names);
        let m = heads[p];
        law_newest_are_current(docs, m);
        assert(heads.contains(m));
        lemma_belongs(docs, m, range);
        lemma_reduced(docs[m], names);
        assert(belongs(docs, m, range) && is_reduced(held[k], docs[m], names));
    }
    assert forall|m: int| #[trigger] belongs(docs, m, range) implies is_held(
        held,
        docs[m],
        names,
    ) by {
        law_newest_are_current(docs, m);
        let p = choose|p: int| 0 <= p < heads.len() && heads[p] == m;
        lemma_belongs(docs, m, range);
        assert(indexed(docs[heads[p]], range));
        let k = choose|k: int| 0 <= k < held.len() && held[k] == projection(docs[m], names);
        lemma_reduced(docs[m], names);
        assert(is_reduced(held[k], docs[m], names));
    }
}

proof fn lemma_belongs(docs: Seq<Doc>, m: int, range: Option<Condition>)
    ensures
        belongs(docs, m, range) <==> is_current(docs, m) && indexed(docs[m], range),
{
    crate::blob_laws::law_flags(docs[m]);
    lemma_indexed(docs[m], range, |name: Seq<char>| field_value(docs[m], name));
}

proof fn lemma_reduced(d: Doc, names: Seq<Seq<char>>)
    ensures
        is_reduced(projection(d, names), d, names),
{
    law_projection_marks(d, names);
}

/// Whether a table can be read and holds a document.
pub open spec fn table_holds(t: Table, d: Doc) -> bool {
    table_entries_read(t) matches Ok(entries) && exists|e: int|
        0 <= e < entries.len() && (#[trigger] entries[e]).1 == d
}

proof fn lemma_entry_docs(before: Seq<Doc>, t: Table, d: Doc)
    requires
        table_entries_read(t) is Ok,
    ensures
        (before + entry_docs(table_entries_read(t)->Ok_0)).contains(d) <==> before.contains(d)
            || table_holds(t, d),
{
    let entries = table_entries_read(t)->Ok_0;
    let docs = before + entry_docs(entries);
    if docs.contains(d) {
        let i = choose|i: int| 0 <= i < docs.len() && docs[i] == d;
        if i < before.len() {
            assert(before[i] == d);
        } else {
            assert(entries[i - before.len()].1 == d);
        }
    }
    if before.contains(d) {
        let i = choose|i: int| 0 <= i < before.len() && before[i] == d;
        assert(docs[i] == d);
    }
    if table_holds(t, d) {
        let e = choose|e: int| 0 <= e < entries.len() && (#[trigger] entries[e]).1 == d;
        assert(docs[before.len() + e] == d);
    }
}

/// Whether a table can be read.
#[verifier::opaque]
spec fn is_readable(t: Table) -> bool {
    table_entries_read(t) is Ok
}

/// Whether a table holds a document.
#[verifier::opaque]
spec fn has_doc(t: Table, d: Doc) -> bool {
    table_holds(t, d)
}

proof fn lemma_all_docs_step(tables: Seq<Table>, d: Doc)
    requires
        tables.len() > 0,
    ensures
        all_docs(tables) is Ok <==> all_docs(tables.drop_last()) is Ok && is_readable(
            tables.last(),
        ),
        all_docs(tables) is Ok ==> (all_docs(tables)->Ok_0.contains(d) <==> all_docs(
            tables.drop_last(),
        )->Ok_0.contains(d) || has_doc(tables.last(), d)),
{
    reveal(is_readable);
    reveal(has_doc);
    if all_docs(tables) is Ok {
        lemma_entry_docs(all_docs(tables.drop_last())->Ok_0, tables.last(), d);
    }
}

proof fn lemma_all_docs(tables: Seq<Table>, d: Doc)
    ensures
        all_docs(tables) is Ok <==> forall|t: int|
            0 <= t < tables.len() ==> is_readable(#[trigger] tables[t]),
        all_docs(tables) is Ok ==> (all_docs(tables)->Ok_0.contains(d) <==> exists|t: int|
            0 <= t < tables.len() && has_doc(#[trigger] tables[t], d)),
    decreases tables.len(),
{
    if tables.len() > 0 {
        let init = tables.drop_last();
        let n = tables.len() - 1;
        lemma_all_docs(init, d);
        lemma_all_docs_step(tables, d);
        assert forall|t: int| 0 <= t < n implies #[trigger] tables[t] == init[t] by {}
        if all_docs(init) is Ok {
            if exists|t: int| 0 <= t < init.len() && has_doc(#[trigger] init[t], d) {
                let t = choose|t: int| 0 <= t < init.len() && has_doc(#[trigger] init[t], d);
                assert(has_doc(tables[t], d));
            }
            if has_doc(tables.last(), d) {
                assert(has_doc(tables[n], d));
            }
        } else {
            let t = choose|t: int| 0 <= t < init.len() && !is_readable(#[trigger] init[t]);
            assert(!is_readable(tables[t]));
        }
    }
}

/// The documents of some tables are those of each table, and of no other. They cannot be read
/// exactly where one of the tables cannot.
pub proof fn law_all_tables_are_read(tables: Seq<Table>, d: Doc)
    ensures
        all_docs(tables) is Ok <==> forall|t: int|
            0 <= t < tables.len() ==> table_entries_read(#[trigger] tables[t]) is Ok,
        all_docs(tables) matches Ok(docs) ==> (docs.contains(d) <==> exists|t: int|
            0 <= t < tables.len() && table_holds(#[trigger] tables[t], d)),
{
    lemma_all_docs(tables, d);
    reveal(is_readable);
    reveal(has_doc);
}

/// An index that serves a query is sorted as the query asks, and its range admits every
/// document that the query's filter admits.
pub proof fn law_serving_index_holds_results(
    s: IndexState,
    sort_fields: Seq<Seq<char>>,
    filter: Option<Condition>,
    d: Doc,
)
    requires
        serves(s, sort_fields, filter),
        filter matches Some(c) ==> holds(c, |name: Seq<char>| field_value(d, name)),
    ensures
        s.names == sort_fields,
        s.range matches Some(c) ==> holds(c, |name: Seq<char>| field_value(d, name)),
{
    if let (Some(range), Some(c)) = (s.range, filter) {
        law_equal_filters_select_alike(range, c, |name: Seq<char>| field_value(d, name));
    }
}

/// An index of the full range serves every query with its sort fields. One of a partial range
/// serves, with its sort fields, the query whose filter is its range, and no query without a
/// filter or with another one.
pub proof fn law_index_serves_its_queries(
    s: IndexState,
    sort_fields: Seq<Seq<char>>,
    filter: Option<Condition>,
    c: Condition,
    f: Condition,
)
    ensures
        s.names != sort_fields ==> !serves(s, sort_fields, filter),
        s.range is None && s.names == sort_fields ==> serves(s, sort_fields, filter),
        s.range is Some && filter is None ==> !serves(s, sort_fields, filter),
        s.range == Some(c) && !names_nan(c) ==> serves(s, s.names, s.range),
        s.range == Some(c) && !names_float(c) ==> (serves(s, s.names, filter) <==> filter
            == s.range),
        s.range == Some(c) && filter == Some(f) && s.names == sort_fields ==> (serves(
            s,
            sort_fields,
            filter,
        ) <==> same_condition(c, f)),
{
    law_filter_equality_is_reflexive(c);
    if let Some(other) = filter {
        if !names_float(c) {
            law_filter_equality_is_identity(c, other);
        }
    }
}

/// Entering a document under a key leaves every other entry in the buffer: those of other
/// documents and those under other keys. Only the entry of the same document under the same key
/// gives way, and nothing else comes in.
pub proof fn law_entering_keeps_other_entries(
    entries: Seq<(Seq<u8>, Doc)>,
    key: Seq<u8>,
    d: Doc,
)
    requires
        places_rise(entries),
    ensures
        forall|e: (Seq<u8>, Doc)| #[trigger]
            with_entry(entries, key, d).contains(e) <==> e == (key, d) || (entries.contains(e)
                && !(e.0 == key && e.1.id == d.id)),
{
    let at = (key, d.id);
    let slot = slot_of(entries, at);
    let after = with_entry(entries, key, d);
    lemma_slot_of(entries, at);
    let replaced = slot < entries.len() && place(entries[slot]) == at;
    assert(after[slot] == (key, d));
    lemma_lex_strict(key, key);
    lemma_lex_strict(d.id, d.id);
    assert forall|i: int| 0 <= i < entries.len() implies (place(#[trigger] entries[i]) == at
        <==> replaced && i == slot) by {
        if place(entries[i]) == at {
            if i > slot {
                assert(place_lt(place(entries[slot]), place(entries[i])));
            }
        }
    }
    assert forall|e: (Seq<u8>, Doc)| #[trigger]
        after.contains(e) <==> e == (key, d) || (entries.contains(e) && !(e.0 == key && e.1.id
            == d.id)) by {
        if after.contains(e) {
            let i = choose|i: int| 0 <= i < after.len() && after[i] == e;
            if i != slot {
                let k = if replaced || i < slot { i } else { i - 1 };
                assert(e == entries[k]);
                assert(place(entries[k]) != at);
            }
        }
        if entries.contains(e) && !(e.0 == key && e.1.id == d.id) {
            let i = choose|i: int| 0 <= i < entries.len() && entries[i] == e;
            assert(place(entries[i]) != at);
            assert(after[if replaced || i < slot { i } else { i + 1 }] == e);
        }
    }
}

/// A document that was put is buffered under its index key, reduced to the indexed fields, where
/// it has all of them, and is passed over where it lacks one. Every other buffered entry stays,
/// and so does everything else of the index.
pub proof fn law_put_buffers_document(s: IndexState, d: Doc)
    requires
        places_rise(s.pending),
    ensures
        after_put(s, d).names == s.names,
        after_put(s, d).range == s.range,
        after_put(s, d).table == s.table,
        after_put(s, d).path == s.path,
        after_put(s, d).cycles == s.cycles,
        (exists|i: int| 0 <= i < s.names.len() && field_value(d, #[trigger] s.names[i]) is None)
            ==> after_put(s, d).pending == s.pending,
        (forall|i: int| 0 <= i < s.names.len() ==> field_value(d, #[trigger] s.names[i]) is Some)
            ==> forall|e: (Seq<u8>, Doc)| #[trigger]
            after_put(s, d).pending.contains(e) <==> e == (
                field_key(s.names, d),
                projection(d, s.names),
            ) || (s.pending.contains(e) && !(e.0 == field_key(s.names, d) && e.1.id == d.id)),
{
    law_entering_keeps_other_entries(
        s.pending,
        field_key(s.names, d),
        projection(d, s.names),
    );
}

/// A deletion is buffered as a tombstone, which has the index key of a document without fields.
/// Every other buffered entry stays, also those of the document itself, and so does everything
/// else of the index.
pub proof fn law_delete_buffers_tombstone(s: IndexState, id: Seq<u8>)
    requires
        places_rise(s.pending),
    ensures
        after_delete(s, id).names == s.names,
        after_delete(s, id).range == s.range,
        after_delete(s, id).table == s.table,
        after_delete(s, id).path == s.path,
        after_delete(s, id).cycles == s.cycles,
        forall|e: (Seq<u8>, Doc)| #[trigger]
            after_delete(s, id).pending.contains(e) <==> e == (
                field_key(s.names, tombstone_of(id)),
                tombstone_of(id),
            ) || (s.pending.contains(e) && !(e.0 == field_key(s.names, tombstone_of(id)) && e.1.id
                == id)),
{
    law_entering_keeps_other_entries(
        s.pending,
        field_key(s.names, tombstone_of(id)),
        tombstone_of(id),
    );
}

/// The index key of no fields is empty, and each further field adds its part: the comparable
/// encoding of its value, or the byte that sorts last where the document lacks it.
pub proof fn law_key_is_its_parts(names: Seq<Seq<char>>, name: Seq<char>, d: Doc, value: Datum)
    ensures
        field_key(Seq::empty(), d) == Seq::<u8>::empty(),
        field_value(d, name) == Some(value) ==> field_key(names.push(name), d) == field_key(
            names,
            d,
        ) + comparable(value),
        field_value(d, name) is None ==> field_key(names.push(name), d) == field_key(names, d)
            + seq![0xFFu8],
{
    assert(names.push(name).drop_last() =~= names);
}

/// A listing gives every entry of the table and of the buffer once, each document with its
/// identity, in the order of the keys. Where keys are equal the entries of the table come first,
/// and each of the two in its own order.
pub proof fn law_listing_is_ordered(s: IndexState) -> (order: Seq<int>)
    requires
        table_entries_read(s.table) is Ok,
    ensures
        ({
            let all = table_entries_read(s.table)->Ok_0 + s.pending;
            &&& order.len() == all.len()
            &&& order.no_duplicates()
            &&& forall|i: int| 0 <= i < order.len() ==> 0 <= #[trigger] order[i] < all.len()
            &&& index_listing(s) matches Ok(listed) && listed.len() == all.len() && forall|i: int|
                0 <= i < order.len() ==> #[trigger] listed[i] == (
                    all[order[i]].1.id,
                    all[order[i]].1,
                )
            &&& forall|i: int, j: int|
                0 <= i < j < order.len() ==> lex_lt(
                    all[#[trigger] order[i]].0,
                    all[#[trigger] order[j]].0,
                ) || (all[order[i]].0 == all[order[j]].0 && order[i] < order[j])
        }),
{
    let all = table_entries_read(s.table)->Ok_0 + s.pending;
    let keys = entry_keys(all);
    let order = law_sort_is_stable(all, keys);
    assert(merged(all) == crate::sort::sorted_by_rank(all, keys));
    let listed = listing(merged(all));
    assert forall|i: int| 0 <= i < order.len() implies #[trigger] listed[i] == (
        all[order[i]].1.id,
        all[order[i]].1,
    ) by {
        assert(merged(all)[i] == all[order[i]]);
    }
    order
}

/// The number of entries of an index is the length of its listing, as far as 64 bits hold it.
/// Where the table cannot be read the buffered entries count.
pub proof fn law_count_is_length_of_listing(s: IndexState)
    ensures
        index_listing(s) matches Ok(listed) ==> entry_total(s) == (if listed.len() <= u64::MAX {
            listed.len() as int
        } else {
            u64::MAX as int
        }),
        index_listing(s) is Err && s.pending.len() <= u64::MAX ==> entry_total(s)
            == s.pending.len(),
{
    if let Ok(read) = table_entries_read(s.table) {
        crate::secondary_laws::law_merged(read + s.pending);
    }
}

/// Results between two values are the listed ones that are, in their order.
pub proof fn law_results_are_selected(
    listed: Seq<(Seq<u8>, Doc)>,
    name: Seq<char>,
    low: Option<Datum>,
    high: Option<Datum>,
)
    ensures
        results_between(listed, name, low, high) == listed.filter(
            |e: (Seq<u8>, Doc)| is_between(e.1, name, low, high),
        ),
    decreases listed.len(),
{
    reveal(Seq::filter);
    if listed.len() > 0 {
        law_results_are_selected(listed.drop_last(), name, low, high);
    }
}

/// A document lies between two values where its own is neither less than the lower nor greater
/// than the upper, both bounds included. Values of other types lie before or after all values of
/// a type. A document without the field lies after every value.
pub proof fn law_between_compares_values(
    d: Doc,
    name: Seq<char>,
    v: Datum,
    low: Datum,
    high: Datum,
)
    ensures
        field_value(d, name) == Some(v) && orderable(v, low) ==> (is_between(
            d,
            name,
            Some(low),
            None,
        ) <==> value_order(v, low) != Some(Ordering::Less)),
        field_value(d, name) == Some(v) && orderable(v, high) ==> (is_between(
            d,
            name,
            None,
            Some(high),
        ) <==> value_order(v, high) != Some(Ordering::Greater)),
        field_value(d, name) == Some(v) && type_tag(v) != type_tag(low) ==> (is_between(
            d,
            name,
            Some(low),
            None,
        ) <==> type_tag(low) < type_tag(v)),
        field_value(d, name) == Some(v) && type_tag(v) != type_tag(high) ==> (is_between(
            d,
            name,
            None,
            Some(high),
        ) <==> type_tag(v) < type_tag(high)),
        is_between(d, name, Some(low), Some(high)) <==> is_between(d, name, Some(low), None)
            && is_between(d, name, None, Some(high)),
        is_between(d, name, None, None),
        field_value(d, name) is None ==> is_between(d, name, Some(low), None) && !is_between(
            d,
            name,
            None,
            Some(high),
        ),
{
    if field_value(d, name) == Some(v) {
        if orderable(v, low) {
            law_encodings_order_as_values(v, low);
        }
        if orderable(v, high) {
            law_encodings_order_as_values(v, high);
        }
        if type_tag(v) != type_tag(low) {
            law_types_do_not_collide(v, low);
            law_types_do_not_collide(low, v);
        }
        if type_tag(v) != type_tag(high) {
            law_types_do_not_collide(v, high);
            law_types_do_not_collide(high, v);
        }
    } else if field_value(d, name) is None {
        law_types_are_ordered(low);
        law_types_are_ordered(high);
        assert(key_part(None) =~= seq![0xFFu8]);
        assert(lex_lt(comparable(low), seq![0xFFu8]));
        assert(lex_lt(comparable(high), seq![0xFFu8]));
        lemma_lex_strict(comparable(low), seq![0xFFu8]);
    }
}

/// An index is dropped only where it went unused both for ten compaction cycles and for thirty
/// days, and always where it did.
pub proof fn law_drop_needs_cycles_and_time(cycles: nat, nanos: nat)
    ensures
        drop_due(cycles, nanos) <==> cycles >= 10 && nanos >= 30 * 24 * 3600 * 1_000_000_000,
{
}

/// A rebuild covers all documents where the index covered them before or has entries for at
/// least half of them, and otherwise keeps the range that it had.
pub proof fn law_rebuild_range(s: IndexState, doc_count: nat)
    ensures
        s.range is None ==> rebuild_range(s, doc_count) is None,
        2 * index_size(s) >= doc_count ==> rebuild_range(s, doc_count) is None,
        2 * index_size(s) < doc_count ==> rebuild_range(s, doc_count) == s.range,
{
}

/// A compaction counts one more cycle and keeps the fields and the path of the index, whatever
/// becomes of it. A rebuild that fails leaves the table, the range and the buffered entries, and
/// a merge that fails leaves the table. Only a rebuild changes the range.
pub proof fn law_compaction_keeps_identity(
    s: IndexState,
    tables: Seq<Table>,
    doc_count: nat,
    block_size: nat,
    rebuild: bool,
    t: IndexState,
    r: Result<(), SSTableError>,
)
    requires
        compacted(s, tables, doc_count, block_size, rebuild, t, r),
    ensures
        t.cycles == s.cycles + 1,
        t.names == s.names,
        t.path == s.path,
        !rebuild ==> t.range == s.range,
        t.range == s.range || t.range is None,
        r is Err ==> t.table == s.table && t.range == s.range,
        r is Err && rebuild ==> t.pending == s.pending,
        t.pending.len() == 0 || t.pending == s.pending,
{
}

/// What an index stands for: its fields, its range, its table, its path, the buffered entries
/// and the cycles since it was used.
pub proof fn law_index_views(index: SecondaryIndex)
    ensures
        index@.names == Seq::new(index.fields@.len(), |i: int| index.fields@[i]@),
        index.range matches Some(filter) ==> index@.range == Some(filter@),
        index.range is None ==> index@.range is None,
        index@.table == index.reader@,
        index@.path == index.path@,
        index@.pending == index.buffer@,
        index@.cycles == index.compactions_since_use,
{
    assert(index@.names =~= Seq::new(index.fields@.len(), |i: int| index.fields@[i]@));
}

/// What blobs, results and entries stand for: each the document that it holds, with its identity
/// or its key.
pub proof fn law_result_views(
    blobs: Seq<IBlob>,
    results: Seq<(DocumentId, IBlob)>,
    entries: Seq<(Vec<u8>, IBlob)>,
)
    ensures
        docs_of(blobs) == Seq::new(blobs.len(), |i: int| blobs[i]@),
        results_of(results) == Seq::new(results.len(), |i: int| (results[i].0@, results[i].1@)),
        entries_of(entries) == Seq::new(entries.len(), |i: int| (entries[i].0@, entries[i].1@)),
{
    assert(docs_of(blobs) =~= Seq::new(blobs.len(), |i: int| blobs[i]@));
    assert(results_of(results) =~= Seq::new(
        results.len(),
        |i: int| (results[i].0@, results[i].1@),
    ));
    assert(entries_of(entries) =~= Seq::new(
        entries.len(),
        |i: int| (entries[i].0@, entries[i].1@),
    ));
}

/// A fresh index has the fields, the range, the table and the path that it is given, nothing
/// buffered and no cycle behind it.
pub proof fn law_fresh_index(
    names: Seq<Seq<char>>,
    range: Option<Condition>,
    table: Table,
    path: Seq<char>,
)
    ensures
        fresh_index(names, range, table, path).names == names,
        fresh_index(names, range, table, path).range == range,
        fresh_index(names, range, table, path).table == table,
        fresh_index(names, range, table, path).path == path,
        fresh_index(names, range, table, path).pending.len() == 0,
        fresh_index(names, range, table, path).cycles == 0,
{
}

/// A compaction that writes a table leaves a reader at the path of the index, and any other the
/// reader that it had. A rebuild writes where it finds documents, a merge where entries are
/// buffered.
pub proof fn law_reader_follows_table(
    before: SecondaryIndex,
    after: SecondaryIndex,
    written: bool,
    tables: Seq<Table>,
    doc_count: nat,
)
    requires
        reader_follows(before, after, written),
    ensures
        written ==> after.reader.path_text() == before.path@,
        !written ==> after.reader == before.reader,
        writes_table(before@, tables, doc_count, false) <==> before@.pending.len() > 0,
        writes_table(before@, tables, doc_count, true) <==> (index_docs(
            tables,
            rebuild_range(before@, doc_count),
            before@.names,
        ) matches Ok(docs) && docs.len() > 0),
{
}

/// A scan begins at the encoding of its first value and ends at that of its last, both included.
/// Without a first value it begins before every key, and without a last it ends after every key
/// that begins with the number of a type.
pub proof fn law_scan_bounds(value: Datum)
    ensures
        scan_start(Some(value)) == comparable(value),
        scan_end(Some(value)) == comparable(value),
        lex_le(scan_start(None), comparable(value)),
        lex_lt(comparable(value), scan_end(None)),
        scan_start(None) == seq![0u8],
        scan_end(None) == Seq::new(32, |i: int| 0xFFu8),
{
    law_types_are_ordered(value);
    law_types_are_ordered(Datum::Null);
    assert(scan_end(None) =~= Seq::new(32, |i: int| 0xFFu8));
    if type_tag(value) != 0 {
        law_types_do_not_collide(value, Datum::Null);
        assert(comparable(Datum::Null) =~= seq![0u8]);
    } else {
        assert(comparable(value) =~= seq![0u8]);
        lemma_lex_strict(seq![0u8], seq![0u8]);
    }
}

} // verus!
