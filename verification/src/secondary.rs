//! Secondary indexes: tables sorted by field values.

use crate::bytes::{
    bytes_eq, bytes_lt, lemma_lex_strict, lemma_lex_total, lemma_lex_transitive, lex_lt, put_slice,
};
use crate::clock::{is_reading, is_time_since, read_clock, time_since};
use crate::compression::may_overflow;
use crate::document_id::DocumentId;
use crate::fields::{copy_names, same_names, texts};
use crate::iblob::{deleted, field_value, projection, tombstone_of, Doc, IBlob};
use crate::query::{holds, reads, same_condition, Condition, Filter};
use crate::rebuild::{rebuild_answer, should_full_rebuild};
use crate::sort::{
    is_stable_order, positions, ranks, sort_order, sorted_by_rank, stable_order, SortKey,
};
use crate::sstable::error::{SSTableError, TableFault};
use crate::sstable::format::{block_data, grouped, is_table_of, parse_table, Table};
use crate::sstable::keys::{
    comparable, encode_comparable_value, field_key, FieldKeyExtractor, KeyExtractor,
};
use crate::sstable::laws::in_range;
use crate::sstable::reader::{
    entries_of, entry_keys, table_entries_read, table_range, SSTableReader,
};
use crate::sstable::writer::{docs_of, keys_of, table_entries, SSTableWriter};
use crate::value::{Datum, Value};
use std::time::Instant;
use vstd::prelude::*;

verus! {

/// Where an entry of a buffer stands: its key, and the identity of its document.
pub open spec fn place(e: (Seq<u8>, Doc)) -> (Seq<u8>, Seq<u8>) {
    (e.0, e.1.id)
}

/// The order of places: by key, then by identity.
pub open spec fn place_lt(a: (Seq<u8>, Seq<u8>), b: (Seq<u8>, Seq<u8>)) -> bool {
    lex_lt(a.0, b.0) || (a.0 == b.0 && lex_lt(a.1, b.1))
}

/// Whether the places of entries rise strictly.
pub open spec fn places_rise(entries: Seq<(Seq<u8>, Doc)>) -> bool {
    forall|i: int, j: int|
        0 <= i < j < entries.len() ==> place_lt(
            place(#[trigger] entries[i]),
            place(#[trigger] entries[j]),
        )
}

/// How many entries stand before a place.
pub open spec fn slot_of(entries: Seq<(Seq<u8>, Doc)>, at: (Seq<u8>, Seq<u8>)) -> int
    decreases entries.len(),
{
    if entries.len() == 0 {
        0
    } else if place_lt(place(entries.last()), at) {
        entries.len() as int
    } else {
        slot_of(entries.drop_last(), at)
    }
}

/// Entries after a document was entered under a key: beside the entries of other documents
/// under that key, and in place of an entry of the same document.
pub open spec fn with_entry(
    entries: Seq<(Seq<u8>, Doc)>,
    key: Seq<u8>,
    d: Doc,
) -> Seq<(Seq<u8>, Doc)> {
    let slot = slot_of(entries, (key, d.id));
    if slot < entries.len() && place(entries[slot]) == (key, d.id) {
        entries.update(slot, (key, d))
    } else {
        entries.insert(slot, (key, d))
    }
}

/// The document that was entered under a key and has an identity.
pub open spec fn entry_at(entries: Seq<(Seq<u8>, Doc)>, at: (Seq<u8>, Seq<u8>)) -> Option<Doc> {
    let slot = slot_of(entries, at);
    if slot < entries.len() && place(entries[slot]) == at {
        Some(entries[slot].1)
    } else {
        None
    }
}

proof fn lemma_place_order(
    a: (Seq<u8>, Seq<u8>),
    b: (Seq<u8>, Seq<u8>),
    c: (Seq<u8>, Seq<u8>),
)
    ensures
        !place_lt(a, a),
        place_lt(a, b) ==> !place_lt(b, a),
        place_lt(a, b) || place_lt(b, a) || a == b,
        place_lt(a, b) && place_lt(b, c) ==> place_lt(a, c),
{
    lemma_lex_strict(a.0, b.0);
    lemma_lex_strict(a.1, b.1);
    lemma_lex_total(a.0, b.0);
    lemma_lex_total(a.1, b.1);
    lemma_lex_transitive(a.0, b.0, c.0);
    lemma_lex_transitive(a.1, b.1, c.1);
}

/// The slot of a place parts the entries before it from the others.
pub proof fn lemma_slot_of(entries: Seq<(Seq<u8>, Doc)>, at: (Seq<u8>, Seq<u8>))
    requires
        places_rise(entries),
    ensures
        0 <= slot_of(entries, at) <= entries.len(),
        forall|i: int|
            0 <= i < slot_of(entries, at) ==> place_lt(place(#[trigger] entries[i]), at),
        forall|i: int|
            slot_of(entries, at) <= i < entries.len() ==> !place_lt(
                place(#[trigger] entries[i]),
                at,
            ),
    decreases entries.len(),
{
    if entries.len() > 0 {
        let init = entries.drop_last();
        let last = place(entries.last());
        assert forall|i: int, j: int| 0 <= i < j < init.len() implies place_lt(
            place(#[trigger] init[i]),
            place(#[trigger] init[j]),
        ) by {
            assert(init[i] == entries[i] && init[j] == entries[j]);
        }
        lemma_slot_of(init, at);
        if place_lt(last, at) {
            assert forall|i: int| 0 <= i < entries.len() implies place_lt(
                place(#[trigger] entries[i]),
                at,
            ) by {
                if i < init.len() {
                    lemma_place_order(place(entries[i]), place(entries[entries.len() - 1]), at);
                }
            }
        } else {
            assert forall|i: int|
                slot_of(entries, at) <= i < entries.len() implies !place_lt(
                place(#[trigger] entries[i]),
                at,
            ) by {
                if i < init.len() {
                    assert(init[i] == entries[i]);
                }
            }
            assert forall|i: int| 0 <= i < slot_of(entries, at) implies place_lt(
                place(#[trigger] entries[i]),
                at,
            ) by {
                assert(init[i] == entries[i]);
            }
        }
    }
}

/// A slot that parts the entries before a place from the others is the slot of the place.
proof fn lemma_slot_is(entries: Seq<(Seq<u8>, Doc)>, at: (Seq<u8>, Seq<u8>), slot: int)
    requires
        places_rise(entries),
        0 <= slot <= entries.len(),
        forall|i: int| 0 <= i < slot ==> place_lt(place(#[trigger] entries[i]), at),
        slot < entries.len() ==> !place_lt(place(entries[slot]), at),
    ensures
        slot == slot_of(entries, at),
{
    lemma_slot_of(entries, at);
    let k = slot_of(entries, at);
    if slot < k {
        assert(place_lt(place(entries[slot]), at));
    } else if k < slot {
        assert(place_lt(place(entries[k]), at));
    }
}

proof fn lemma_with_entry(entries: Seq<(Seq<u8>, Doc)>, key: Seq<u8>, d: Doc)
    requires
        places_rise(entries),
    ensures
        places_rise(with_entry(entries, key, d)),
{
    let at = (key, d.id);
    lemma_slot_of(entries, at);
    let slot = slot_of(entries, at);
    let after = with_entry(entries, key, d);
    if slot < entries.len() {
        lemma_place_order(place(entries[slot]), at, at);
    }
    assert forall|i: int, j: int| 0 <= i < j < after.len() implies place_lt(
        place(#[trigger] after[i]),
        place(#[trigger] after[j]),
    ) by {
        if after.len() == entries.len() {
            assert(place_lt(place(entries[i]), place(entries[j])));
        } else {
            let i0 = if i < slot { i } else { i - 1 };
            let j0 = if j < slot { j } else { j - 1 };
            if i != slot && j != slot {
                assert(place_lt(place(entries[i0]), place(entries[j0])));
            } else if j == slot {
                assert(place_lt(place(entries[i]), at));
            } else {
                assert(place_lt(at, place(entries[slot])));
                if slot < j0 {
                    lemma_place_order(at, place(entries[slot]), place(entries[j0]));
                }
            }
        }
    }
}

/// Entering a document under a key sets that entry and no other: entries of other documents
/// stay, also those under the same key. One entry is added where the document had none there.
pub proof fn law_buffer_set(
    entries: Seq<(Seq<u8>, Doc)>,
    key: Seq<u8>,
    d: Doc,
    other: (Seq<u8>, Seq<u8>),
)
    requires
        places_rise(entries),
    ensures
        places_rise(with_entry(entries, key, d)),
        entry_at(with_entry(entries, key, d), other) == (if other == (key, d.id) {
            Some(d)
        } else {
            entry_at(entries, other)
        }),
        with_entry(entries, key, d).len() == entries.len() + (if entry_at(
            entries,
            (key, d.id),
        ) is None {
            1int
        } else {
            0
        }),
{
    let at = (key, d.id);
    let after = with_entry(entries, key, d);
    let slot = slot_of(entries, at);
    lemma_with_entry(entries, key, d);
    lemma_slot_of(entries, at);
    lemma_slot_of(entries, other);
    lemma_slot_of(after, other);
    lemma_place_order(at, other, at);
    lemma_place_order(other, at, other);
    let s = slot_of(entries, other);
    if other == at {
        assert(after[slot] == (key, d));
        lemma_slot_is(after, at, slot);
    } else if after.len() == entries.len() {
        assert forall|i: int| 0 <= i < s implies place_lt(
            place(#[trigger] after[i]),
            other,
        ) by {
            assert(place_lt(place(entries[i]), other));
        }
        if s < entries.len() {
            assert(!place_lt(place(entries[s]), other));
        }
        lemma_slot_is(after, other, s);
    } else if place_lt(at, other) {
        assert(s >= slot) by {
            if s < slot {
                assert(place_lt(place(entries[s]), at));
                lemma_place_order(place(entries[s]), at, other);
            }
        }
        assert forall|i: int| 0 <= i < s + 1 implies place_lt(
            place(#[trigger] after[i]),
            other,
        ) by {
            if i < slot {
                assert(place_lt(place(entries[i]), other));
            } else if i > slot {
                assert(place_lt(place(entries[i - 1]), other));
            }
        }
        if s < entries.len() {
            assert(after[s + 1] == entries[s]);
        }
        lemma_slot_is(after, other, s + 1);
    } else {
        assert(s <= slot) by {
            if slot < s {
                assert(place_lt(place(entries[slot]), other));
                lemma_place_order(place(entries[slot]), other, at);
            }
        }
        assert forall|i: int| 0 <= i < s implies place_lt(
            place(#[trigger] after[i]),
            other,
        ) by {
            assert(after[i] == entries[i]);
        }
        lemma_slot_is(after, other, s);
    }
}

/// Whether an entry stands before a place.
fn stands_before(entry: &(Vec<u8>, IBlob), key: &[u8], id: &DocumentId) -> (r: bool)
    ensures
        r == place_lt((entry.0@, entry.1@.id), (key@, id@)),
{
    if bytes_lt(entry.0.as_slice(), key) {
        return true;
    }
    bytes_eq(entry.0.as_slice(), key) && bytes_lt(entry.1.id().as_bytes(), id.as_bytes())
}

/// Whether an entry stands at a place.
fn stands_at(entry: &(Vec<u8>, IBlob), key: &[u8], id: &DocumentId) -> (r: bool)
    ensures
        r == ((entry.0@, entry.1@.id) == (key@, id@)),
{
    bytes_eq(entry.0.as_slice(), key) && bytes_eq(entry.1.id().as_bytes(), id.as_bytes())
}

/// New index entries that are not in the table yet, sorted by key and then by identity, one
/// for each document under a key.
pub struct IndexBuffer {
    entries: Vec<(Vec<u8>, IBlob)>,
}

impl View for IndexBuffer {
    type V = Seq<(Seq<u8>, Doc)>;

    closed spec fn view(&self) -> Seq<(Seq<u8>, Doc)> {
        entries_of(self.entries@)
    }
}

impl IndexBuffer {
    #[verifier::type_invariant]
    spec fn well_formed(self) -> bool {
        places_rise(entries_of(self.entries@))
    }

    pub fn new() -> (buffer: Self)
        ensures
            buffer@ == Seq::<(Seq<u8>, Doc)>::empty(),
    {
        let entries: Vec<(Vec<u8>, IBlob)> = Vec::new();
        assert(entries_of(entries@) =~= Seq::<(Seq<u8>, Doc)>::empty());
        IndexBuffer { entries }
    }

    /// Enters a document under a key.
    pub fn insert(&mut self, key: Vec<u8>, blob: IBlob)
        ensures
            final(self)@ == with_entry(old(self)@, key@, blob@),
            places_rise(old(self)@),
            places_rise(final(self)@),
    {
        proof {
            use_type_invariant(&*self);
        }
        let mut buffer = IndexBuffer::new();
        std::mem::swap(&mut buffer, self);
        let mut entries = buffer.entries;
        let ghost before = entries_of(entries@);
        let ghost at = (key@, blob@.id);
        let id: DocumentId = *blob.id();
        let n: usize = entries.len();
        let mut slot: usize = 0;
        while slot < n && stands_before(&entries[slot], key.as_slice(), &id)
            invariant
                n == entries@.len(),
                slot <= n,
                before == entries_of(entries@),
                at == (key@, id@),
                forall|i: int| 0 <= i < slot ==> place_lt(place(#[trigger] before[i]), at),
            decreases n - slot,
        {
            assert(place(before[slot as int]) == (
                entries@[slot as int].0@,
                entries@[slot as int].1@.id,
            ));
            slot += 1;
        }
        proof {
            if slot < n {
                assert(place(before[slot as int]) == (
                    entries@[slot as int].0@,
                    entries@[slot as int].1@.id,
                ));
            }
            lemma_slot_is(before, at, slot as int);
            lemma_with_entry(before, key@, blob@);
        }
        let ghost entry = (key@, blob@);
        if slot < n && stands_at(&entries[slot], key.as_slice(), &id) {
            entries.set(slot, (key, blob));
            assert(entries_of(entries@) =~= before.update(slot as int, entry));
        } else {
            entries.insert(slot, (key, blob));
            assert(entries_of(entries@) =~= before.insert(slot as int, entry));
        }
        *self = IndexBuffer { entries };
    }

    /// Number of entries.
    pub fn len(&self) -> (n: usize)
        ensures
            n == self@.len(),
    {
        self.entries.len()
    }
}

/// The documents of some entries.
pub open spec fn entry_docs(entries: Seq<(Seq<u8>, Doc)>) -> Seq<Doc> {
    Seq::new(entries.len(), |i: int| entries[i].1)
}

/// What some readers hold.
pub open spec fn tables_of(readers: Seq<&SSTableReader>) -> Seq<Table> {
    Seq::new(readers.len(), |i: int| readers[i]@)
}

/// The documents of some tables, one table after another.
pub open spec fn all_docs(tables: Seq<Table>) -> Result<Seq<Doc>, TableFault>
    decreases tables.len(),
{
    if tables.len() == 0 {
        Ok(seq![])
    } else {
        match all_docs(tables.drop_last()) {
            Err(e) => Err(e),
            Ok(before) => match table_entries_read(tables.last()) {
                Err(e) => Err(e),
                Ok(entries) => Ok(before + entry_docs(entries)),
            },
        }
    }
}

/// The rank of a document: by identity, then from the newest version to the oldest.
pub open spec fn recency(d: Doc) -> Seq<u8> {
    d.id + Seq::new(d.version.len(), |i: int| (255 - d.version[i]) as u8)
}

/// The ranks of some documents.
pub open spec fn recencies(docs: Seq<Doc>) -> Seq<Seq<u8>> {
    Seq::new(docs.len(), |i: int| recency(docs[i]))
}

/// The first of each run of positions whose documents have one identity.
pub open spec fn run_heads(docs: Seq<Doc>, order: Seq<int>) -> Seq<int>
    decreases order.len(),
{
    if order.len() == 0 {
        seq![]
    } else {
        let before = run_heads(docs, order.drop_last());
        if order.len() > 1 && docs[order[order.len() - 2]].id == docs[order.last()].id {
            before
        } else {
            before.push(order.last())
        }
    }
}

/// The positions of the newest version of each document, by identity.
pub open spec fn newest(docs: Seq<Doc>) -> Seq<int> {
    run_heads(docs, stable_order(recencies(docs)))
}

/// Whether an index of a range holds a document: it is not deleted and the range admits it.
pub open spec fn indexed(d: Doc, range: Option<Condition>) -> bool {
    !deleted(d) && (range matches Some(c) ==> holds(c, |name: Seq<char>| field_value(d, name)))
}

/// The projections of the documents at some positions that an index of a range holds.
pub open spec fn projections(
    docs: Seq<Doc>,
    places: Seq<int>,
    range: Option<Condition>,
    names: Seq<Seq<char>>,
) -> Seq<Doc>
    decreases places.len(),
{
    if places.len() == 0 {
        seq![]
    } else {
        let before = projections(docs, places.drop_last(), range, names);
        let d = docs[places.last()];
        if indexed(d, range) {
            before.push(projection(d, names))
        } else {
            before
        }
    }
}

/// The documents of an index over some tables: the newest version of each document that the
/// index holds, reduced to the indexed fields.
pub open spec fn index_docs(
    tables: Seq<Table>,
    range: Option<Condition>,
    names: Seq<Seq<char>>,
) -> Result<Seq<Doc>, TableFault> {
    match all_docs(tables) {
        Err(e) => Err(e),
        Ok(docs) => Ok(projections(docs, newest(docs), range, names)),
    }
}

proof fn lemma_all_docs_fault(tables: Seq<Table>, i: int, e: TableFault)
    requires
        0 <= i <= tables.len(),
        all_docs(tables.take(i)) == Err::<Seq<Doc>, TableFault>(e),
    ensures
        all_docs(tables) == Err::<Seq<Doc>, TableFault>(e),
    decreases tables.len(),
{
    if i == tables.len() {
        assert(tables.take(i) =~= tables);
    } else {
        assert(tables.drop_last().take(i) =~= tables.take(i));
        lemma_all_docs_fault(tables.drop_last(), i, e);
    }
}

/// Reads all documents of some tables.
fn collect_docs(primary_sstables: &[&SSTableReader]) -> (r: Result<Vec<IBlob>, SSTableError>)
    ensures
        match r {
            Ok(blobs) => all_docs(tables_of(primary_sstables@)) == Ok::<Seq<Doc>, TableFault>(
                docs_of(blobs@),
            ),
            Err(e) => all_docs(tables_of(primary_sstables@)) == Err::<Seq<Doc>, TableFault>(e@),
        },
{
    let ghost tables = tables_of(primary_sstables@);
    let n: usize = primary_sstables.len();
    let mut all: Vec<IBlob> = Vec::new();
    let mut i: usize = 0;
    proof {
        assert(tables.take(0) =~= seq![]);
        assert(docs_of(all@) =~= seq![]);
    }
    while i < n
        invariant
            n == primary_sstables@.len(),
            tables == tables_of(primary_sstables@),
            i <= n,
            all_docs(tables.take(i as int)) == Ok::<Seq<Doc>, TableFault>(docs_of(all@)),
        decreases n - i,
    {
        proof {
            assert(tables.take(i + 1).drop_last() =~= tables.take(i as int));
            assert(tables.take(i + 1).last() == primary_sstables@[i as int]@);
        }
        let entries = match primary_sstables[i].iter() {
            Ok(entries) => entries,
            Err(e) => {
                proof {
                    lemma_all_docs_fault(tables, i + 1, e@);
                }
                return Err(e);
            },
        };
        let ghost before = docs_of(all@);
        let ghost read = entry_docs(entries_of(entries@));
        let ghost whole = entries@;
        assert(docs_of(all@) =~= before + read.take(0));
        for entry in iter: entries
            invariant
                iter.seq() == whole,
                read == entry_docs(entries_of(whole)),
                docs_of(all@) == before + read.take(iter.index()),
        {
            let ghost so_far = docs_of(all@);
            let ghost k = iter.index();
            all.push(entry.1);
            proof {
                assert(docs_of(all@) =~= so_far.push(read[k]));
                assert(before + read.take(k + 1) =~= so_far.push(read[k]));
            }
        }
        assert(read.take(whole.len() as int) =~= read);
        i += 1;
    }
    assert(tables.take(n as int) =~= tables);
    Ok(all)
}

/// The rank of a document as bytes.
fn recency_key(blob: &IBlob) -> (key: Vec<u8>)
    ensures
        key@ == recency(blob@),
{
    let mut key: Vec<u8> = Vec::new();
    put_slice(&mut key, blob.id().as_bytes());
    let version = blob.version();
    let bytes: &[u8; 16] = version.as_bytes();
    let ghost flipped = Seq::new(bytes@.len(), |i: int| (255 - bytes@[i]) as u8);
    let mut i: usize = 0;
    assert(key@ =~= blob@.id + flipped.take(0));
    while i < 16
        invariant
            bytes@.len() == 16,
            flipped == Seq::new(bytes@.len(), |i: int| (255 - bytes@[i]) as u8),
            i <= 16,
            key@ == blob@.id + flipped.take(i as int),
        decreases 16 - i,
    {
        key.push(255 - bytes[i]);
        assert(key@ =~= blob@.id + flipped.take(i + 1));
        i += 1;
    }
    assert(flipped.take(16) =~= flipped);
    key
}

/// Finds the newest version of each document.
fn newest_positions(blobs: &Vec<IBlob>) -> (places: Vec<usize>)
    ensures
        positions(places@) == newest(docs_of(blobs@)),
        forall|k: int| 0 <= k < places@.len() ==> (#[trigger] places@[k]) < blobs@.len(),
{
    let ghost docs = docs_of(blobs@);
    let n: usize = blobs.len();
    let mut keys: Vec<Vec<u8>> = Vec::new();
    let mut i: usize = 0;
    while i < n
        invariant
            n == blobs@.len(),
            docs == docs_of(blobs@),
            i <= n,
            keys@.len() == i,
            forall|j: int| 0 <= j < i ==> (#[trigger] keys@[j])@ == recency(docs[j]),
        decreases n - i,
    {
        keys.push(recency_key(&blobs[i]));
        i += 1;
    }
    assert(ranks(keys@) =~= recencies(docs));
    let order = sort_order(&keys);
    let ghost sorted = positions(order@);
    let mut places: Vec<usize> = Vec::new();
    let mut k: usize = 0;
    proof {
        assert(sorted.take(0) =~= seq![]);
        assert(positions(places@) =~= seq![]);
    }
    while k < n
        invariant
            n == blobs@.len(),
            n == order@.len(),
            docs == docs_of(blobs@),
            sorted == positions(order@),
            is_stable_order(recencies(docs), sorted),
            k <= n,
            positions(places@) == run_heads(docs, sorted.take(k as int)),
            forall|j: int| 0 <= j < places@.len() ==> (#[trigger] places@[j]) < n,
        decreases n - k,
    {
        proof {
            assert(0 <= sorted[k as int] < n);
            assert(sorted.take(k + 1).drop_last() =~= sorted.take(k as int));
            assert(sorted.take(k + 1).last() == sorted[k as int]);
            if k > 0 {
                assert(0 <= sorted[k - 1] < n);
                assert(sorted.take(k + 1)[k - 1] == sorted[k - 1]);
            }
        }
        let repeated: bool = k > 0 && bytes_eq(
            blobs[order[k - 1]].id().as_bytes(),
            blobs[order[k]].id().as_bytes(),
        );
        if !repeated {
            let ghost before = positions(places@);
            places.push(order[k]);
            assert(positions(places@) =~= before.push(sorted[k as int]));
        }
        k += 1;
    }
    assert(sorted.take(n as int) =~= sorted);
    places
}

/// Whether an index of a range holds a document.
fn is_indexed(blob: &IBlob, range: &Option<Filter>) -> (r: bool)
    ensures
        r == indexed(blob@, range_view(*range)),
{
    if blob.is_deleted() {
        return false;
    }
    match range {
        None => true,
        Some(filter) => {
            let get = |name: &str| -> (value: Option<Value>)
                ensures
                    match value {
                        Some(v) => field_value(blob@, name@) == Some(v@),
                        None => field_value(blob@, name@) is None,
                    },
                { blob.get_field(name) };
            let ghost fields = |name: Seq<char>| field_value(blob@, name);
            assert(reads(get, fields));
            filter.matches(&get)
        },
    }
}

/// A range as a mathematical value.
pub open spec fn range_view(range: Option<Filter>) -> Option<Condition> {
    match range {
        Some(filter) => Some(filter@),
        None => None,
    }
}

/// Collects the documents of an index over some tables.
fn collect_index(
    fields: &Vec<String>,
    range: &Option<Filter>,
    primary_sstables: &[&SSTableReader],
) -> (r: Result<Vec<IBlob>, SSTableError>)
    ensures
        ({
            let docs = index_docs(
                tables_of(primary_sstables@),
                range_view(*range),
                texts(fields@),
            );
            match r {
                Ok(blobs) => docs == Ok::<Seq<Doc>, TableFault>(docs_of(blobs@)),
                Err(e) => docs == Err::<Seq<Doc>, TableFault>(e@),
            }
        }),
{
    let all = match collect_docs(primary_sstables) {
        Ok(all) => all,
        Err(e) => {
            return Err(e);
        },
    };
    let ghost docs = docs_of(all@);
    let ghost names = texts(fields@);
    let ghost view = range_view(*range);
    // Dedup by _id, keep highest _version
    let places = newest_positions(&all);
    let ghost newest = positions(places@);
    // Skip tombstones and project to indexed fields
    let n: usize = places.len();
    let mut projected: Vec<IBlob> = Vec::new();
    let mut i: usize = 0;
    proof {
        assert(newest.take(0) =~= seq![]);
        assert(docs_of(projected@) =~= seq![]);
    }
    while i < n
        invariant
            n == places@.len(),
            docs == docs_of(all@),
            names == texts(fields@),
            view == range_view(*range),
            newest == positions(places@),
            forall|k: int| 0 <= k < places@.len() ==> (#[trigger] places@[k]) < all@.len(),
            i <= n,
            docs_of(projected@) == projections(docs, newest.take(i as int), view, names),
        decreases n - i,
    {
        proof {
            assert(newest.take(i + 1).drop_last() =~= newest.take(i as int));
            assert(newest.take(i + 1).last() == places@[i as int]);
        }
        let blob = &all[places[i]];
        if is_indexed(blob, range) {
            let ghost before = docs_of(projected@);
            projected.push(blob.project(fields.as_slice()));
            assert(docs_of(projected@) =~= before.push(projection(blob@, names)));
        }
        i += 1;
    }
    assert(newest.take(n as int) =~= newest);
    Ok(projected)
}

/// The index keys of some documents.
pub open spec fn index_keys(names: Seq<Seq<char>>, docs: Seq<Doc>) -> Seq<Seq<u8>> {
    Seq::new(docs.len(), |i: int| field_key(names, docs[i]))
}

/// Whether `file` is an index table of the documents.
pub open spec fn is_index_file(
    file: Seq<u8>,
    docs: Seq<Doc>,
    names: Seq<Seq<char>>,
    block_size: nat,
) -> bool {
    &&& file.len() <= u64::MAX
    &&& is_table_of(file, table_entries(docs, index_keys(names, docs)), block_size)
}

/// Whether a table is what an index table of the documents opens as.
pub open spec fn indexes(
    t: Table,
    docs: Seq<Doc>,
    names: Seq<Seq<char>>,
    block_size: nat,
) -> bool {
    exists|file: Seq<u8>| #[trigger]
        is_index_file(file, docs, names, block_size) && parse_table(file) == Ok::<
            Table,
            TableFault,
        >(t)
}

/// The blocks of an index table of the documents.
pub open spec fn index_blocks(
    docs: Seq<Doc>,
    names: Seq<Seq<char>>,
    block_size: nat,
) -> Seq<Seq<(Seq<u8>, Seq<u8>)>> {
    grouped(table_entries(docs, index_keys(names, docs)), block_size)
}

/// Whether the documents may be too many or too large for an index table.
pub open spec fn may_exceed_table(
    docs: Seq<Doc>,
    names: Seq<Seq<char>>,
    block_size: nat,
) -> bool {
    let blocks = index_blocks(docs, names, block_size);
    docs.len() * 10 > usize::MAX || exists|j: int|
        0 <= j < blocks.len() && may_overflow(block_data(#[trigger] blocks[j]))
}

/// Whether writing an index table of the documents, or opening what was written, may end in
/// a fault.
pub open spec fn index_fault(
    docs: Seq<Doc>,
    names: Seq<Seq<char>>,
    block_size: nat,
    e: TableFault,
) -> bool {
    if docs.len() == 0 {
        e == TableFault::Empty
    } else {
        ||| e == TableFault::TooLarge && may_exceed_table(docs, names, block_size)
        ||| exists|file: Seq<u8>| #[trigger]
            is_index_file(file, docs, names, block_size) && parse_table(file) == Err::<
                Table,
                TableFault,
            >(e)
    }
}

/// Writes an SSTable sorted by field values and opens it.
fn write_index(
    fields: &Vec<String>,
    blobs: Vec<IBlob>,
    path: &String,
    block_size: usize,
) -> (r: Result<SSTableReader, SSTableError>)
    ensures
        ({
            let docs = docs_of(blobs@);
            let names = texts(fields@);
            match r {
                Ok(reader) => docs.len() > 0 && indexes(reader@, docs, names, block_size as nat)
                    && reader.path_text() == path@,
                Err(e) => index_fault(docs, names, block_size as nat, e@),
            }
        }),
{
    let ghost docs = docs_of(blobs@);
    let ghost names = texts(fields@);
    let mut blobs = blobs;
    if blobs.len() > usize::MAX / 10 {
        return Err(SSTableError::TooLarge);
    }
    let extractor = FieldKeyExtractor::new(copy_names(fields.as_slice()));
    let writer = SSTableWriter::with_block_size(block_size);
    assert(keys_of(extractor, docs) =~= index_keys(names, docs));
    match writer.write(blobs.as_mut_slice(), &extractor) {
        Err(e) => {
            proof {
                if docs.len() > 0 {
                    let blocks = index_blocks(docs, names, block_size as nat);
                    let entries = table_entries(docs, keys_of(extractor, docs));
                    let j = choose|j: int|
                        0 <= j < grouped(entries, writer.limit()).len() && may_overflow(
                            block_data(#[trigger] grouped(entries, writer.limit())[j]),
                        );
                    assert(may_overflow(block_data(blocks[j])));
                }
            }
            Err(e)
        },
        Ok(file) => {
            assert(file@.len() == file.len());
            assert(is_index_file(file@, docs, names, block_size as nat));
            SSTableReader::open(path.clone(), file)
        },
    }
}

/// Entries of an index sort by their keys.
impl SortKey for (Vec<u8>, IBlob) {
    open spec fn rank(&self) -> Seq<u8> {
        self.0@
    }

    fn sorts_before(&self, other: &Self) -> (r: bool) {
        bytes_lt(self.0.as_slice(), other.0.as_slice())
    }
}

/// Entries sorted by key, equal keys in their original order.
pub open spec fn merged(entries: Seq<(Seq<u8>, Doc)>) -> Seq<(Seq<u8>, Doc)> {
    sorted_by_rank(entries, entry_keys(entries))
}

/// The documents of some entries, each with its identity.
pub open spec fn listing(entries: Seq<(Seq<u8>, Doc)>) -> Seq<(Seq<u8>, Doc)> {
    Seq::new(entries.len(), |i: int| (entries[i].1.id, entries[i].1))
}

/// Results of an index read, as mathematical values.
pub open spec fn results_of(results: Seq<(DocumentId, IBlob)>) -> Seq<(Seq<u8>, Doc)> {
    Seq::new(results.len(), |i: int| (results[i].0@, results[i].1@))
}

/// Documents in key order.
fn sort_entries(entries: &Vec<(Vec<u8>, IBlob)>) -> (blobs: Vec<IBlob>)
    ensures
        docs_of(blobs@) == entry_docs(merged(entries_of(entries@))),
{
    let ghost es = entries_of(entries@);
    assert(ranks(entries@) =~= entry_keys(es));
    let order = sort_order(entries);
    let n: usize = order.len();
    let mut blobs: Vec<IBlob> = Vec::new();
    let mut i: usize = 0;
    while i < n
        invariant
            n == order@.len(),
            n == entries@.len(),
            es == entries_of(entries@),
            is_stable_order(entry_keys(es), positions(order@)),
            positions(order@) == stable_order(entry_keys(es)),
            i <= n,
            blobs@.len() == i,
            forall|j: int| 0 <= j < i ==> (#[trigger] blobs@[j])@ == merged(es)[j].1,
        decreases n - i,
    {
        assert(0 <= positions(order@)[i as int] < n);
        assert(merged(es)[i as int] == es[order@[i as int] as int]);
        blobs.push(entries[order[i]].1.clone());
        i += 1;
    }
    assert(docs_of(blobs@) =~= entry_docs(merged(es)));
    blobs
}

/// Documents in key order, each with its identity.
fn list_entries(entries: &Vec<(Vec<u8>, IBlob)>) -> (results: Vec<(DocumentId, IBlob)>)
    ensures
        results_of(results@) == listing(merged(entries_of(entries@))),
{
    let blobs = sort_entries(entries);
    let ghost docs = docs_of(blobs@);
    let ghost whole = blobs@;
    let mut results: Vec<(DocumentId, IBlob)> = Vec::new();
    for blob in iter: blobs
        invariant
            iter.seq() == whole,
            docs == docs_of(whole),
            results@.len() == iter.index(),
            forall|j: int|
                0 <= j < results@.len() ==> (#[trigger] results@[j]).0@ == docs[j].id
                    && results@[j].1@ == docs[j],
    {
        let id: DocumentId = *blob.id();
        results.push((id, blob));
    }
    proof {
        let sorted = merged(entries_of(entries@));
        assert(docs.len() == entry_docs(sorted).len());
        assert forall|j: int| 0 <= j < sorted.len() implies results_of(results@)[j] == listing(
            sorted,
        )[j] by {
            assert(docs[j] == entry_docs(sorted)[j]);
            assert(results@[j].1@ == docs[j]);
        }
        assert(results_of(results@) =~= listing(sorted));
    }
    results
}

/// Minimum number of results before sorting spills to disk as a partial index.
pub const SPILL_THRESHOLD: usize = 1000;

/// Number of compaction cycles before considering dropping an unused index.
pub const DROP_COMPACTION_CYCLES: u32 = 10;

/// Hours of wall-clock time before considering dropping an unused index (30 days).
pub const DROP_HOURS: u64 = 720;

/// Default number of query executions before building an index reactively.
pub const DEFAULT_INDEX_THRESHOLD: u64 = 3;

/// A secondary index: an SSTable sorted by field values instead of _id.
///
/// Each entry is a projected IBlob containing just the indexed fields.
/// The _id on each projected blob points back to the primary document.
/// Stale entries (from updated/deleted documents) are detected at read
/// time by verifying the indexed field values match the primary document.
///
/// Partial indexes have a `range`: the filter that produced them.
/// A full-range index (range=None) covers all documents.
pub struct SecondaryIndex {
    /// Fields this index covers (the sort key)
    pub fields: Vec<String>,
    /// The filter range this index covers. None = full range.
    pub range: Option<Filter>,
    /// The index SSTable
    pub reader: SSTableReader,
    /// Path to the index SSTable
    pub path: String,
    /// In-memory buffer of new index entries from put()
    pub buffer: IndexBuffer,
    /// Last time this index was used for a query
    pub last_used: Instant,
    /// Number of compaction cycles since last use
    pub compactions_since_use: u32,
}

/// A [`SecondaryIndex`] as a mathematical value.
#[verifier::ext_equal]
pub struct IndexState {
    pub names: Seq<Seq<char>>,
    pub range: Option<Condition>,
    pub table: Table,
    pub path: Seq<char>,
    /// The entries that are not in the table yet.
    pub pending: Seq<(Seq<u8>, Doc)>,
    pub cycles: nat,
}

impl View for SecondaryIndex {
    type V = IndexState;

    open spec fn view(&self) -> IndexState {
        IndexState {
            names: texts(self.fields@),
            range: range_view(self.range),
            table: self.reader@,
            path: self.path@,
            pending: self.buffer@,
            cycles: self.compactions_since_use as nat,
        }
    }
}

/// A fresh index over a table.
pub open spec fn fresh_index(
    names: Seq<Seq<char>>,
    range: Option<Condition>,
    table: Table,
    path: Seq<char>,
) -> IndexState {
    IndexState { names, range, table, path, pending: seq![], cycles: 0 }
}

/// The entries of an index, in the order in which they were added: first those of the table.
pub open spec fn index_entries(s: IndexState) -> Result<Seq<(Seq<u8>, Doc)>, TableFault> {
    match table_entries_read(s.table) {
        Err(e) => Err(e),
        Ok(entries) => Ok(entries + s.pending),
    }
}

/// What listing an index gives.
pub open spec fn index_listing(s: IndexState) -> Result<Seq<(Seq<u8>, Doc)>, TableFault> {
    match index_entries(s) {
        Err(e) => Err(e),
        Ok(entries) => Ok(listing(merged(entries))),
    }
}

/// The first key of a scan.
pub open spec fn scan_start(value: Option<Datum>) -> Seq<u8> {
    match value {
        Some(d) => comparable(d),
        None => seq![0x00],
    }
}

/// The last key of a scan.
pub open spec fn scan_end(value: Option<Datum>) -> Seq<u8> {
    match value {
        Some(d) => comparable(d),
        None => Seq::new(32, |i: int| 0xFF),
    }
}

/// Whether a document has all of the named fields.
pub open spec fn has_fields(names: Seq<Seq<char>>, d: Doc) -> bool {
    forall|i: int| 0 <= i < names.len() ==> field_value(d, #[trigger] names[i]) is Some
}

/// What notifying an index of a document that was put makes of it: an entry is buffered for a
/// document that has the indexed fields.
pub open spec fn after_put(s: IndexState, d: Doc) -> IndexState {
    if has_fields(s.names, d) {
        IndexState {
            pending: with_entry(s.pending, field_key(s.names, d), projection(d, s.names)),
            ..s
        }
    } else {
        s
    }
}

/// What notifying an index of a document that was deleted makes of it.
pub open spec fn after_delete(s: IndexState, id: Seq<u8>) -> IndexState {
    let tomb = tombstone_of(id);
    IndexState { pending: with_entry(s.pending, field_key(s.names, tomb), tomb), ..s }
}

/// Whether a document has all indexed fields.
fn has_indexed_fields(fields: &Vec<String>, blob: &IBlob) -> (r: bool)
    ensures
        r == has_fields(texts(fields@), blob@),
{
    let ghost names = texts(fields@);
    let n: usize = fields.len();
    let mut i: usize = 0;
    while i < n
        invariant
            n == fields@.len(),
            names == texts(fields@),
            i <= n,
            forall|j: int| 0 <= j < i ==> field_value(blob@, #[trigger] names[j]) is Some,
        decreases n - i,
    {
        assert(names[i as int] == fields@[i as int]@);
        if blob.get_field(fields[i].as_str()).is_none() {
            return false;
        }
        i += 1;
    }
    true
}

/// What scanning a range of an index gives.
pub open spec fn index_range(s: IndexState, start: Seq<u8>, end: Seq<u8>) -> Result<
    Seq<(Seq<u8>, Doc)>,
    TableFault,
> {
    match table_range(s.table, start, end) {
        Err(e) => Err(e),
        Ok(entries) => Ok(listing(merged(entries + in_range(s.pending, start, end)))),
    }
}

/// The number of entries of an index; a table that cannot be read counts as empty.
pub open spec fn index_size(s: IndexState) -> nat {
    match table_entries_read(s.table) {
        Err(e) => s.pending.len(),
        Ok(entries) => entries.len() + s.pending.len(),
    }
}

/// The number of entries of an index as far as 64 bits hold it.
pub open spec fn entry_total(s: IndexState) -> nat {
    if index_size(s) <= u64::MAX {
        index_size(s)
    } else {
        u64::MAX as nat
    }
}

/// Results of an index read, or its fault, as mathematical values.
pub open spec fn read_view(r: Result<Vec<(DocumentId, IBlob)>, SSTableError>) -> Result<
    Seq<(Seq<u8>, Doc)>,
    TableFault,
> {
    match r {
        Ok(results) => Ok(results_of(results@)),
        Err(e) => Err(e@),
    }
}

/// A value as a mathematical value, if there is one.
pub open spec fn value_view(value: Option<&Value>) -> Option<Datum> {
    match value {
        Some(v) => Some(v@),
        None => None,
    }
}

/// Whether an index may be dropped: unused for long, in compaction cycles and in time.
pub open spec fn drop_due(cycles: nat, elapsed_nanos: nat) -> bool {
    cycles >= DROP_COMPACTION_CYCLES && elapsed_nanos >= DROP_HOURS * 3600 * 1_000_000_000
}

/// Whether an index that was unused for some compaction cycles and some time may be dropped.
pub fn is_drop_due(cycles: u32, elapsed_nanos: u128) -> (r: bool)
    ensures
        r == drop_due(cycles as nat, elapsed_nanos as nat),
{
    cycles >= DROP_COMPACTION_CYCLES && elapsed_nanos >= DROP_HOURS as u128 * 3600 * 1_000_000_000
}

impl SecondaryIndex {
    /// Build a secondary index from primary SSTables.
    ///
    /// Reads all primary SSTables, deduplicates by _id (newest version wins),
    /// skips tombstones, projects to indexed fields, and writes an SSTable
    /// sorted by those field values. The file's content is that of the reader.
    pub fn build(
        fields: &[String],
        primary_sstables: &[&SSTableReader],
        output_path: String,
        block_size: usize,
    ) -> (r: Result<Self, SSTableError>)
        ensures
            match index_docs(tables_of(primary_sstables@), None, texts(fields@)) {
                Err(fault) => r matches Err(e) && e@ == fault,
                Ok(docs) => match r {
                    Ok(index) => docs.len() > 0 && indexes(
                        index@.table,
                        docs,
                        texts(fields@),
                        block_size as nat,
                    ) && index@ == fresh_index(
                        texts(fields@),
                        None,
                        index@.table,
                        output_path@,
                    ) && index.reader.path_text() == output_path@ && is_reading(index.last_used),
                    Err(e) => index_fault(docs, texts(fields@), block_size as nat, e@),
                },
            },
    {
        let names = copy_names(fields);
        let projected = match collect_index(&names, &None, primary_sstables) {
            Ok(projected) => projected,
            Err(e) => {
                return Err(e);
            },
        };
        if projected.len() == 0 {
            return Err(SSTableError::Empty);
        }
        match write_index(&names, projected, &output_path, block_size) {
            Err(e) => Err(e),
            Ok(reader) => Ok(Self::over(names, None, reader, output_path)),
        }
    }

    /// A fresh index over an open table.
    fn over(fields: Vec<String>, range: Option<Filter>, reader: SSTableReader, path: String) -> (
    index: Self)
        ensures
            index@ == fresh_index(texts(fields@), range_view(range), reader@, path@),
            index.reader == reader,
            is_reading(index.last_used),
    {
        SecondaryIndex {
            fields,
            range,
            reader,
            path,
            buffer: IndexBuffer::new(),
            last_used: read_clock(),
            compactions_since_use: 0,
        }
    }

    /// Build a partial secondary index from pre-filtered, pre-sorted results.
    /// The `range` records which filter produced these results.
    pub fn build_partial(
        fields: &[String],
        range: Option<Filter>,
        sorted_blobs: &[IBlob],
        output_path: String,
        block_size: usize,
    ) -> (r: Result<Self, SSTableError>)
        ensures
            ({
                let docs = all_projections(docs_of(sorted_blobs@), texts(fields@));
                match r {
                    Ok(index) => docs.len() > 0 && indexes(
                        index@.table,
                        docs,
                        texts(fields@),
                        block_size as nat,
                    ) && index@ == fresh_index(
                        texts(fields@),
                        range_view(range),
                        index@.table,
                        output_path@,
                    ) && index.reader.path_text() == output_path@ && is_reading(index.last_used),
                    Err(e) => index_fault(docs, texts(fields@), block_size as nat, e@),
                }
            }),
    {
        let ghost docs = all_projections(docs_of(sorted_blobs@), texts(fields@));
        let n: usize = sorted_blobs.len();
        if n == 0 {
            return Err(SSTableError::Empty);
        }
        // Project to indexed fields
        let mut projected: Vec<IBlob> = Vec::new();
        let mut i: usize = 0;
        while i < n
            invariant
                n == sorted_blobs@.len(),
                docs == all_projections(docs_of(sorted_blobs@), texts(fields@)),
                i <= n,
                projected@.len() == i,
                forall|j: int| 0 <= j < i ==> (#[trigger] projected@[j])@ == docs[j],
            decreases n - i,
        {
            projected.push(sorted_blobs[i].project(fields));
            i += 1;
        }
        assert(docs_of(projected@) =~= docs);
        let names = copy_names(fields);
        match write_index(&names, projected, &output_path, block_size) {
            Err(e) => Err(e),
            Ok(reader) => Ok(Self::over(names, range, reader, output_path)),
        }
    }

    /// Open an existing secondary index, given by the path and the content of its file.
    pub fn open(fields: Vec<String>, range: Option<Filter>, path: String, data: Vec<u8>) -> (r:
        Result<Self, SSTableError>)
        ensures
            match parse_table(data@) {
                Ok(table) => r matches Ok(index) && index@ == fresh_index(
                    texts(fields@),
                    range_view(range),
                    table,
                    path@,
                ) && index.reader.path_text() == path@ && is_reading(index.last_used),
                Err(fault) => r matches Err(e) && e@ == fault,
            },
    {
        match SSTableReader::open(path.clone(), data) {
            Err(e) => Err(e),
            Ok(reader) => Ok(Self::over(fields, range, reader, path)),
        }
    }

    /// Notify the index that a document was written/updated.
    /// If the document has the indexed fields, buffer a new index entry.
    pub fn notify_put(&mut self, blob: &IBlob)
        ensures
            final(self)@ == after_put(old(self)@, blob@),
            places_rise(old(self)@.pending),
            places_rise(final(self)@.pending),
            final(self).last_used == old(self).last_used,
            final(self).reader == old(self).reader,
    {
        proof {
            use_type_invariant(&self.buffer);
        }
        if !has_indexed_fields(&self.fields, blob) {
            return;
        }
        let extractor = FieldKeyExtractor::new(copy_names(self.fields.as_slice()));
        let key = extractor.extract_key(blob);
        let projected = blob.project(self.fields.as_slice());
        self.buffer.insert(key, projected);
    }

    /// Notify the index that a document was deleted.
    /// We don't remove from the buffer (stale entries handled on read).
    /// A tombstone entry is added to ensure the delete is visible.
    pub fn notify_delete(&mut self, id: &DocumentId)
        ensures
            final(self)@ == after_delete(old(self)@, id@),
            places_rise(old(self)@.pending),
            places_rise(final(self)@.pending),
            final(self).last_used == old(self).last_used,
            final(self).reader == old(self).reader,
    {
        // Tombstone projection: just the id, no fields
        let tomb = IBlob::tombstone(*id);
        let extractor = FieldKeyExtractor::new(copy_names(self.fields.as_slice()));
        let key = extractor.extract_key(&tomb);
        self.buffer.insert(key, tomb);
    }

    /// Iterate the index in sorted order, yielding (_id, projected IBlob) pairs.
    /// Merges SSTable entries with in-memory buffer.
    pub fn iter_sorted(&self) -> (r: Result<Vec<(DocumentId, IBlob)>, SSTableError>)
        ensures
            read_view(r) == index_listing(self@),
    {
        let mut entries = match self.reader.iter() {
            Ok(entries) => entries,
            Err(e) => {
                return Err(e);
            },
        };
        let ghost read = entries_of(entries@);
        self.buffer.append_to(&mut entries);
        assert(entries_of(entries@) == read + self@.pending);
        Ok(list_entries(&entries))
    }

    /// Range scan the index: return entries where the indexed field value
    /// falls between start_value and end_value (inclusive). In an index of several fields
    /// the whole index key is compared with the encodings of the two values.
    /// Uses binary search on the SSTable.
    pub fn range_scan(&self, start_value: Option<&Value>, end_value: Option<&Value>) -> (r: Result<
        Vec<(DocumentId, IBlob)>,
        SSTableError,
    >)
        ensures
            read_view(r) == index_range(
                self@,
                scan_start(value_view(start_value)),
                scan_end(value_view(end_value)),
            ),
    {
        let start_key: Vec<u8> = match start_value {
            Some(value) => encode_comparable_value(value),
            None => vec![0x00],  // min possible key
        };
        let end_key: Vec<u8> = match end_value {
            Some(value) => encode_comparable_value(value),
            None => vec![0xFF; 32],  // max possible key
        };
        assert(start_key@ =~= scan_start(value_view(start_value)));
        assert(end_key@ =~= scan_end(value_view(end_value)));
        let mut entries = match self.reader.range_scan(start_key.as_slice(), end_key.as_slice()) {
            Ok(entries) => entries,
            Err(e) => {
                return Err(e);
            },
        };
        // Also include matching buffer entries
        self.buffer.append_range_to(&mut entries, start_key.as_slice(), end_key.as_slice());
        Ok(list_entries(&entries))
    }
}

/// The projections of some documents.
pub open spec fn all_projections(docs: Seq<Doc>, names: Seq<Seq<char>>) -> Seq<Doc> {
    Seq::new(docs.len(), |i: int| projection(docs[i], names))
}

impl IndexBuffer {
    /// Appends the entries.
    fn append_to(&self, entries: &mut Vec<(Vec<u8>, IBlob)>)
        ensures
            entries_of(final(entries)@) == entries_of(old(entries)@) + self@,
    {
        let ghost before = entries_of(entries@);
        let n: usize = self.entries.len();
        let mut i: usize = 0;
        assert(before + self@.take(0) =~= before);
        while i < n
            invariant
                n == self.entries@.len(),
                self@ == entries_of(self.entries@),
                i <= n,
                entries_of(entries@) == before + self@.take(i as int),
            decreases n - i,
        {
            let ghost so_far = entries_of(entries@);
            let key = vstd::slice::slice_to_vec(self.entries[i].0.as_slice());
            entries.push((key, self.entries[i].1.clone()));
            proof {
                assert(entries_of(entries@) =~= so_far.push(self@[i as int]));
                assert(before + self@.take(i + 1) =~= so_far.push(self@[i as int]));
            }
            i += 1;
        }
        assert(self@.take(n as int) =~= self@);
    }

    /// Appends the entries whose keys lie between two bounds.
    fn append_range_to(&self, entries: &mut Vec<(Vec<u8>, IBlob)>, start: &[u8], end: &[u8])
        ensures
            entries_of(final(entries)@) == entries_of(old(entries)@) + in_range(
                self@,
                start@,
                end@,
            ),
    {
        let ghost before = entries_of(entries@);
        let n: usize = self.entries.len();
        let mut i: usize = 0;
        assert(self@.take(0) =~= seq![]);
        assert(before + Seq::<(Seq<u8>, Doc)>::empty() =~= before);
        while i < n
            invariant
                n == self.entries@.len(),
                self@ == entries_of(self.entries@),
                i <= n,
                entries_of(entries@) == before + in_range(self@.take(i as int), start@, end@),
            decreases n - i,
        {
            let ghost so_far = entries_of(entries@);
            let ghost found = in_range(self@.take(i as int), start@, end@);
            proof {
                assert(self@.take(i + 1).drop_last() =~= self@.take(i as int));
                assert(self@.take(i + 1).last() == self@[i as int]);
            }
            let key = self.entries[i].0.as_slice();
            if !bytes_lt(key, start) && !bytes_lt(end, key) {
                entries.push((vstd::slice::slice_to_vec(key), self.entries[i].1.clone()));
                proof {
                    assert(entries_of(entries@) =~= so_far.push(self@[i as int]));
                    assert(before + found.push(self@[i as int]) =~= so_far.push(self@[i as int]));
                }
            }
            i += 1;
        }
        assert(self@.take(n as int) =~= self@);
    }
}

impl Clone for IndexBuffer {
    fn clone(&self) -> (buffer: Self)
        ensures
            buffer@ == self@,
    {
        proof {
            use_type_invariant(self);
        }
        let mut entries: Vec<(Vec<u8>, IBlob)> = Vec::new();
        assert(entries_of(entries@) + self@ =~= self@);
        self.append_to(&mut entries);
        IndexBuffer { entries }
    }
}

/// Whether an index serves a query: it has the sort fields, and it covers all documents or its
/// range is the query's filter.
pub open spec fn serves(
    s: IndexState,
    sort_fields: Seq<Seq<char>>,
    filter: Option<Condition>,
) -> bool {
    s.names == sort_fields && match (s.range, filter) {
        (None, _) => true,
        (Some(_), None) => false,
        (Some(range), Some(filter)) => same_condition(range, filter),
    }
}

/// A filter as a mathematical value, if there is one.
pub open spec fn filter_view(filter: Option<&Filter>) -> Option<Condition> {
    match filter {
        Some(f) => Some(f@),
        None => None,
    }
}

/// The range of an index after a rebuild: all documents where the index has entries for at
/// least half of them or covered all of them before, and otherwise the range that it had.
pub open spec fn rebuild_range(s: IndexState, doc_count: nat) -> Option<Condition> {
    if 2 * index_size(s) >= doc_count {
        None
    } else {
        s.range
    }
}

/// What a rebuild over some tables makes of an index.
pub open spec fn rebuilt(
    s: IndexState,
    tables: Seq<Table>,
    range: Option<Condition>,
    block_size: nat,
    t: IndexState,
    r: Result<(), SSTableError>,
) -> bool {
    match index_docs(tables, range, s.names) {
        Err(fault) => r matches Err(e) && e@ == fault && t == s,
        Ok(docs) => if docs.len() == 0 {
            r is Ok && t == s
        } else {
            match r {
                Ok(_) => indexes(t.table, docs, s.names, block_size) && t == (IndexState {
                    range,
                    table: t.table,
                    pending: seq![],
                    ..s
                }),
                Err(e) => index_fault(docs, s.names, block_size, e@) && t == s,
            }
        },
    }
}

/// What a merge of the buffered entries into the table makes of an index. Where it fails the
/// buffered entries are gone.
pub open spec fn flushed(
    s: IndexState,
    block_size: nat,
    t: IndexState,
    r: Result<(), SSTableError>,
) -> bool {
    if s.pending.len() == 0 {
        r is Ok && t == s
    } else {
        match index_entries(s) {
            Err(fault) => r matches Err(e) && e@ == fault && t == (IndexState {
                pending: seq![],
                ..s
            }),
            Ok(entries) => {
                let docs = entry_docs(merged(entries));
                match r {
                    Ok(_) => indexes(t.table, docs, s.names, block_size) && t == (IndexState {
                        table: t.table,
                        pending: seq![],
                        ..s
                    }),
                    Err(e) => index_fault(docs, s.names, block_size, e@) && t == (IndexState {
                        pending: seq![],
                        ..s
                    }),
                }
            },
        }
    }
}

/// What a compaction makes of an index: one more cycle, and a rebuild or a merge.
pub open spec fn compacted(
    before: IndexState,
    tables: Seq<Table>,
    doc_count: nat,
    block_size: nat,
    rebuild: bool,
    after: IndexState,
    r: Result<(), SSTableError>,
) -> bool {
    let s = IndexState { cycles: before.cycles + 1, ..before };
    if rebuild {
        rebuilt(s, tables, rebuild_range(s, doc_count), block_size, after, r)
    } else {
        flushed(s, block_size, after, r)
    }
}

/// Whether a compaction writes a new table: a rebuild that finds documents, or a merge of
/// buffered entries.
pub open spec fn writes_table(
    s: IndexState,
    tables: Seq<Table>,
    doc_count: nat,
    rebuild: bool,
) -> bool {
    if rebuild {
        index_docs(tables, rebuild_range(s, doc_count), s.names) matches Ok(docs) && docs.len() > 0
    } else {
        s.pending.len() > 0
    }
}

/// What becomes of the reader of an index: a new one at the index's path where a table was
/// written, and otherwise the one that it had.
pub open spec fn reader_follows(
    before: SecondaryIndex,
    after: SecondaryIndex,
    written: bool,
) -> bool {
    if written {
        after.reader.path_text() == before@.path
    } else {
        after.reader == before.reader
    }
}

impl SecondaryIndex {
    /// Check if this index covers the given sort fields AND the query filter.
    /// A full-range index (range=None) matches any filter.
    /// A partial index matches only if the query filter is exactly equal.
    pub fn matches_query(&self, sort_fields: &[String], query_filter: Option<&Filter>) -> (r: bool)
        ensures
            r == serves(self@, texts(sort_fields@), filter_view(query_filter)),
    {
        if !same_names(self.fields.as_slice(), sort_fields) {
            return false;
        }
        match (&self.range, query_filter) {
            (None, _) => true,  // full range covers everything
            (Some(_), None) => false,  // partial index can't serve unfiltered scan
            (Some(range), Some(filter)) => range.same(filter),  // exact match
        }
    }

    /// Check sort fields only.
    pub fn matches_sort(&self, sort_fields: &[String]) -> (r: bool)
        ensures
            r == (self@.names == texts(sort_fields@)),
    {
        same_names(self.fields.as_slice(), sort_fields)
    }

    /// Mark this index as used (resets drop timer).
    pub fn mark_used(&mut self)
        ensures
            final(self)@ == (IndexState { cycles: 0, ..old(self)@ }),
            final(self).reader == old(self).reader,
            is_reading(final(self).last_used),
    {
        self.mark_used_at(read_clock());
    }

    /// Mark this index as used at some point in time.
    pub fn mark_used_at(&mut self, at: Instant)
        ensures
            final(self)@ == (IndexState { cycles: 0, ..old(self)@ }),
            final(self).reader == old(self).reader,
            final(self).last_used == at,
    {
        self.last_used = at;
        self.compactions_since_use = 0;
    }

    /// Mark a compaction cycle (for drop decisions).
    pub fn mark_compaction(&mut self)
        requires
            old(self).compactions_since_use < u32::MAX,
        ensures
            final(self)@ == (IndexState { cycles: old(self)@.cycles + 1, ..old(self)@ }),
            final(self).last_used == old(self).last_used,
            final(self).reader == old(self).reader,
    {
        self.compactions_since_use = self.compactions_since_use + 1;
    }

    /// Should this index be dropped? True if unused for too long.
    /// The answer is that of [`is_drop_due`] for the time that has passed since the last use.
    pub fn should_drop(&self) -> (r: bool)
        ensures
            exists|nanos: u128| #[trigger]
                is_time_since(self.last_used, nanos) && r == drop_due(self@.cycles, nanos as nat),
            self@.cycles < DROP_COMPACTION_CYCLES ==> !r,
    {
        let elapsed: u128 = time_since(&self.last_used);
        is_drop_due(self.compactions_since_use, elapsed)
    }

    /// Total entry count (SSTable entries + in-memory buffer).
    pub fn entry_count(&self) -> (n: u64)
        ensures
            n == entry_total(self@),
    {
        let on_disk: u64 = match self.reader.iter() {
            Ok(entries) => {
                assert(entries@.len() == entries_of(entries@).len());
                entries.len() as u64
            },
            Err(_) => 0,
        };
        let buffer: u64 = self.buffer.len() as u64;
        if on_disk <= u64::MAX - buffer {
            on_disk + buffer
        } else {
            u64::MAX
        }
    }

    /// Compact the secondary index.
    ///
    /// Decision tree:
    /// 1. If [`should_full_rebuild`]: rebuild from primary SSTables
    ///    - If index covers at least 50% of primary docs: extend to full range
    ///    - Otherwise: keep current partial range
    /// 2. Else: simple merge (flush buffer into index SSTable)
    ///
    /// Full rebuild when: `index_entries > 0.5 * primary_docs * ln(primary_docs)`
    pub fn compact(
        &mut self,
        primary_sstables: &[&SSTableReader],
        primary_doc_count: u64,
        block_size: usize,
    ) -> (r: Result<(), SSTableError>)
        requires
            old(self).compactions_since_use < u32::MAX,
        ensures
            exists|rebuild: bool|
                #![trigger rebuild_answer(
                    entry_total(old(self)@),
                    primary_doc_count as nat,
                    rebuild,
                )]
                {
                    &&& rebuild_answer(
                        entry_total(old(self)@),
                        primary_doc_count as nat,
                        rebuild,
                    )
                    &&& compacted(
                        old(self)@,
                        tables_of(primary_sstables@),
                        primary_doc_count as nat,
                        block_size as nat,
                        rebuild,
                        final(self)@,
                        r,
                    )
                    &&& reader_follows(
                        *old(self),
                        *final(self),
                        r is Ok && writes_table(
                            old(self)@,
                            tables_of(primary_sstables@),
                            primary_doc_count as nat,
                            rebuild,
                        ),
                    )
                },
            final(self).last_used == old(self).last_used,
    {
        let rebuild: bool = should_full_rebuild(self.entry_count(), primary_doc_count);
        self.compact_with(primary_sstables, primary_doc_count, block_size, rebuild)
    }

    /// Compact the secondary index by a rebuild or by a merge.
    pub fn compact_with(
        &mut self,
        primary_sstables: &[&SSTableReader],
        primary_doc_count: u64,
        block_size: usize,
        rebuild: bool,
    ) -> (r: Result<(), SSTableError>)
        requires
            old(self).compactions_since_use < u32::MAX,
        ensures
            compacted(
                old(self)@,
                tables_of(primary_sstables@),
                primary_doc_count as nat,
                block_size as nat,
                rebuild,
                final(self)@,
                r,
            ),
            reader_follows(
                *old(self),
                *final(self),
                r is Ok && writes_table(
                    old(self)@,
                    tables_of(primary_sstables@),
                    primary_doc_count as nat,
                    rebuild,
                ),
            ),
            final(self).last_used == old(self).last_used,
    {
        self.mark_compaction();
        if rebuild {
            let index_entries: u64 = self.entry_count();
            let range: Option<Filter> = if index_entries >= primary_doc_count - primary_doc_count
                / 2 {
                // Extend to full range: index already covers at least half
                None
            } else {
                // Keep current range
                self.range.clone()
            };
            self.full_rebuild(primary_sstables, range, block_size)
        } else {
            self.merge_buffer(block_size)
        }
    }

    /// Full rebuild: re-read all primary SSTables, project, sort, write clean index.
    /// If `range` is Some, only include docs matching the filter.
    fn full_rebuild(
        &mut self,
        primary_sstables: &[&SSTableReader],
        range: Option<Filter>,
        block_size: usize,
    ) -> (r: Result<(), SSTableError>)
        ensures
            rebuilt(
                old(self)@,
                tables_of(primary_sstables@),
                range_view(range),
                block_size as nat,
                final(self)@,
                r,
            ),
            reader_follows(
                *old(self),
                *final(self),
                r is Ok && (index_docs(
                    tables_of(primary_sstables@),
                    range_view(range),
                    old(self)@.names,
                ) matches Ok(docs) && docs.len() > 0),
            ),
            final(self).last_used == old(self).last_used,
    {
        let projected = match collect_index(&self.fields, &range, primary_sstables) {
            Ok(projected) => projected,
            Err(e) => {
                return Err(e);
            },
        };
        if projected.len() == 0 {
            return Ok(());
        }
        match write_index(&self.fields, projected, &self.path, block_size) {
            Err(e) => Err(e),
            Ok(reader) => {
                self.reader = reader;
                self.buffer = IndexBuffer::new();
                self.range = range;
                Ok(())
            },
        }
    }

    /// Simple merge: flush buffer entries into the existing index SSTable.
    fn merge_buffer(&mut self, block_size: usize) -> (r: Result<(), SSTableError>)
        ensures
            flushed(old(self)@, block_size as nat, final(self)@, r),
            reader_follows(*old(self), *final(self), r is Ok && old(self)@.pending.len() > 0),
            final(self).last_used == old(self).last_used,
    {
        if self.buffer.len() == 0 {
            return Ok(());
        }
        let mut buffer = IndexBuffer::new();
        std::mem::swap(&mut buffer, &mut self.buffer);
        // Read existing entries
        let mut entries = match self.reader.iter() {
            Ok(entries) => entries,
            Err(e) => {
                return Err(e);
            },
        };
        // Add buffer entries
        buffer.append_to(&mut entries);
        // Merge sort by key, keeping just the blobs (writer will re-extract keys)
        let blobs = sort_entries(&entries);
        match write_index(&self.fields, blobs, &self.path, block_size) {
            Err(e) => Err(e),
            Ok(reader) => {
                self.reader = reader;
                Ok(())
            },
        }
    }
}

} // verus!
