//! The in-memory table.

use crate::bytes::{
    bytes_eq, bytes_lt, lemma_lex_common_prefix, lemma_lex_strict, lemma_lex_total,
    lemma_lex_transitive, lex_le, lex_lt,
};
use crate::document_id::{filled_id, DocumentId};
use crate::iblob::{blob_bytes, content_hash, deleted, valid_doc, Doc, IBlob};
use crate::sstable::error::TableFault;
use crate::sstable::format::{is_table_of, parse_table};
use crate::sstable::keys::{law_mvcc_key_order, KeyExtractor, MvccKeyExtractor};
use crate::sstable::laws::{docs_fit, is_latest_version, law_snapshot_read};
use crate::sstable::reader::table_latest;
use crate::sstable::writer::{blobs_hashed, docs_of, keys_of, table_entries};
use vstd::prelude::*;

verus! {

/// The key of a version: identity, then version.
pub open spec fn doc_key(d: Doc) -> Seq<u8> {
    d.id + d.version
}

/// Whether identities and versions have sixteen bytes and the keys rise strictly.
pub open spec fn versions_sorted(docs: Seq<Doc>) -> bool {
    &&& forall|i: int| 0 <= i < docs.len() ==> valid_doc(#[trigger] docs[i])
    &&& forall|i: int, j: int|
        0 <= i < j < docs.len() ==> lex_lt(
            doc_key(#[trigger] docs[i]),
            doc_key(#[trigger] docs[j]),
        )
}

/// How many leading documents have keys below `key`.
pub open spec fn slot_of_key(docs: Seq<Doc>, key: Seq<u8>) -> int
    decreases docs.len(),
{
    if docs.len() > 0 && lex_lt(doc_key(docs[0]), key) {
        1 + slot_of_key(docs.drop_first(), key)
    } else {
        0
    }
}

/// The documents after one was added, in the place of one with the same key if there is one.
pub open spec fn with_doc(docs: Seq<Doc>, d: Doc) -> Seq<Doc> {
    let at = slot_of_key(docs, doc_key(d));
    if at < docs.len() && doc_key(docs[at]) == doc_key(d) {
        docs.update(at, d)
    } else {
        docs.insert(at, d)
    }
}

/// The last document with an identity and a version up to a snapshot.
pub open spec fn last_visible(docs: Seq<Doc>, id: Seq<u8>, snapshot: Seq<u8>) -> Option<Doc>
    decreases docs.len(),
{
    if docs.len() == 0 {
        None
    } else if docs.last().id == id && lex_le(docs.last().version, snapshot) {
        Some(docs.last())
    } else {
        last_visible(docs.drop_last(), id, snapshot)
    }
}

/// The sum of the sizes of the binary forms.
pub open spec fn total_size(docs: Seq<Doc>) -> int
    decreases docs.len(),
{
    if docs.len() == 0 {
        0
    } else {
        total_size(docs.drop_last()) + blob_bytes(docs.last()).len()
    }
}

/// A sum of sizes as a machine integer holds it.
pub open spec fn wrapped(n: int) -> int {
    n % (usize::MAX + 1)
}

proof fn lemma_slot_of_key(docs: Seq<Doc>, key: Seq<u8>)
    requires
        versions_sorted(docs),
    ensures
        0 <= slot_of_key(docs, key) <= docs.len(),
        forall|i: int|
            0 <= i < slot_of_key(docs, key) ==> lex_lt(doc_key(#[trigger] docs[i]), key),
        forall|i: int|
            slot_of_key(docs, key) <= i < docs.len() ==> lex_le(key, doc_key(#[trigger] docs[i])),
    decreases docs.len(),
{
    if docs.len() > 0 {
        let rest = docs.drop_first();
        if lex_lt(doc_key(docs[0]), key) {
            assert(versions_sorted(rest)) by {
                assert forall|i: int| 0 <= i < rest.len() implies valid_doc(#[trigger] rest[i]) by {
                    assert(rest[i] == docs[i + 1]);
                }
                assert forall|i: int, j: int| 0 <= i < j < rest.len() implies lex_lt(
                    doc_key(#[trigger] rest[i]),
                    doc_key(#[trigger] rest[j]),
                ) by {
                    assert(rest[i] == docs[i + 1] && rest[j] == docs[j + 1]);
                }
            }
            lemma_slot_of_key(rest, key);
            assert forall|i: int| 0 <= i < slot_of_key(docs, key) implies lex_lt(
                doc_key(#[trigger] docs[i]),
                key,
            ) by {
                if i > 0 {
                    assert(docs[i] == rest[i - 1]);
                }
            }
            assert forall|i: int| slot_of_key(docs, key) <= i < docs.len() implies lex_le(
                key,
                doc_key(#[trigger] docs[i]),
            ) by {
                assert(docs[i] == rest[i - 1]);
            }
        } else {
            assert forall|i: int| 0 <= i < docs.len() implies lex_le(
                key,
                doc_key(#[trigger] docs[i]),
            ) by {
                if i > 0 {
                    lemma_lex_transitive(key, doc_key(docs[0]), doc_key(docs[i]));
                    lemma_lex_strict(key, doc_key(docs[i]));
                }
            }
        }
    }
}

/// A slot is known by what lies around it.
proof fn lemma_slot_is(docs: Seq<Doc>, key: Seq<u8>, at: int)
    requires
        versions_sorted(docs),
        0 <= at <= docs.len(),
        at > 0 ==> lex_lt(doc_key(docs[at - 1]), key),
        at < docs.len() ==> lex_le(key, doc_key(docs[at])),
    ensures
        slot_of_key(docs, key) == at,
{
    lemma_slot_of_key(docs, key);
    let s = slot_of_key(docs, key);
    if s < at {
        if s < at - 1 {
            lemma_lex_transitive(doc_key(docs[s]), doc_key(docs[at - 1]), key);
        }
        lemma_lex_strict(doc_key(docs[s]), key);
    }
}

/// Adding a document keeps the keys sorted.
proof fn lemma_with_doc_sorted(docs: Seq<Doc>, d: Doc)
    requires
        versions_sorted(docs),
        valid_doc(d),
    ensures
        versions_sorted(with_doc(docs, d)),
{
    let key = doc_key(d);
    lemma_slot_of_key(docs, key);
    let at = slot_of_key(docs, key);
    let r = with_doc(docs, d);
    let replaced = at < docs.len() && doc_key(docs[at]) == key;
    assert forall|i: int| 0 <= i < r.len() implies valid_doc(#[trigger] r[i]) by {
        if i != at {
            assert(r[i] == docs[if replaced || i < at { i } else { i - 1 }]);
        }
    }
    assert forall|i: int, j: int| 0 <= i < j < r.len() implies lex_lt(
        doc_key(#[trigger] r[i]),
        doc_key(#[trigger] r[j]),
    ) by {
        let i0 = if replaced || i < at { i } else { i - 1 };
        let j0 = if replaced || j < at { j } else { j - 1 };
        if i == at {
            assert(r[j] == docs[j0]);
            if replaced {
                assert(lex_lt(doc_key(docs[at]), doc_key(docs[j0])));
            } else {
                lemma_lex_total(key, doc_key(docs[at]));
                if j0 > at {
                    assert(lex_lt(doc_key(docs[at]), doc_key(docs[j0])));
                    lemma_lex_transitive(key, doc_key(docs[at]), doc_key(docs[j0]));
                }
            }
        } else if j == at {
            assert(r[i] == docs[i]);
        } else {
            assert(r[i] == docs[i0] && r[j] == docs[j0]);
        }
    }
}

/// A document that was added is visible at its own version.
pub proof fn law_get_after_insert(docs: Seq<Doc>, d: Doc)
    requires
        versions_sorted(docs),
        valid_doc(d),
    ensures
        last_visible(with_doc(docs, d), d.id, d.version) == Some(d),
{
    let r = with_doc(docs, d);
    let at = slot_of_key(docs, doc_key(d));
    lemma_slot_of_key(docs, doc_key(d));
    lemma_with_doc_sorted(docs, d);
    assert(r[at] == d);
    assert(r.take(at + 1).last() == d);
    lemma_lex_strict(d.version, d.version);
    lemma_last_visible_prefix(r, d.id, d.version, at + 1);
}

/// Documents whose keys are above that of a snapshot are not visible at it.
proof fn lemma_last_visible_prefix(docs: Seq<Doc>, id: Seq<u8>, snapshot: Seq<u8>, n: int)
    requires
        versions_sorted(docs),
        0 <= n <= docs.len(),
        id.len() == 16,
        forall|i: int|
            n <= i < docs.len() ==> lex_lt(id + snapshot, doc_key(#[trigger] docs[i])) || (n > 0
                && id + snapshot == doc_key(docs[n - 1])),
    ensures
        last_visible(docs, id, snapshot) == last_visible(docs.take(n), id, snapshot),
    decreases docs.len() - n,
{
    if n == docs.len() {
        assert(docs.take(n) =~= docs);
    } else {
        let init = docs.drop_last();
        let last = docs.last();
        assert(last == docs[docs.len() - 1]);
        assert(valid_doc(docs[docs.len() - 1]));
        if n > 0 && id + snapshot == doc_key(docs[n - 1]) {
            assert(lex_lt(doc_key(docs[n - 1]), doc_key(docs[docs.len() - 1])));
        }
        assert(lex_lt(id + snapshot, doc_key(last)));
        if last.id == id {
            lemma_lex_common_prefix(id, snapshot, last.version);
        }
        assert(versions_sorted(init)) by {
            assert forall|i: int| 0 <= i < init.len() implies valid_doc(#[trigger] init[i]) by {
                assert(init[i] == docs[i]);
            }
            assert forall|i: int, j: int| 0 <= i < j < init.len() implies lex_lt(
                doc_key(#[trigger] init[i]),
                doc_key(#[trigger] init[j]),
            ) by {
                assert(init[i] == docs[i] && init[j] == docs[j]);
            }
        }
        assert forall|i: int| n <= i < init.len() implies lex_lt(
            id + snapshot,
            doc_key(#[trigger] init[i]),
        ) || (n > 0 && id + snapshot == doc_key(init[n - 1])) by {
            assert(init[i] == docs[i]);
        }
        lemma_last_visible_prefix(init, id, snapshot, n);
        assert(init.take(n) =~= docs.take(n));
    }
}

/// What a lookup gives is the highest version up to the snapshot.
pub proof fn law_lookup_is_latest(docs: Seq<Doc>, id: Seq<u8>, snapshot: Seq<u8>)
    requires
        versions_sorted(docs),
        id.len() == 16,
    ensures
        is_latest_version(docs, id, snapshot, last_visible(docs, id, snapshot)),
    decreases docs.len(),
{
    if docs.len() > 0 {
        let init = docs.drop_last();
        let last = docs.last();
        let n = docs.len() - 1;
        assert(docs[n] == last);
        assert(valid_doc(docs[n]));
        assert(versions_sorted(init)) by {
            assert forall|i: int| 0 <= i < init.len() implies valid_doc(#[trigger] init[i]) by {
                assert(init[i] == docs[i]);
            }
            assert forall|i: int, j: int| 0 <= i < j < init.len() implies lex_lt(
                doc_key(#[trigger] init[i]),
                doc_key(#[trigger] init[j]),
            ) by {
                assert(init[i] == docs[i] && init[j] == docs[j]);
            }
        }
        law_lookup_is_latest(init, id, snapshot);
        if last.id == id && lex_le(last.version, snapshot) {
            assert forall|i: int|
                0 <= i < docs.len() && (#[trigger] docs[i]).id == id && lex_le(
                    docs[i].version,
                    snapshot,
                ) implies lex_le(docs[i].version, last.version) by {
                lemma_lex_strict(last.version, docs[i].version);
                if i < n {
                    assert(lex_lt(doc_key(docs[i]), doc_key(docs[n])));
                    lemma_lex_common_prefix(id, docs[i].version, last.version);
                }
            }
        } else {
            let r = last_visible(docs, id, snapshot);
            if let Some(d) = r {
                let k = choose|k: int| 0 <= k < init.len() && init[k] == d;
                assert(docs[k] == d);
            }
            assert forall|i: int|
                0 <= i < docs.len() && (#[trigger] docs[i]).id == id && lex_le(
                    docs[i].version,
                    snapshot,
                ) implies r is Some && lex_le(docs[i].version, r->Some_0.version) by {
                assert(init[i] == docs[i]);
            }
        }
    }
}

/// The size is at most changed by the size of what was added and replaced.
proof fn lemma_size_of_insert(docs: Seq<Doc>, at: int, d: Doc)
    requires
        0 <= at <= docs.len(),
    ensures
        total_size(docs.insert(at, d)) == total_size(docs) + blob_bytes(d).len(),
    decreases docs.len(),
{
    let r = docs.insert(at, d);
    if at == docs.len() {
        assert(r.drop_last() =~= docs);
    } else {
        assert(r.drop_last() =~= docs.drop_last().insert(at, d));
        assert(r.last() == docs.last());
        lemma_size_of_insert(docs.drop_last(), at, d);
    }
}

proof fn lemma_size_of_update(docs: Seq<Doc>, at: int, d: Doc)
    requires
        0 <= at < docs.len(),
    ensures
        total_size(docs.update(at, d)) == total_size(docs) - blob_bytes(docs[at]).len()
            + blob_bytes(d).len(),
    decreases docs.len(),
{
    let r = docs.update(at, d);
    if at == docs.len() - 1 {
        assert(r.drop_last() =~= docs.drop_last());
    } else {
        assert(r.drop_last() =~= docs.drop_last().update(at, d));
        lemma_size_of_update(docs.drop_last(), at, d);
    }
}

proof fn lemma_wrapping_add(a: int, x: usize, y: usize)
    requires
        x == wrapped(a),
    ensures
        x.wrapping_add(y) == wrapped(a + y),
{
    let m = usize::MAX + 1;
    vstd::arithmetic::div_mod::lemma_add_mod_noop(a, y as int, m);
    vstd::arithmetic::div_mod::lemma_small_mod(y as nat, m as nat);
    if x + y < m {
        vstd::arithmetic::div_mod::lemma_small_mod((x + y) as nat, m as nat);
    } else {
        vstd::arithmetic::div_mod::lemma_mod_sub_multiples_vanish(x + y, m);
        vstd::arithmetic::div_mod::lemma_small_mod((x + y - m) as nat, m as nat);
    }
}

proof fn lemma_wrapping_sub(a: int, x: usize, y: usize)
    requires
        x == wrapped(a),
    ensures
        x.wrapping_sub(y) == wrapped(a - y),
{
    let m = usize::MAX + 1;
    vstd::arithmetic::div_mod::lemma_sub_mod_noop(a, y as int, m);
    vstd::arithmetic::div_mod::lemma_small_mod(y as nat, m as nat);
    if x >= y {
        vstd::arithmetic::div_mod::lemma_small_mod((x - y) as nat, m as nat);
    } else {
        vstd::arithmetic::div_mod::lemma_mod_add_multiples_vanish(x - y, m);
        vstd::arithmetic::div_mod::lemma_small_mod((x - y + m) as nat, m as nat);
    }
}

/// Whether the key of a version is below another.
fn key_before(
    id: &DocumentId,
    version: &DocumentId,
    other_id: &DocumentId,
    other_version: &DocumentId,
) -> (r: bool)
    ensures
        r == lex_lt(id@ + version@, other_id@ + other_version@),
{
    proof {
        let a = Doc { id: id@, version: version@, flags: 0, fields: seq![] };
        let b = Doc { id: other_id@, version: other_version@, flags: 0, fields: seq![] };
        law_mvcc_key_order(a, b);
        assert(MvccKeyExtractor.key_of(a) == id@ + version@);
        assert(MvccKeyExtractor.key_of(b) == other_id@ + other_version@);
    }
    bytes_lt(id.as_bytes(), other_id.as_bytes()) || (bytes_eq(
        id.as_bytes(),
        other_id.as_bytes(),
    ) && bytes_lt(version.as_bytes(), other_version.as_bytes()))
}

/// Puts a blob into its slot, in the place of one with the same key. Returns the new size.
fn put_sorted(entries: &mut Vec<IBlob>, size: usize, at: usize, blob: IBlob) -> (r: usize)
    requires
        versions_sorted(docs_of(old(entries)@)),
        valid_doc(blob@),
        at == slot_of_key(docs_of(old(entries)@), doc_key(blob@)),
        size == wrapped(total_size(docs_of(old(entries)@))),
        blobs_hashed(old(entries)@),
    ensures
        docs_of(final(entries)@) == with_doc(docs_of(old(entries)@), blob@),
        blobs_hashed(final(entries)@),
        versions_sorted(docs_of(final(entries)@)),
        r == wrapped(total_size(docs_of(final(entries)@))),
{
    let ghost docs = docs_of(entries@);
    let ghost d = blob@;
    proof {
        lemma_slot_of_key(docs, doc_key(d));
        lemma_with_doc_sorted(docs, d);
    }
    let mut blob = blob;
    let encoded_size: usize = blob.encode().len();
    let mut present: bool = false;
    if at < entries.len() {
        let entry = &entries[at];
        assert(docs[at as int] == entry@);
        proof {
            lemma_lex_total(doc_key(d), doc_key(entry@));
            lemma_lex_strict(doc_key(d), doc_key(entry@));
        }
        present = !key_before(blob.id(), blob.version(), entry.id(), entry.version());
    }
    let mut rest: usize = size;
    if present {
        // Same _id + _version (unlikely but possible on replay): adjust size
        let mut replaced = entries.remove(at);
        let replaced_size: usize = replaced.encode().len();
        proof {
            lemma_size_of_update(docs, at as int, d);
            lemma_wrapping_sub(total_size(docs), size, replaced_size);
            lemma_wrapping_add(
                total_size(docs) - replaced_size,
                size.wrapping_sub(replaced_size),
                encoded_size,
            );
        }
        rest = size.wrapping_sub(replaced_size);
    } else {
        proof {
            lemma_size_of_insert(docs, at as int, d);
            lemma_wrapping_add(total_size(docs), size, encoded_size);
        }
    }
    let ghost kept = entries@;
    let ghost added = blob;
    entries.insert(at, blob);
    proof {
        assert(docs_of(entries@) =~= with_doc(docs, d));
        assert(entries@ == kept.insert(at as int, added));
        assert forall|i: int| 0 <= i < entries@.len() implies (
        #[trigger] entries@[i]).held_hash() == content_hash(entries@[i]@) by {
            if i < at {
                assert(entries@[i] == kept[i]);
            } else if i > at {
                assert(entries@[i] == kept[i - 1]);
            }
        }
    }
    rest.wrapping_add(encoded_size)
}

/// In-memory sorted table of IBlobs keyed by `(_id, _version)`.
///
/// Multiple versions of the same document coexist (MVCC).
/// Tracks approximate memory usage and signals when it should be flushed to an SSTable.
pub struct MemTable {
    /// Entries sorted by (_id, _version) for multi-version support
    entries: Vec<IBlob>,
    /// Approximate bytes used (sum of encoded blob sizes)
    size_bytes: usize,
    /// Flush threshold in bytes
    max_size: usize,
}

impl View for MemTable {
    type V = Seq<Doc>;

    closed spec fn view(&self) -> Seq<Doc> {
        docs_of(self.entries@)
    }
}

/// Iterator over memtable entries in (_id, _version) order.
pub struct MemTableIter {
    entries: Vec<(DocumentId, IBlob)>,
    pos: usize,
}

/// The identities and documents of some pairs.
pub open spec fn pair_docs(pairs: Seq<(DocumentId, IBlob)>) -> Seq<(Seq<u8>, Doc)> {
    Seq::new(pairs.len(), |i: int| (pairs[i].0@, pairs[i].1@))
}

/// Documents with their identities.
pub open spec fn with_ids(docs: Seq<Doc>) -> Seq<(Seq<u8>, Doc)> {
    Seq::new(docs.len(), |i: int| (docs[i].id, docs[i]))
}

impl View for MemTableIter {
    type V = Seq<(Seq<u8>, Doc)>;

    /// What is still to come.
    closed spec fn view(&self) -> Seq<(Seq<u8>, Doc)> {
        pair_docs(self.entries@).skip(self.pos as int)
    }
}

impl MemTableIter {
    #[verifier::type_invariant]
    spec fn well_formed(self) -> bool {
        &&& self.pos <= self.entries@.len()
        &&& forall|i: int|
            0 <= i < self.entries@.len() ==> (#[trigger] self.entries@[i]).1.held_hash()
                == content_hash(self.entries@[i].1@)
    }

    /// The next entry.
    pub fn next(&mut self) -> (r: Option<(DocumentId, IBlob)>)
        ensures
            match r {
                Some(pair) => old(self)@.len() > 0 && (pair.0@, pair.1@) == old(self)@[0]
                    && pair.1.held_hash() == content_hash(pair.1@) && final(self)@ == old(
                    self,
                )@.drop_first(),
                None => old(self)@.len() == 0 && final(self)@ == old(self)@,
            },
    {
        proof {
            use_type_invariant(&*self);
        }
        if self.pos < self.entries.len() {
            let item = (self.entries[self.pos].0, self.entries[self.pos].1.clone());
            let ghost all = pair_docs(self.entries@);
            self.pos = self.pos + 1;
            assert(all.skip(self.pos - 1).drop_first() =~= all.skip(self.pos as int));
            Some(item)
        } else {
            None
        }
    }
}

impl MemTable {
    #[verifier::type_invariant]
    pub open spec fn well_formed(self) -> bool {
        versions_sorted(self@) && self.used() == wrapped(total_size(self@)) && self.hashed()
    }

    /// Whether each document in this table has its hash.
    pub closed spec fn hashed(&self) -> bool {
        blobs_hashed(self.entries@)
    }

    /// The size that this table keeps.
    pub closed spec fn used(&self) -> usize {
        self.size_bytes
    }

    /// The size from which this table should be flushed.
    pub closed spec fn limit(&self) -> usize {
        self.max_size
    }

    /// Create a new MemTable with the given flush threshold.
    pub fn new(max_size: usize) -> (table: Self)
        ensures
            table@ == Seq::<Doc>::empty(),
            table.used() == 0,
            table.limit() == max_size,
    {
        let entries: Vec<IBlob> = Vec::new();
        assert(docs_of(entries@) =~= seq![]);
        proof {
            vstd::arithmetic::div_mod::lemma_small_mod(0, (usize::MAX + 1) as nat);
        }
        MemTable { entries, size_bytes: 0, max_size }
    }

    /// Default MemTable with 64 MB threshold.
    pub fn with_default_size() -> (table: Self)
        ensures
            table@ == Seq::<Doc>::empty(),
            table.used() == 0,
            table.limit() == 64 * 1024 * 1024,
    {
        Self::new(64 * 1024 * 1024)
    }

    /// How many entries have keys below that of a version.
    fn find(&self, id: &DocumentId, version: &DocumentId) -> (at: usize)
        ensures
            at == slot_of_key(self@, id@ + version@),
            at <= self@.len(),
    {
        proof {
            use_type_invariant(self);
        }
        let mut lo: usize = 0;
        let mut hi: usize = self.entries.len();
        while lo < hi
            invariant
                lo <= hi <= self@.len(),
                self@ == docs_of(self.entries@),
                versions_sorted(self@),
                lo > 0 ==> lex_lt(doc_key(self@[lo - 1]), id@ + version@),
                hi < self@.len() ==> lex_le(id@ + version@, doc_key(self@[hi as int])),
            decreases hi - lo,
        {
            let mid: usize = lo + (hi - lo) / 2;
            let entry = &self.entries[mid];
            assert(self@[mid as int] == entry@);
            if key_before(entry.id(), entry.version(), id, version) {
                lo = mid + 1;
            } else {
                hi = mid;
            }
        }
        proof {
            lemma_slot_is(self@, id@ + version@, lo as int);
        }
        lo
    }

    /// Insert a blob. Multiple versions of the same _id coexist.
    /// Returns true if the memtable should be flushed.
    pub fn insert(&mut self, blob: IBlob) -> (flush: bool)
        ensures
            final(self)@ == with_doc(old(self)@, blob@),
            final(self).used() == wrapped(total_size(final(self)@)),
            final(self).limit() == old(self).limit(),
            flush == (final(self).used() >= final(self).limit()),
    {
        proof {
            use_type_invariant(&*self);
            use_type_invariant(&blob);
        }
        let at: usize = self.find(blob.id(), blob.version());
        let max_size: usize = self.max_size;
        let mut table = MemTable::new(max_size);
        std::mem::swap(&mut table, self);
        let mut entries = table.entries;
        let size: usize = put_sorted(&mut entries, table.size_bytes, at, blob);
        *self = MemTable { entries, size_bytes: size, max_size };
        size >= max_size
    }

    /// Where the latest version of a document visible at `snapshot` is.
    fn find_visible(&self, id: &DocumentId, snapshot: &DocumentId) -> (r: Option<usize>)
        ensures
            match r {
                Some(i) => i < self@.len() && last_visible(self@, id@, snapshot@) == Some(
                    self@[i as int],
                ),
                None => last_visible(self@, id@, snapshot@) is None,
            },
    {
        proof {
            use_type_invariant(self);
            lemma_slot_of_key(self@, id@ + snapshot@);
        }
        let ghost docs = self@;
        let mut at: usize = self.find(id, snapshot);
        // the version of the snapshot itself is visible
        if at < self.entries.len() {
            let entry = &self.entries[at];
            assert(docs[at as int] == entry@);
            proof {
                lemma_lex_total(id@ + snapshot@, doc_key(entry@));
                lemma_lex_strict(id@ + snapshot@, doc_key(entry@));
            }
            if !key_before(id, snapshot, entry.id(), entry.version()) {
                at += 1;
            }
        }
        proof {
            assert forall|i: int| at <= i < docs.len() implies lex_lt(
                id@ + snapshot@,
                doc_key(#[trigger] docs[i]),
            ) || (at > 0 && id@ + snapshot@ == doc_key(docs[at - 1])) by {
                if i > at {
                    assert(lex_lt(doc_key(docs[at as int]), doc_key(docs[i])));
                    lemma_lex_transitive(
                        id@ + snapshot@,
                        doc_key(docs[at as int]),
                        doc_key(docs[i]),
                    );
                }
            }
            lemma_last_visible_prefix(docs, id@, snapshot@, at as int);
        }
        if at == 0 {
            assert(docs.take(0) =~= seq![]);
            return None;
        }
        let entry = &self.entries[at - 1];
        proof {
            let front = docs.take(at as int);
            assert(docs[at - 1] == entry@);
            assert(front.last() == entry@);
            assert(versions_sorted(front)) by {
                assert forall|i: int| 0 <= i < front.len() implies valid_doc(
                    #[trigger] front[i],
                ) by {
                    assert(front[i] == docs[i]);
                }
                assert forall|i: int, j: int| 0 <= i < j < front.len() implies lex_lt(
                    doc_key(#[trigger] front[i]),
                    doc_key(#[trigger] front[j]),
                ) by {
                    assert(front[i] == docs[i] && front[j] == docs[j]);
                }
            }
            lemma_lex_strict(doc_key(entry@), id@ + snapshot@);
            lemma_visible_last(front, id@, snapshot@);
        }
        if bytes_eq(entry.id().as_bytes(), id.as_bytes()) {
            Some(at - 1)
        } else {
            None
        }
    }

    /// Look up the latest version of a document visible at `snapshot`.
    /// Returns the highest _version <= snapshot for the given _id.
    pub fn get(&self, id: &DocumentId, snapshot: &DocumentId) -> (r: Option<IBlob>)
        ensures
            match r {
                Some(blob) => last_visible(self@, id@, snapshot@) == Some(blob@)
                    && blob.held_hash() == content_hash(blob@),
                None => last_visible(self@, id@, snapshot@) is None,
            },
    {
        proof {
            use_type_invariant(self);
        }
        match self.find_visible(id, snapshot) {
            Some(i) => Some(self.entries[i].clone()),
            None => None,
        }
    }

    /// Look up the latest version of a document (any version).
    pub fn get_latest(&self, id: &DocumentId) -> (r: Option<IBlob>)
        ensures
            match r {
                Some(blob) => last_visible(self@, id@, filled_id(0xFF)) == Some(blob@)
                    && blob.held_hash() == content_hash(blob@),
                None => last_visible(self@, id@, filled_id(0xFF)) is None,
            },
    {
        self.get(id, &DocumentId::max())
    }

    /// Check if a document ID exists in the memtable (any version).
    pub fn contains(&self, id: &DocumentId) -> (r: bool)
        ensures
            r == exists|i: int| 0 <= i < self@.len() && (#[trigger] self@[i]).id == id@,
    {
        proof {
            use_type_invariant(self);
            law_lookup_is_latest(self@, id@, filled_id(0xFF));
        }
        match self.find_visible(id, &DocumentId::max()) {
            Some(i) => {
                assert(self@[i as int].id == id@);
                true
            },
            None => {
                assert forall|i: int| 0 <= i < self@.len() implies (#[trigger] self@[i]).id
                    != id@ by {
                    assert(valid_doc(self@[i]));
                    lemma_below_max(self@[i].version);
                }
                false
            },
        }
    }

    /// Number of entries (including all versions).
    pub fn len(&self) -> (n: usize)
        ensures
            n == self@.len(),
    {
        self.entries.len()
    }

    /// Whether the memtable is empty.
    pub fn is_empty(&self) -> (r: bool)
        ensures
            r == (self@.len() == 0),
    {
        self.entries.len() == 0
    }

    /// Approximate size in bytes.
    pub fn size_bytes(&self) -> (n: usize)
        ensures
            n == self.used(),
            n == wrapped(total_size(self@)),
    {
        proof {
            use_type_invariant(self);
        }
        self.size_bytes
    }

    /// Whether the memtable has reached its flush threshold.
    pub fn should_flush(&self) -> (r: bool)
        ensures
            r == (self.used() >= self.limit()),
    {
        self.size_bytes >= self.max_size
    }

    /// Drain all entries for flushing to an SSTable.
    /// Returns all versions, sorted by (_id, _version).
    pub fn drain(&mut self) -> (blobs: Vec<IBlob>)
        ensures
            docs_of(blobs@) == old(self)@,
            versions_sorted(docs_of(blobs@)),
            blobs_hashed(blobs@),
            final(self)@ == Seq::<Doc>::empty(),
            final(self).used() == 0,
            final(self).limit() == old(self).limit(),
    {
        proof {
            use_type_invariant(&*self);
        }
        let mut table = MemTable::new(self.max_size);
        std::mem::swap(&mut table, self);
        table.entries
    }

    /// Create an iterator over entries. Returns (_id, IBlob) pairs.
    /// Includes all versions.
    pub fn iter(&self) -> (r: MemTableIter)
        ensures
            r@ == with_ids(self@),
    {
        proof {
            use_type_invariant(self);
        }
        let n: usize = self.entries.len();
        let mut entries: Vec<(DocumentId, IBlob)> = Vec::new();
        let mut i: usize = 0;
        while i < n
            invariant
                n == self.entries@.len(),
                i <= n,
                entries@.len() == i,
                forall|j: int|
                    0 <= j < i ==> (#[trigger] entries@[j]).0@ == self.entries@[j]@.id
                        && entries@[j].1@ == self.entries@[j]@ && entries@[j].1.held_hash()
                        == content_hash(entries@[j].1@),
                blobs_hashed(self.entries@),
            decreases n - i,
        {
            entries.push((*self.entries[i].id(), self.entries[i].clone()));
            i += 1;
        }
        let r = MemTableIter { entries, pos: 0 };
        assert(r@ =~= with_ids(self@));
        r
    }
}

/// Every version of sixteen bytes is at most the greatest.
proof fn lemma_below_max(version: Seq<u8>)
    requires
        version.len() == 16,
    ensures
        lex_le(version, filled_id(0xFF)),
{
    lemma_below_ones(version, filled_id(0xFF));
}

proof fn lemma_below_ones(a: Seq<u8>, b: Seq<u8>)
    requires
        a.len() == b.len(),
        forall|i: int| 0 <= i < b.len() ==> #[trigger] b[i] == 0xFF,
    ensures
        lex_le(a, b),
    decreases a.len(),
{
    if a.len() > 0 {
        lemma_below_ones(a.drop_first(), b.drop_first());
    }
}

/// Where the last of some sorted documents is not above a snapshot, its identity decides
/// whether a version is visible.
proof fn lemma_visible_last(docs: Seq<Doc>, id: Seq<u8>, snapshot: Seq<u8>)
    requires
        versions_sorted(docs),
        docs.len() > 0,
        id.len() == 16,
        lex_le(doc_key(docs.last()), id + snapshot),
    ensures
        last_visible(docs, id, snapshot) == (if docs.last().id == id {
            Some(docs.last())
        } else {
            None
        }),
{
    let last = docs.last();
    let n = docs.len() - 1;
    assert(docs[n] == last && valid_doc(docs[n]));
    if last.id == id {
        lemma_lex_common_prefix(id, snapshot, last.version);
    } else {
        law_lookup_is_latest(docs, id, snapshot);
        if let Some(d) = last_visible(docs, id, snapshot) {
            let i = choose|i: int| 0 <= i < docs.len() && docs[i] == d;
            assert(lex_lt(doc_key(docs[i]), doc_key(docs[n])));
            let bound = Doc { id, version: snapshot, flags: 0, fields: seq![] };
            law_mvcc_key_order(d, last);
            law_mvcc_key_order(bound, last);
            lemma_lex_total(id, last.id);
        }
    }
}

/// Where keys rise strictly, there is one latest version.
proof fn lemma_latest_version_unique(
    docs: Seq<Doc>,
    id: Seq<u8>,
    snapshot: Seq<u8>,
    a: Option<Doc>,
    b: Option<Doc>,
)
    requires
        versions_sorted(docs),
        is_latest_version(docs, id, snapshot, a),
        is_latest_version(docs, id, snapshot, b),
    ensures
        a == b,
{
    if let Some(d) = a {
        let i = choose|i: int| 0 <= i < docs.len() && docs[i] == d;
        assert(docs[i].id == id);
        if let Some(e) = b {
            let j = choose|j: int| 0 <= j < docs.len() && docs[j] == e;
            assert(docs[j].id == id);
            lemma_lex_total(d.version, e.version);
            lemma_lex_strict(doc_key(d), doc_key(e));
            lemma_lex_strict(doc_key(e), doc_key(d));
        }
    } else if let Some(e) = b {
        let j = choose|j: int| 0 <= j < docs.len() && docs[j] == e;
        assert(docs[j].id == id);
    }
}

/// The documents of a table stand in the order of their identities, and the versions of one
/// document from the oldest to the newest.
pub proof fn law_versions_are_ordered(docs: Seq<Doc>, i: int, j: int)
    requires
        versions_sorted(docs),
        0 <= i < j < docs.len(),
    ensures
        lex_lt(docs[i].id, docs[j].id) || (docs[i].id == docs[j].id && lex_lt(
            docs[i].version,
            docs[j].version,
        )),
{
    assert(lex_lt(doc_key(docs[i]), doc_key(docs[j])));
    assert(valid_doc(docs[i]) && valid_doc(docs[j]));
    law_mvcc_key_order(docs[i], docs[j]);
}

/// Adding a document leaves every other version in the table, those of the same document as
/// well as those of others. It takes the place only of the same version of the same document,
/// and nothing else comes in.
pub proof fn law_insert_keeps_other_versions(docs: Seq<Doc>, d: Doc)
    requires
        versions_sorted(docs),
        valid_doc(d),
    ensures
        versions_sorted(with_doc(docs, d)),
        forall|e: Doc| #[trigger]
            with_doc(docs, d).contains(e) <==> e == d || (docs.contains(e) && !(e.id == d.id
                && e.version == d.version)),
        with_doc(docs, d).len() == docs.len() + (if exists|i: int|
            0 <= i < docs.len() && (#[trigger] docs[i]).id == d.id && docs[i].version == d.version {
            0int
        } else {
            1
        }),
{
    let r = with_doc(docs, d);
    let at = slot_of_key(docs, doc_key(d));
    lemma_slot_of_key(docs, doc_key(d));
    lemma_with_doc_sorted(docs, d);
    let replaced = at < docs.len() && doc_key(docs[at]) == doc_key(d);
    assert(r[at] == d);
    assert forall|i: int| 0 <= i < docs.len() implies ((#[trigger] docs[i]).id == d.id
        && docs[i].version == d.version <==> replaced && i == at) by {
        lemma_same_key(docs[i], d);
        lemma_lex_strict(doc_key(d), doc_key(d));
        if i != at && replaced {
            lemma_same_key(docs[at], d);
            if i < at {
                assert(lex_lt(doc_key(docs[i]), doc_key(docs[at])));
            } else {
                assert(lex_lt(doc_key(docs[at]), doc_key(docs[i])));
            }
        } else if i > at && doc_key(docs[i]) == doc_key(d) {
            assert(lex_lt(doc_key(docs[at]), doc_key(docs[i])));
        }
    }
    assert forall|e: Doc| #[trigger]
        r.contains(e) <==> e == d || (docs.contains(e) && !(e.id == d.id && e.version
            == d.version)) by {
        if r.contains(e) {
            let i = choose|i: int| 0 <= i < r.len() && r[i] == e;
            if i != at {
                assert(e == docs[if replaced || i < at { i } else { i - 1 }]);
            }
        }
        if docs.contains(e) && !(e.id == d.id && e.version == d.version) {
            let i = choose|i: int| 0 <= i < docs.len() && docs[i] == e;
            assert(r[if replaced || i < at { i } else { i + 1 }] == e);
        }
    }
    if replaced {
        assert(docs[at].id == d.id && docs[at].version == d.version);
    }
}

/// Keys are equal where identities and versions are.
proof fn lemma_same_key(a: Doc, b: Doc)
    requires
        valid_doc(a),
        valid_doc(b),
    ensures
        doc_key(a) == doc_key(b) <==> a.id == b.id && a.version == b.version,
{
    if doc_key(a) == doc_key(b) {
        assert(doc_key(a).take(16) =~= a.id && doc_key(b).take(16) =~= b.id);
        assert(doc_key(a).skip(16) =~= a.version && doc_key(b).skip(16) =~= b.version);
    }
}

/// Adding a document changes what is read only where the document itself is what is read: at
/// its identity, at snapshots from its version on, up to the next newer version. There the
/// document is read. Every other read gives what it gave before.
pub proof fn law_insert_changes_only_its_reads(
    docs: Seq<Doc>,
    d: Doc,
    id: Seq<u8>,
    snapshot: Seq<u8>,
)
    requires
        versions_sorted(docs),
        valid_doc(d),
        id.len() == 16,
    ensures
        last_visible(with_doc(docs, d), id, snapshot) == (if id == d.id && lex_le(
            d.version,
            snapshot,
        ) && forall|i: int|
            0 <= i < docs.len() && (#[trigger] docs[i]).id == id && lex_lt(
                d.version,
                docs[i].version,
            ) ==> !lex_le(docs[i].version, snapshot) {
            Some(d)
        } else {
            last_visible(docs, id, snapshot)
        }),
{
    let r = with_doc(docs, d);
    law_insert_keeps_other_versions(docs, d);
    law_lookup_is_latest(docs, id, snapshot);
    law_lookup_is_latest(r, id, snapshot);
    let new = last_visible(r, id, snapshot);
    let old = last_visible(docs, id, snapshot);
    assert(r.contains(d));
    let k = choose|k: int| 0 <= k < r.len() && r[k] == d;
    let sees = id == d.id && lex_le(d.version, snapshot);
    if sees && forall|i: int|
        0 <= i < docs.len() && (#[trigger] docs[i]).id == id && lex_lt(d.version, docs[i].version)
            ==> !lex_le(docs[i].version, snapshot) {
        assert(r[k].id == id);
        let g = new->Some_0;
        if g != d {
            assert(r.contains(g));
            assert(docs.contains(g));
            let i = choose|i: int| 0 <= i < docs.len() && docs[i] == g;
            assert(docs[i].id == id);
            lemma_lex_total(d.version, g.version);
        }
    } else {
        if sees {
            let i = choose|i: int|
                0 <= i < docs.len() && (#[trigger] docs[i]).id == id && lex_lt(
                    d.version,
                    docs[i].version,
                ) && lex_le(docs[i].version, snapshot);
            let f = docs[i];
            lemma_lex_strict(d.version, d.version);
            assert(docs.contains(f));
            assert(r.contains(f));
            let m = choose|m: int| 0 <= m < r.len() && r[m] == f;
            assert(r[m].id == id);
            if new == Some(d) {
                assert(lex_le(f.version, d.version));
            }
            if old is Some && old->Some_0.version == d.version {
                assert(lex_le(f.version, d.version));
            }
        }
        if let Some(e) = old {
            assert(docs.contains(e));
            assert(!(e.id == d.id && e.version == d.version));
            assert(r.contains(e));
            let m = choose|m: int| 0 <= m < r.len() && r[m] == e;
            assert(r[m].id == id);
        }
        if let Some(g) = new {
            assert(r.contains(g));
            assert(g != d);
            assert(docs.contains(g));
            let m = choose|m: int| 0 <= m < docs.len() && docs[m] == g;
            assert(docs[m].id == id);
            let e = old->Some_0;
            let n = choose|n: int| 0 <= n < docs.len() && docs[n] == e;
            lemma_lex_total(e.version, g.version);
            if m < n {
                law_versions_are_ordered(docs, m, n);
                lemma_lex_strict(e.id, e.id);
            } else if n < m {
                law_versions_are_ordered(docs, n, m);
                lemma_lex_strict(e.id, e.id);
            }
        }
    }
}

/// A document that was deleted reads as deleted from the version of the deletion on, until a
/// newer version is written, and as it was at every earlier snapshot.
pub proof fn law_delete_hides_document(docs: Seq<Doc>, d: Doc, snapshot: Seq<u8>)
    requires
        versions_sorted(docs),
        valid_doc(d),
        deleted(d),
    ensures
        lex_lt(snapshot, d.version) ==> last_visible(with_doc(docs, d), d.id, snapshot)
            == last_visible(docs, d.id, snapshot),
        lex_le(d.version, snapshot) && (forall|i: int|
            0 <= i < docs.len() && (#[trigger] docs[i]).id == d.id ==> lex_le(
                docs[i].version,
                d.version,
            )) ==> last_visible(with_doc(docs, d), d.id, snapshot) == Some(d),
{
    law_insert_changes_only_its_reads(docs, d, d.id, snapshot);
}

/// Adding versions in another order gives the same table.
pub proof fn law_inserts_commute(docs: Seq<Doc>, a: Doc, b: Doc)
    requires
        versions_sorted(docs),
        valid_doc(a),
        valid_doc(b),
        a.id != b.id || a.version != b.version,
    ensures
        with_doc(with_doc(docs, a), b) == with_doc(with_doc(docs, b), a),
{
    law_insert_keeps_other_versions(docs, a);
    law_insert_keeps_other_versions(docs, b);
    law_insert_keeps_other_versions(with_doc(docs, a), b);
    law_insert_keeps_other_versions(with_doc(docs, b), a);
    let x = with_doc(with_doc(docs, a), b);
    let y = with_doc(with_doc(docs, b), a);
    assert forall|e: Doc| #[trigger] x.contains(e) implies y.contains(e) by {
        assert(with_doc(docs, a).contains(e) || e == b);
        assert(with_doc(docs, b).contains(e) || e == a);
    }
    assert forall|e: Doc| #[trigger] y.contains(e) implies x.contains(e) by {
        assert(with_doc(docs, a).contains(e) || e == b);
        assert(with_doc(docs, b).contains(e) || e == a);
    }
    lemma_same_elements(x, y);
}

/// Tables with the same documents are the same.
proof fn lemma_same_elements(x: Seq<Doc>, y: Seq<Doc>)
    requires
        versions_sorted(x),
        versions_sorted(y),
        forall|e: Doc| #[trigger] x.contains(e) ==> y.contains(e),
        forall|e: Doc| #[trigger] y.contains(e) ==> x.contains(e),
    ensures
        x == y,
    decreases x.len(),
{
    if x.len() == 0 {
        if y.len() > 0 {
            assert(y.contains(y[0]));
        }
    } else {
        assert(x.contains(x.last()));
        assert(y.len() > 0);
        assert(y.contains(y.last()));
        let i = choose|i: int| 0 <= i < y.len() && y[i] == x.last();
        let j = choose|j: int| 0 <= j < x.len() && x[j] == y.last();
        lemma_lex_strict(doc_key(x.last()), doc_key(y.last()));
        if i < y.len() - 1 {
            assert(lex_lt(doc_key(y[i]), doc_key(y[y.len() - 1])));
            if j < x.len() - 1 {
                assert(lex_lt(doc_key(x[j]), doc_key(x[x.len() - 1])));
            }
        }
        assert(x.last() == y.last());
        let x0 = x.drop_last();
        let y0 = y.drop_last();
        lemma_prefix_sorted(x);
        lemma_prefix_sorted(y);
        lemma_lex_strict(doc_key(x.last()), doc_key(x.last()));
        assert forall|e: Doc| #[trigger] x0.contains(e) implies y0.contains(e) by {
            let m = choose|m: int| 0 <= m < x0.len() && x0[m] == e;
            assert(x[m] == e);
            assert(lex_lt(doc_key(x[m]), doc_key(x[x.len() - 1])));
            assert(x.contains(e));
            let n = choose|n: int| 0 <= n < y.len() && y[n] == e;
            assert(y0[n] == e);
        }
        assert forall|e: Doc| #[trigger] y0.contains(e) implies x0.contains(e) by {
            let m = choose|m: int| 0 <= m < y0.len() && y0[m] == e;
            assert(y[m] == e);
            assert(lex_lt(doc_key(y[m]), doc_key(y[y.len() - 1])));
            assert(y.contains(e));
            let n = choose|n: int| 0 <= n < x.len() && x[n] == e;
            assert(x0[n] == e);
        }
        lemma_same_elements(x0, y0);
        assert(x =~= x0.push(x.last()));
        assert(y =~= y0.push(y.last()));
    }
}

proof fn lemma_prefix_sorted(docs: Seq<Doc>)
    requires
        versions_sorted(docs),
        docs.len() > 0,
    ensures
        versions_sorted(docs.drop_last()),
{
    let init = docs.drop_last();
    assert forall|i: int| 0 <= i < init.len() implies valid_doc(#[trigger] init[i]) by {
        assert(init[i] == docs[i]);
    }
    assert forall|i: int, j: int| 0 <= i < j < init.len() implies lex_lt(
        doc_key(#[trigger] init[i]),
        doc_key(#[trigger] init[j]),
    ) by {
        assert(init[i] == docs[i] && init[j] == docs[j]);
    }
}

/// A lookup without a snapshot gives the newest version of all, and nothing only where the
/// table has no version of the document.
pub proof fn law_latest_is_newest(docs: Seq<Doc>, id: Seq<u8>)
    requires
        versions_sorted(docs),
        id.len() == 16,
    ensures
        match last_visible(docs, id, filled_id(0xFF)) {
            Some(d) => docs.contains(d) && d.id == id && forall|i: int|
                0 <= i < docs.len() && (#[trigger] docs[i]).id == id ==> lex_le(
                    docs[i].version,
                    d.version,
                ),
            None => forall|i: int| 0 <= i < docs.len() ==> (#[trigger] docs[i]).id != id,
        },
{
    law_lookup_is_latest(docs, id, filled_id(0xFF));
    assert forall|i: int| 0 <= i < docs.len() implies lex_le(
        (#[trigger] docs[i]).version,
        filled_id(0xFF),
    ) by {
        assert(valid_doc(docs[i]));
        lemma_no_version_above_all(docs[i].version, 16);
        assert(filled_id(0xFF) =~= Seq::new(16, |k: int| 0xFFu8));
    }
}

proof fn lemma_no_version_above_all(version: Seq<u8>, n: nat)
    requires
        version.len() == n,
    ensures
        lex_le(version, Seq::new(n, |i: int| 0xFFu8)),
    decreases n,
{
    if n > 0 {
        lemma_no_version_above_all(version.drop_first(), (n - 1) as nat);
        assert(Seq::new(n, |i: int| 0xFFu8).drop_first() =~= Seq::new(
            (n - 1) as nat,
            |i: int| 0xFFu8,
        ));
    }
}

/// The size of a table is the sum of the sizes of its documents: adding one adds its size, less
/// that of the version whose place it takes.
pub proof fn law_size_counts_documents(docs: Seq<Doc>, d: Doc)
    requires
        versions_sorted(docs),
        valid_doc(d),
    ensures
        total_size(Seq::<Doc>::empty()) == 0,
        (forall|i: int|
            0 <= i < docs.len() ==> !((#[trigger] docs[i]).id == d.id && docs[i].version
                == d.version)) ==> total_size(with_doc(docs, d)) == total_size(docs) + blob_bytes(
            d,
        ).len(),
        forall|i: int|
            0 <= i < docs.len() && (#[trigger] docs[i]).id == d.id && docs[i].version == d.version
                ==> total_size(with_doc(docs, d)) == total_size(docs) - blob_bytes(docs[i]).len()
                + blob_bytes(d).len(),
{
    let at = slot_of_key(docs, doc_key(d));
    lemma_slot_of_key(docs, doc_key(d));
    let replaced = at < docs.len() && doc_key(docs[at]) == doc_key(d);
    if replaced {
        lemma_size_of_update(docs, at, d);
        lemma_same_key(docs[at], d);
    } else {
        lemma_size_of_insert(docs, at, d);
    }
    assert forall|i: int|
        0 <= i < docs.len() && (#[trigger] docs[i]).id == d.id && docs[i].version
            == d.version implies replaced && i == at by {
        lemma_same_key(docs[i], d);
        lemma_lex_strict(doc_key(d), doc_key(d));
        if i > at {
            assert(lex_lt(doc_key(docs[at]), doc_key(docs[i])));
        }
    }
}

/// The size that a table keeps is the sum of the sizes of its documents, as long as a machine
/// integer holds it.
pub proof fn law_size_is_exact(docs: Seq<Doc>)
    ensures
        total_size(docs) >= 0,
        total_size(docs) <= usize::MAX ==> wrapped(total_size(docs)) == total_size(docs),
    decreases docs.len(),
{
    if docs.len() > 0 {
        law_size_is_exact(docs.drop_last());
    }
    if total_size(docs) <= usize::MAX {
        vstd::arithmetic::div_mod::lemma_small_mod(
            total_size(docs) as nat,
            (usize::MAX + 1) as nat,
        );
    }
}

/// Iterating gives every document once, each with its identity, in the order of the table.
pub proof fn law_iteration_gives_all(docs: Seq<Doc>, i: int)
    requires
        0 <= i < docs.len(),
    ensures
        with_ids(docs).len() == docs.len(),
        with_ids(docs)[i].0 == docs[i].id,
        with_ids(docs)[i].1 == docs[i],
{
}

/// Flushing changes no read: what a memtable gives for an identity at a snapshot, the table
/// gives that its documents are written to.
pub proof fn law_flush_keeps_reads(
    docs: Seq<Doc>,
    block_size: nat,
    file: Seq<u8>,
    id: Seq<u8>,
    snapshot: Seq<u8>,
)
    requires
        versions_sorted(docs),
        docs_fit(docs, keys_of(MvccKeyExtractor, docs)),
        is_table_of(file, table_entries(docs, keys_of(MvccKeyExtractor, docs)), block_size),
        file.len() <= u64::MAX,
        id.len() == 16,
    ensures
        parse_table(file) matches Ok(t) && table_latest(t, id, snapshot) == Ok::<
            Option<Doc>,
            TableFault,
        >(last_visible(docs, id, snapshot)),
{
    law_snapshot_read(docs, block_size, file, id, snapshot);
    law_lookup_is_latest(docs, id, snapshot);
    let t = parse_table(file)->Ok_0;
    let r = table_latest(t, id, snapshot)->Ok_0;
    lemma_latest_version_unique(docs, id, snapshot, r, last_visible(docs, id, snapshot));
}

} // verus!
