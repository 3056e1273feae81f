//! Writing tables.

use crate::bytes::{le, lemma_lex_strict, put_le, put_slice};
use crate::compression::{may_overflow, pack, packs};
use crate::hashing::crc32;
use crate::iblob::{all_serialized, blob_bytes, content_hash, serialized, Doc, IBlob};
use crate::sort::{
    comes_before, is_stable_order, positions, ranks, sort_order, sorted_by_rank, stable_order,
};
use crate::sstable::bloom::{empty_filter, usable, BloomFilter};
use crate::sstable::error::{SSTableError, TableFault};
use crate::sstable::format::{
    block_data, block_refs, bloom_section, bloom_size, entries_bytes, entry_bytes, footer, grouped,
    index_records, is_table_of, packs_all, stored_block, stored_blocks, table_bytes, table_filter,
    BlockRef, DEFAULT_BLOCK_SIZE, SSTABLE_MAGIC, SSTABLE_VERSION,
};
use crate::sstable::keys::KeyExtractor;
use vstd::prelude::*;

verus! {

/// The documents that some blobs hold.
pub open spec fn docs_of(blobs: Seq<IBlob>) -> Seq<Doc> {
    Seq::new(blobs.len(), |i: int| blobs[i]@)
}

/// Whether each blob holds the hash of its content.
pub open spec fn blobs_hashed(blobs: Seq<IBlob>) -> bool {
    forall|i: int|
        0 <= i < blobs.len() ==> (#[trigger] blobs[i]).held_hash() == content_hash(blobs[i]@)
}

/// Whether the blob at a position was serialized.
pub open spec fn serialized_at(before: Seq<IBlob>, after: Seq<IBlob>, i: int) -> bool {
    serialized(before[i], after[i])
}

/// Whether the blob at a position is as it was.
pub open spec fn unchanged_at(before: Seq<IBlob>, after: Seq<IBlob>, i: int) -> bool {
    after[i] == before[i]
}

/// The sort keys of some documents.
pub open spec fn keys_of<E: KeyExtractor>(extractor: E, docs: Seq<Doc>) -> Seq<Seq<u8>> {
    Seq::new(docs.len(), |i: int| extractor.key_of(docs[i]))
}

/// Documents with their keys, sorted by key, equal keys in their original order.
pub open spec fn sorted_docs(docs: Seq<Doc>, keys: Seq<Seq<u8>>) -> Seq<(Seq<u8>, Doc)> {
    sorted_by_rank(Seq::new(docs.len(), |i: int| (keys[i], docs[i])), keys)
}

/// Documents with their keys as a table holds them.
pub open spec fn encoded_entries(docs: Seq<(Seq<u8>, Doc)>) -> Seq<(Seq<u8>, Seq<u8>)> {
    Seq::new(docs.len(), |i: int| (docs[i].0, blob_bytes(docs[i].1)))
}

/// The entries of a table of some documents.
pub open spec fn table_entries(docs: Seq<Doc>, keys: Seq<Seq<u8>>) -> Seq<(Seq<u8>, Seq<u8>)> {
    encoded_entries(sorted_docs(docs, keys))
}

/// Block index entry with variable-length key.
#[derive(Debug)]
pub struct BlockIndex {
    pub last_key: Vec<u8>,
    pub offset: u64,
    pub size: u32,
}

impl View for BlockIndex {
    type V = BlockRef;

    open spec fn view(&self) -> BlockRef {
        BlockRef {
            last_key: self.last_key@,
            offset: self.offset as nat,
            size: self.size as nat,
        }
    }
}

/// What some index entries say.
pub open spec fn refs_of(entries: Seq<BlockIndex>) -> Seq<BlockRef> {
    Seq::new(entries.len(), |i: int| entries[i]@)
}

/// Blocks other than the last do not change as entries are added.
proof fn lemma_grouped_prefix(entries: Seq<(Seq<u8>, Seq<u8>)>, block_size: nat, i: int)
    requires
        0 <= i <= entries.len(),
    ensures
        grouped(entries.take(i), block_size).len() <= grouped(entries, block_size).len(),
        forall|j: int|
            0 <= j < grouped(entries.take(i), block_size).len() - 1 ==> grouped(
                entries.take(i),
                block_size,
            )[j] == #[trigger] grouped(entries, block_size)[j],
    decreases entries.len(),
{
    if i == entries.len() {
        assert(entries.take(i) =~= entries);
    } else {
        let init = entries.drop_last();
        assert(init.take(i) =~= entries.take(i));
        lemma_grouped_prefix(init, block_size, i);
    }
}

/// Compresses a block and appends it. Returns where it lies and how long it is.
fn flush_block(out: &mut Vec<u8>, entries: &Vec<u8>, count: usize) -> (r: Result<
    (u64, u32),
    SSTableError,
>)
    ensures
        match r {
            Ok((offset, size)) => exists|packed: Seq<u8>|
                #![trigger stored_block(packed)]
                {
                    &&& packs(le(count as nat, 4) + entries@, packed)
                    &&& final(out)@ == old(out)@ + stored_block(packed)
                    &&& offset == old(out)@.len()
                    &&& size == stored_block(packed).len()
                },
            Err(e) => e@ == TableFault::TooLarge && may_overflow(le(count as nat, 4) + entries@),
        },
{
    let mut data: Vec<u8> = Vec::new();
    put_le(&mut data, count as u64, 4);
    put_slice(&mut data, entries.as_slice());
    assert(data@ =~= le(count as nat, 4) + entries@);
    let packed = match pack(data.as_slice()) {
        Some(packed) => packed,
        None => {
            return Err(SSTableError::TooLarge);
        },
    };
    let offset: u64 = out.len() as u64;
    let crc: u32 = crc32(packed.as_slice());
    put_le(out, crc as u64, 4);
    put_slice(out, packed.as_slice());
    proof {
        crate::bytes::lemma_le_len(crc as nat, 4);
        assert(out@ =~= old(out)@ + stored_block(packed@));
    }
    Ok((offset, 4 + packed.len() as u32))
}

/// Appends one entry.
fn put_entry(out: &mut Vec<u8>, key: &Vec<u8>, blob: &Vec<u8>)
    ensures
        final(out)@ == old(out)@ + entry_bytes((key@, blob@)),
{
    put_le(out, key.len() as u64, 2);
    put_slice(out, key.as_slice());
    put_le(out, blob.len() as u64, 4);
    put_slice(out, blob.as_slice());
    assert(out@ =~= old(out)@ + entry_bytes((key@, blob@)));
}

/// Appends the filter, the index and the footer.
fn put_tail(out: &mut Vec<u8>, bloom: &BloomFilter, index: &Vec<BlockIndex>)
    requires
        bloom@.bits.len() <= usize::MAX - 8,
    ensures
        ({
            let start = old(out)@.len();
            let f = bloom@;
            let refs = refs_of(index@);
            final(out)@ == old(out)@ + bloom_section(f) + index_records(refs) + footer(
                start + bloom_size(f),
                refs.len(),
                start,
                bloom_size(f),
            )
        }),
{
    let ghost start = out@;
    let ghost refs = refs_of(index@);
    let bloom_offset: u64 = out.len() as u64;
    let size: u64 = (bloom.as_bytes().len() as u64 + 8) % 0x1_0000_0000;
    put_le(out, bloom.num_bits() as u64, 4);
    put_le(out, bloom.num_hashes() as u64, 4);
    put_slice(out, bloom.as_bytes());
    assert(out@ =~= start + bloom_section(bloom@));
    let ghost head = out@;
    let n: usize = index.len();
    let mut i: usize = 0;
    assert(refs.take(0) =~= seq![]);
    assert(out@ =~= head + index_records(refs.take(0)));
    while i < n
        invariant
            n == index@.len(),
            refs == refs_of(index@),
            i <= n,
            out@ == head + index_records(refs.take(i as int)),
        decreases n - i,
    {
        let entry = &index[i];
        put_le(out, entry.last_key.len() as u64, 2);
        put_slice(out, entry.last_key.as_slice());
        put_le(out, entry.offset, 8);
        put_le(out, entry.size as u64, 4);
        proof {
            assert(refs.take(i + 1).drop_last() =~= refs.take(i as int));
            assert(refs[i as int] == entry@);
            assert(out@ =~= head + index_records(refs.take(i + 1)));
        }
        i += 1;
    }
    assert(refs.take(n as int) =~= refs);
    let ghost body = out@;
    let index_offset: u64 = bloom_offset.wrapping_add(size);
    put_le(out, index_offset, 8);
    put_le(out, n as u64, 4);
    put_le(out, bloom_offset, 8);
    put_le(out, size, 4);
    let magic: [u8; 4] = SSTABLE_MAGIC;
    put_slice(out, &magic);
    put_le(out, SSTABLE_VERSION as u64, 2);
    proof {
        crate::bytes::lemma_pow256_values();
        if bloom_offset + size > u64::MAX {
            crate::bytes::lemma_le_carry(index_offset as nat, 8);
        }
        assert(le(index_offset as nat, 8) == le((bloom_offset + size) as nat, 8));
        assert(out@ =~= body + footer(
            (start.len() + bloom_size(bloom@)) as nat,
            refs.len(),
            start.len(),
            bloom_size(bloom@),
        ));
    }
}

/// The sort keys of some blobs.
pub fn extract_keys<E: KeyExtractor>(blobs: &[IBlob], key_extractor: &E) -> (keys: Vec<Vec<u8>>)
    ensures
        ranks(keys@) == keys_of(*key_extractor, docs_of(blobs@)),
{
    let n: usize = blobs.len();
    let mut keys: Vec<Vec<u8>> = Vec::new();
    let mut i: usize = 0;
    while i < n
        invariant
            n == blobs@.len(),
            i <= n,
            keys@.len() == i,
            forall|j: int|
                0 <= j < i ==> (#[trigger] keys@[j])@ == key_extractor.key_of(blobs@[j]@),
        decreases n - i,
    {
        keys.push(key_extractor.extract_key(&blobs[i]));
        i += 1;
    }
    assert(ranks(keys@) =~= keys_of(*key_extractor, docs_of(blobs@)));
    keys
}

/// What flushing one more block adds.
proof fn lemma_flushed(
    done: Seq<Seq<(Seq<u8>, Seq<u8>)>>,
    packed: Seq<Seq<u8>>,
    cur: Seq<(Seq<u8>, Seq<u8>)>,
    p: Seq<u8>,
)
    requires
        packs_all(done, packed),
        packs(block_data(cur), p),
    ensures
        packs_all(done.push(cur), packed.push(p)),
        stored_blocks(packed.push(p)) == stored_blocks(packed) + stored_block(p),
        block_refs(done.push(cur), packed.push(p)) == block_refs(done, packed).push(
            BlockRef {
                last_key: cur.last().0,
                offset: stored_blocks(packed).len(),
                size: stored_block(p).len(),
            },
        ),
{
    let ps = packed.push(p);
    assert(ps.drop_last() =~= packed);
    assert(block_refs(done.push(cur), ps) =~= block_refs(done, packed).push(
        BlockRef {
            last_key: cur.last().0,
            offset: stored_blocks(packed).len(),
            size: stored_block(p).len(),
        },
    )) by {
        assert forall|i: int| 0 <= i <= done.len() implies ps.take(i) == packed.take(i) by {
            assert(ps.take(i) =~= packed.take(i));
        }
        assert(packed.take(packed.len() as int) =~= packed);
    }
}

/// A table under construction.
struct TableBuilder {
    /// The stored blocks
    out: Vec<u8>,
    /// Their index entries
    index: Vec<BlockIndex>,
    bloom: BloomFilter,
    /// The entries of the block that is not stored yet
    current: Vec<u8>,
    /// Their number
    count: usize,
    /// The key of the last of them
    last_key: Vec<u8>,
    /// The size that blocks should not outgrow
    block_size: usize,
    /// The entries added so far
    entries: Ghost<Seq<(Seq<u8>, Seq<u8>)>>,
    /// How many entries are expected
    expected: Ghost<int>,
    /// The entries of each stored block
    done: Ghost<Seq<Seq<(Seq<u8>, Seq<u8>)>>>,
    /// Each stored block, compressed
    packed: Ghost<Seq<Seq<u8>>>,
    /// The entries of the block that is not stored yet
    open: Ghost<Seq<(Seq<u8>, Seq<u8>)>>,
}

impl TableBuilder {
    spec fn well_formed(&self) -> bool {
        &&& packs_all(self.done@, self.packed@)
        &&& self.out@ == stored_blocks(self.packed@)
        &&& refs_of(self.index@) == block_refs(self.done@, self.packed@)
        &&& self.current@ == entries_bytes(self.open@)
        &&& self.count == self.open@.len()
        &&& self.count <= self.entries@.len()
        &&& usable(self.bloom@)
        &&& self.bloom@ == table_filter(self.entries@, self.expected@)
        &&& if self.entries@.len() == 0 {
            self.done@.len() == 0 && self.open@.len() == 0
        } else {
            &&& self.open@.len() > 0
            &&& self.last_key@ == self.open@.last().0
            &&& grouped(self.entries@, self.block_size as nat) == self.done@.push(self.open@)
        }
    }

    fn new(num_keys: usize, block_size: usize) -> (b: Self)
        requires
            num_keys * 10 <= usize::MAX,
        ensures
            b.well_formed(),
            b.entries@.len() == 0,
            b.expected@ == num_keys,
            b.block_size == block_size,
    {
        let b = TableBuilder {
            out: Vec::new(),
            index: Vec::new(),
            bloom: BloomFilter::new(num_keys),
            current: Vec::new(),
            count: 0,
            last_key: Vec::new(),
            block_size,
            entries: Ghost(Seq::empty()),
            expected: Ghost(num_keys as int),
            done: Ghost(Seq::empty()),
            packed: Ghost(Seq::empty()),
            open: Ghost(Seq::empty()),
        };
        assert(refs_of(b.index@) =~= block_refs(b.done@, b.packed@));
        b
    }

    /// Stores the open block.
    fn flush(&mut self) -> (r: Result<(), SSTableError>)
        requires
            old(self).well_formed(),
            old(self).entries@.len() > 0,
        ensures
            match r {
                Ok(()) => {
                    let b = *final(self);
                    &&& packs_all(b.done@, b.packed@)
                    &&& b.out@ == stored_blocks(b.packed@)
                    &&& refs_of(b.index@) == block_refs(b.done@, b.packed@)
                    &&& b.current@.len() == 0
                    &&& b.count == 0
                    &&& b.open@.len() == 0
                    &&& b.done@ == old(self).done@.push(old(self).open@)
                    &&& b.bloom@ == old(self).bloom@
                    &&& b.entries@ == old(self).entries@
                    &&& b.expected@ == old(self).expected@
                    &&& b.block_size == old(self).block_size
                },
                Err(e) => e@ == TableFault::TooLarge && may_overflow(
                    block_data(old(self).open@),
                ),
            },
    {
        let ghost before = self.out@;
        match flush_block(&mut self.out, &self.current, self.count) {
            Err(e) => Err(e),
            Ok((offset, size)) => {
                let ghost p = choose|p: Seq<u8>|
                    #![trigger stored_block(p)]
                    {
                        &&& packs(le(self.count as nat, 4) + self.current@, p)
                        &&& self.out@ == before + stored_block(p)
                        &&& offset == before.len()
                        &&& size == stored_block(p).len()
                    };
                proof {
                    lemma_flushed(self.done@, self.packed@, self.open@, p);
                }
                let ghost refs = refs_of(self.index@);
                let last_key = vstd::slice::slice_to_vec(self.last_key.as_slice());
                let entry = BlockIndex { last_key, offset, size };
                let ghost entry_view = entry@;
                self.index.push(entry);
                assert(refs_of(self.index@) =~= refs.push(entry_view));
                self.done = Ghost(self.done@.push(self.open@));
                self.packed = Ghost(self.packed@.push(p));
                self.open = Ghost(Seq::empty());
                self.current = Vec::new();
                self.count = 0;
                Ok(())
            },
        }
    }

    /// Adds the next entry.
    fn put(&mut self, key: &Vec<u8>, blob: &Vec<u8>) -> (r: Result<(), SSTableError>)
        requires
            old(self).well_formed(),
            old(self).entries@.len() < usize::MAX,
        ensures
            match r {
                Ok(()) => {
                    &&& final(self).well_formed()
                    &&& final(self).entries@ == old(self).entries@.push((key@, blob@))
                    &&& final(self).expected@ == old(self).expected@
                    &&& final(self).block_size == old(self).block_size
                },
                Err(e) => {
                    let limit = old(self).block_size as nat;
                    let blocks = grouped(old(self).entries@, limit);
                    &&& e@ == TableFault::TooLarge
                    &&& blocks.len() > 0
                    &&& grouped(old(self).entries@.push((key@, blob@)), limit).len()
                        == blocks.len() + 1
                    &&& may_overflow(block_data(blocks.last()))
                },
            },
    {
        let ghost entry = (key@, blob@);
        let ghost all = self.entries@.push(entry);
        let ghost limit = self.block_size as nat;
        let ghost before = grouped(self.entries@, limit);
        proof {
            assert(all.drop_last() =~= self.entries@);
            crate::bytes::lemma_le_len(key@.len(), 2);
            crate::bytes::lemma_le_len(blob@.len(), 4);
            crate::bytes::lemma_le_len(self.open@.len(), 4);
        }
        // If adding this entry would exceed block size, flush current block
        let size: u128 = 10 + self.current.len() as u128 + key.len() as u128 + blob.len() as u128;
        if self.count > 0 && size > self.block_size as u128 {
            match self.flush() {
                Err(e) => {
                    return Err(e);
                },
                Ok(()) => {},
            }
        }
        assert(self.current@ =~= entries_bytes(self.open@));
        put_entry(&mut self.current, key, blob);
        self.last_key = vstd::slice::slice_to_vec(key.as_slice());
        self.count += 1;
        let ghost open = self.open@;
        self.open = Ghost(open.push(entry));
        self.entries = Ghost(all);
        proof {
            assert(self.open@.drop_last() =~= open);
            if open.len() == 0 {
                assert(self.open@ =~= seq![entry]);
                assert(before =~= self.done@);
                assert(grouped(all, limit) =~= before.push(seq![entry]));
            } else {
                assert(grouped(all, limit) =~= before.update(
                    before.len() - 1,
                    before.last().push(entry),
                ));
            }
            assert(grouped(all, limit) =~= self.done@.push(self.open@));
        }
        self.bloom.insert(key.as_slice());
        // For MVCC keys (_id + _version = 32 bytes), also insert the _id prefix
        // so that point lookups by _id can use the bloom filter.
        if key.len() > 16 {
            self.bloom.insert(vstd::slice::slice_subrange(key.as_slice(), 0, 16));
            assert(key@.subrange(0, 16) =~= key@.take(16));
        }
        Ok(())
    }
}

impl TableBuilder {
    /// Stores the open block and appends what follows the blocks.
    fn finish(self) -> (r: Result<Vec<u8>, SSTableError>)
        requires
            self.well_formed(),
            self.entries@.len() > 0,
            self.expected@ == self.entries@.len(),
            self.expected@ * 10 <= usize::MAX,
        ensures
            match r {
                Ok(file) => is_table_of(file@, self.entries@, self.block_size as nat),
                Err(e) => e@ == TableFault::TooLarge && may_overflow(
                    block_data(grouped(self.entries@, self.block_size as nat).last()),
                ),
            },
    {
        let ghost blocks = grouped(self.entries@, self.block_size as nat);
        let mut builder = self;
        match builder.flush() {
            Err(e) => {
                return Err(e);
            },
            Ok(()) => {},
        }
        let mut out: Vec<u8> = Vec::new();
        std::mem::swap(&mut out, &mut builder.out);
        let ghost packed = builder.packed@;
        proof {
            lemma_filter_len(builder.entries@, builder.expected@);
        }
        put_tail(&mut out, &builder.bloom, &builder.index);
        assert(packs_all(blocks, packed));
        assert(out@ =~= table_bytes(blocks, packed, builder.bloom@));
        Ok(out)
    }
}

/// Adding keys does not resize a filter.
pub proof fn lemma_filter_len(entries: Seq<(Seq<u8>, Seq<u8>)>, n: int)
    requires
        0 <= n,
        n * 10 <= usize::MAX,
    ensures
        table_filter(entries, n).bits.len() == empty_filter(n).bits.len(),
        table_filter(entries, n).num_bits == empty_filter(n).num_bits,
        table_filter(entries, n).num_hashes == empty_filter(n).num_hashes,
        empty_filter(n).bits.len() <= usize::MAX - 8,
        usable(table_filter(entries, n)),
    decreases entries.len(),
{
    if entries.len() > 0 {
        let f = table_filter(entries.drop_last(), n);
        let key = entries.last().0;
        lemma_filter_len(entries.drop_last(), n);
        crate::sstable::bloom::lemma_with_key_len(f, key);
        crate::sstable::bloom::law_no_false_negatives(f, key, key);
        let g = crate::sstable::bloom::with_key(f, key);
        crate::sstable::bloom::lemma_with_key_len(g, key.take(16));
        crate::sstable::bloom::law_no_false_negatives(g, key.take(16), key);
    }
}

/// Writes an SSTable file from IBlobs, sorted by the provided KeyExtractor.
pub struct SSTableWriter {
    block_size: usize,
}

impl SSTableWriter {
    /// The size that blocks should not outgrow.
    pub closed spec fn limit(&self) -> nat {
        self.block_size as nat
    }

    pub fn new() -> (writer: Self)
        ensures
            writer.limit() == DEFAULT_BLOCK_SIZE,
    {
        SSTableWriter { block_size: DEFAULT_BLOCK_SIZE }
    }

    pub fn with_block_size(block_size: usize) -> (writer: Self)
        ensures
            writer.limit() == block_size,
    {
        SSTableWriter { block_size }
    }

    /// Write an SSTable. Entries are sorted by the KeyExtractor. Returns the bytes of the file.
    pub fn write<E: KeyExtractor>(&self, blobs: &mut [IBlob], key_extractor: &E) -> (r: Result<
        Vec<u8>,
        SSTableError,
    >)
        requires
            old(blobs)@.len() * 10 <= usize::MAX,
        ensures
            docs_of(final(blobs)@) == docs_of(old(blobs)@),
            r is Ok ==> all_serialized(old(blobs)@, final(blobs)@),
            forall|k: int|
                0 <= k < old(blobs)@.len() ==> #[trigger] serialized_at(
                    old(blobs)@,
                    final(blobs)@,
                    k,
                ) || unchanged_at(old(blobs)@, final(blobs)@, k),
            ({
                let docs = docs_of(old(blobs)@);
                let entries = table_entries(docs, keys_of(*key_extractor, docs));
                match r {
                    Ok(file) => docs.len() > 0 && is_table_of(file@, entries, self.limit()),
                    Err(e) => if docs.len() == 0 {
                        e@ == TableFault::Empty
                    } else {
                        e@ == TableFault::TooLarge && exists|j: int|
                            0 <= j < grouped(entries, self.limit()).len() && may_overflow(
                                block_data(#[trigger] grouped(entries, self.limit())[j]),
                            )
                    },
                }
            }),
    {
        let n: usize = blobs.len();
        if n == 0 {
            return Err(SSTableError::Empty);
        }
        let keys = extract_keys(blobs, key_extractor);
        let order = sort_order(&keys);
        let ghost docs = docs_of(blobs@);
        let ghost key_views = keys_of(*key_extractor, docs);
        let ghost entries = table_entries(docs, key_views);
        let ghost limit = self.limit();
        let mut builder = TableBuilder::new(n, self.block_size);
        let mut i: usize = 0;
        assert(builder.entries@ =~= entries.take(0));
        while i < n
            invariant
                n == blobs@.len(),
                n == keys@.len(),
                n == order@.len(),
                n == entries.len(),
                i <= n,
                docs == docs_of(blobs@),
                ranks(keys@) == key_views,
                key_views.len() == n,
                positions(order@) == stable_order(key_views),
                is_stable_order(key_views, positions(order@)),
                entries == table_entries(docs, key_views),
                builder.well_formed(),
                builder.entries@ == entries.take(i as int),
                builder.expected@ == n,
                builder.block_size as nat == limit,
                limit == self.limit(),
                docs == docs_of(old(blobs)@),
                key_views == keys_of(*key_extractor, docs),
                n == old(blobs)@.len(),
                forall|j: int|
                    0 <= j < i ==> serialized_at(
                        old(blobs)@,
                        blobs@,
                        #[trigger] positions(order@)[j],
                    ),
                forall|j: int|
                    i <= j < n ==> unchanged_at(
                        old(blobs)@,
                        blobs@,
                        #[trigger] positions(order@)[j],
                    ),
            decreases n - i,
        {
            proof {
                assert(0 <= positions(order@)[i as int] < n);
            }
            let at: usize = order[i];
            assert(ranks(keys@)[at as int] == keys@[at as int]@);
            let ghost before = blobs@;
            let bytes = blobs[at].encode();
            proof {
                assert(docs_of(blobs@) =~= docs);
                assert(docs[at as int] == before[at as int]@);
                assert(entries[i as int] == (keys@[at as int]@, bytes@));
                assert(entries.take(i + 1) =~= entries.take(i as int).push(entries[i as int]));
                assert(unchanged_at(old(blobs)@, before, positions(order@)[i as int]));
                assert forall|j: int| 0 <= j < i + 1 implies serialized_at(
                    old(blobs)@,
                    blobs@,
                    #[trigger] positions(order@)[j],
                ) by {
                    if j < i {
                        lemma_order_distinct(key_views, positions(order@), j, i as int);
                        assert(serialized_at(old(blobs)@, before, positions(order@)[j]));
                    }
                }
                assert forall|j: int| i < j < n implies unchanged_at(
                    old(blobs)@,
                    blobs@,
                    #[trigger] positions(order@)[j],
                ) by {
                    lemma_order_distinct(key_views, positions(order@), i as int, j);
                    assert(unchanged_at(old(blobs)@, before, positions(order@)[j]));
                }
                assert forall|k: int| 0 <= k < n implies #[trigger] serialized_at(
                    old(blobs)@,
                    blobs@,
                    k,
                ) || unchanged_at(old(blobs)@, blobs@, k) by {
                    assert(positions(order@).contains(k));
                    let j = choose|j: int| 0 <= j < n && positions(order@)[j] == k;
                    if j <= i {
                        assert(serialized_at(old(blobs)@, blobs@, positions(order@)[j]));
                    } else {
                        assert(unchanged_at(old(blobs)@, blobs@, positions(order@)[j]));
                    }
                }
            }
            match builder.put(&keys[at], &bytes) {
                Err(e) => {
                    proof {
                        let seen = grouped(entries.take(i as int), limit);
                        lemma_grouped_prefix(entries, limit, i + 1);
                        lemma_grouped_step(entries, limit, i as int);
                        let j = seen.len() - 1;
                        assert(grouped(entries, limit)[j] == seen[j]);
                    }
                    return Err(e);
                },
                Ok(()) => {},
            }
            i += 1;
        }
        proof {
            assert(entries.take(n as int) =~= entries);
            let blocks = grouped(entries, limit);
            assert(blocks.last() == blocks[blocks.len() - 1]);
            assert forall|k: int| 0 <= k < n implies #[trigger] serialized_at(
                old(blobs)@,
                blobs@,
                k,
            ) by {
                assert(positions(order@).contains(k));
                let j = choose|j: int| 0 <= j < n && positions(order@)[j] == k;
                assert(serialized_at(old(blobs)@, blobs@, positions(order@)[j]));
            }
            assert forall|k: int| 0 <= k < n implies serialized(
                old(blobs)@[k],
                #[trigger] blobs@[k],
            ) by {
                assert(serialized_at(old(blobs)@, blobs@, k));
            }
        }
        builder.finish()
    }
}

/// A stable order lists no position twice.
proof fn lemma_order_distinct(ranks: Seq<Seq<u8>>, order: Seq<int>, i: int, j: int)
    requires
        is_stable_order(ranks, order),
        0 <= i < j < order.len(),
    ensures
        order[i] != order[j],
{
    assert(comes_before(ranks, order[i], order[j]));
    lemma_lex_strict(ranks[order[i]], ranks[order[j]]);
}

/// A new block leaves the blocks before it as they were.
proof fn lemma_grouped_step(entries: Seq<(Seq<u8>, Seq<u8>)>, limit: nat, i: int)
    requires
        0 <= i < entries.len(),
        grouped(entries.take(i + 1), limit).len() == grouped(entries.take(i), limit).len() + 1,
    ensures
        forall|j: int|
            0 <= j < grouped(entries.take(i), limit).len() ==> #[trigger] grouped(
                entries.take(i + 1),
                limit,
            )[j] == grouped(entries.take(i), limit)[j],
{
    assert(entries.take(i + 1).drop_last() =~= entries.take(i));
}

impl Default for SSTableWriter {
    fn default() -> (writer: Self)
        ensures
            writer.limit() == DEFAULT_BLOCK_SIZE,
    {
        Self::new()
    }
}

} // verus!
