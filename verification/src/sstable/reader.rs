//! Reading tables.

use crate::bytes::{bytes_eq, bytes_lt, copy_range, get_le, lex_le, lex_lt, put_slice};
use crate::compression::unpack;
use crate::document_id::{filled_id, DocumentId};
use crate::hashing::crc32;
use crate::iblob::{content_hash, Doc, IBlob};
use crate::sstable::bloom::{probed, BloomFilter};
use crate::sstable::error::{SSTableError, TableFault};
use crate::sstable::format::{
    first_key, open_block, parse_block, parse_block_entries, parse_index, parse_table, BlockRef,
    Table, FOOTER_SIZE, SSTABLE_MAGIC, SSTABLE_VERSION,
};
use crate::sstable::writer::{refs_of, BlockIndex};
use crate::text::decimal;
use crate::value::get_id;
use vstd::prelude::*;
use vstd::string::StringExecFns;

verus! {

/// The keys and documents of some entries.
pub open spec fn entries_of(entries: Seq<(Vec<u8>, IBlob)>) -> Seq<(Seq<u8>, Doc)> {
    Seq::new(entries.len(), |i: int| (entries[i].0@, entries[i].1@))
}

/// Whether each blob holds the hash of its content.
pub open spec fn all_hashed(entries: Seq<(Vec<u8>, IBlob)>) -> bool {
    forall|i: int|
        0 <= i < entries.len() ==> (#[trigger] entries[i]).1.held_hash() == content_hash(
            entries[i].1@,
        )
}

/// A corruption error.
fn corrupted(text: &str) -> (e: SSTableError)
    ensures
        e@ == TableFault::Corrupted(text@),
{
    SSTableError::Corrupted(text.to_owned())
}

/// Reads the index entries from `start` on.
fn read_index(data: &[u8], start: u64, count: u32, end: usize) -> (r: Result<
    Vec<BlockIndex>,
    SSTableError,
>)
    requires
        end <= data@.len(),
    ensures
        match r {
            Ok(index) => parse_index(data@, start as int, count as nat, end as int) == Ok::<
                Seq<BlockRef>,
                TableFault,
            >(refs_of(index@)),
            Err(e) => parse_index(data@, start as int, count as nat, end as int) == Err::<
                Seq<BlockRef>,
                TableFault,
            >(e@),
        },
{
    let total: usize = data.len();
    let mut index: Vec<BlockIndex> = Vec::new();
    if count == 0 {
        assert(refs_of(index@) =~= seq![]);
        return Ok(index);
    }
    if start > end as u64 {
        return Err(corrupted("index entry truncated"));
    }
    let mut pos: usize = start as usize;
    let mut i: u32 = 0;
    assert forall|rest: Seq<BlockRef>| refs_of(index@) + rest == rest by {
        assert(refs_of(index@) + rest =~= rest);
    }
    while i < count
        invariant
            total == data@.len(),
            pos <= end <= total,
            i <= count,
            ({
                let whole = parse_index(data@, start as int, count as nat, end as int);
                match parse_index(data@, pos as int, (count - i) as nat, end as int) {
                    Ok(rest) => whole == Ok::<Seq<BlockRef>, TableFault>(refs_of(index@) + rest),
                    Err(e) => whole == Err::<Seq<BlockRef>, TableFault>(e),
                }
            }),
        decreases count - i,
    {
        if end - pos < 2 {
            return Err(corrupted("index entry truncated"));
        }
        proof {
            crate::bytes::lemma_pow256_values();
        }
        let key_len: usize = get_le(data, pos, 2) as usize;
        if end - pos - 2 < key_len || end - pos - 2 - key_len < 12 {
            return Err(corrupted("index entry truncated"));
        }
        let at: usize = pos + 2 + key_len;
        let entry = BlockIndex {
            last_key: copy_range(data, pos + 2, at),
            offset: get_le(data, at, 8),
            size: get_le(data, at + 8, 4) as u32,
        };
        let ghost before = refs_of(index@);
        let ghost entry_view = entry@;
        index.push(entry);
        proof {
            assert(refs_of(index@) =~= before.push(entry_view));
            assert forall|rest: Seq<BlockRef>|
                before + (seq![entry_view] + rest) == refs_of(index@) + rest by {
                assert(before + (seq![entry_view] + rest) =~= refs_of(index@) + rest);
            }
        }
        pos = at + 12;
        i += 1;
    }
    assert(refs_of(index@) + Seq::<BlockRef>::empty() =~= refs_of(index@));
    Ok(index)
}

/// Checks and decompresses a block that lies within the file.
fn read_raw(data: &[u8], block: &BlockIndex) -> (r: Result<Vec<u8>, SSTableError>)
    requires
        block.offset + block.size <= data@.len(),
        block.size >= 4,
    ensures
        open_block(data@, block@) == (match r {
            Ok(raw) => Ok::<Seq<u8>, TableFault>(raw@),
            Err(e) => Err::<Seq<u8>, TableFault>(e@),
        }),
{
    let total: usize = data.len();
    let start: usize = block.offset as usize;
    let end: usize = start + block.size as usize;
    let stored: u64 = get_le(data, start, 4);
    let packed = vstd::slice::slice_subrange(data, start + 4, end);
    if stored != crc32(packed) as u64 {
        return Err(SSTableError::CrcMismatch { offset: block.offset });
    }
    match unpack(packed) {
        Ok(raw) => Ok(raw),
        Err(text) => {
            let message = "LZ4 decompress failed: ".to_owned().concat(text.as_str());
            Err(SSTableError::Corrupted(message))
        },
    }
}

/// Whether a block lies within the file.
fn within(data: &[u8], block: &BlockIndex) -> (r: bool)
    ensures
        r == (block.offset + block.size <= data@.len()),
{
    block.offset <= data.len() as u64 && block.size as u64 <= data.len() as u64 - block.offset
}

/// Extract the first key from a block without full parsing.
fn extract_first_key(data: &[u8], block: &BlockIndex) -> (r: Result<Vec<u8>, SSTableError>)
    ensures
        first_key(data@, block@) == (match r {
            Ok(key) => Ok::<Seq<u8>, TableFault>(key@),
            Err(e) => Err::<Seq<u8>, TableFault>(e@),
        }),
{
    if !within(data, block) || block.size < 4 {
        return Err(corrupted("block out of bounds"));
    }
    let raw = match read_raw(data, block) {
        Ok(raw) => raw,
        Err(e) => {
            return Err(e);
        },
    };
    // First entry: [entry_count:4][key_len:2][key_bytes]...
    if raw.len() < 6 {
        return Err(corrupted("block too small"));
    }
    proof {
        crate::bytes::lemma_pow256_values();
    }
    let key_len: usize = get_le(raw.as_slice(), 4, 2) as usize;
    if raw.len() - 6 < key_len {
        return Err(corrupted("first key truncated"));
    }
    Ok(copy_range(raw.as_slice(), 6, 6 + key_len))
}

/// Reads the entries of a decompressed block.
fn read_entries(raw: &[u8], count: u32) -> (r: Result<Vec<(Vec<u8>, IBlob)>, SSTableError>)
    requires
        raw@.len() >= 4,
    ensures
        parse_block_entries(raw@, 4, count as nat) == (match r {
            Ok(entries) => Ok::<Seq<(Seq<u8>, Doc)>, TableFault>(entries_of(entries@)),
            Err(e) => Err::<Seq<(Seq<u8>, Doc)>, TableFault>(e@),
        }),
        r matches Ok(entries) ==> all_hashed(entries@),
{
    let total: usize = raw.len();
    let mut entries: Vec<(Vec<u8>, IBlob)> = Vec::new();
    let mut pos: usize = 4;
    let mut i: u32 = 0;
    assert forall|rest: Seq<(Seq<u8>, Doc)>| entries_of(entries@) + rest == rest by {
        assert(entries_of(entries@) + rest =~= rest);
    }
    while i < count
        invariant
            total == raw@.len(),
            pos <= total,
            i <= count,
            all_hashed(entries@),
            ({
                let whole = parse_block_entries(raw@, 4, count as nat);
                match parse_block_entries(raw@, pos as int, (count - i) as nat) {
                    Ok(rest) => whole == Ok::<Seq<(Seq<u8>, Doc)>, TableFault>(
                        entries_of(entries@) + rest,
                    ),
                    Err(e) => whole == Err::<Seq<(Seq<u8>, Doc)>, TableFault>(e),
                }
            }),
        decreases count - i,
    {
        if total - pos < 2 {
            return Err(corrupted("truncated key_len in block"));
        }
        proof {
            crate::bytes::lemma_pow256_values();
        }
        let key_len: usize = get_le(raw, pos, 2) as usize;
        if total - pos - 2 < key_len {
            return Err(corrupted("truncated key in block"));
        }
        let at: usize = pos + 2 + key_len;
        if total - at < 4 {
            return Err(corrupted("truncated blob_len in block"));
        }
        let blob_len: usize = get_le(raw, at, 4) as u32 as usize;
        if total - at - 4 < blob_len {
            return Err(corrupted("truncated blob in block"));
        }
        let end: usize = at + 4 + blob_len;
        let blob = match IBlob::decode(vstd::slice::slice_subrange(raw, at + 4, end)) {
            Ok(blob) => blob,
            Err(e) => {
                return Err(SSTableError::Blob(e));
            },
        };
        let key = copy_range(raw, pos + 2, at);
        let ghost before = entries_of(entries@);
        let ghost entry = (key@, blob@);
        entries.push((key, blob));
        proof {
            assert(entries_of(entries@) =~= before.push(entry));
            assert forall|rest: Seq<(Seq<u8>, Doc)>|
                before + (seq![entry] + rest) == entries_of(entries@) + rest by {
                assert(before + (seq![entry] + rest) =~= entries_of(entries@) + rest);
            }
        }
        pos = end;
        i += 1;
    }
    assert(entries_of(entries@) + Seq::<(Seq<u8>, Doc)>::empty() =~= entries_of(entries@));
    Ok(entries)
}

/// Reads and queries an SSTable file.
///
/// Keys are variable-length byte sequences. For primary SSTables the key
/// is the 16-byte DocumentId. For secondary indexes the key is the
/// comparable encoding of field values.
pub struct SSTableReader {
    path: String,
    data: Vec<u8>,
    block_indices: Vec<BlockIndex>,
    bloom: BloomFilter,
    min_key: Vec<u8>,
    max_key: Vec<u8>,
}

impl View for SSTableReader {
    type V = Table;

    closed spec fn view(&self) -> Table {
        Table {
            data: self.data@,
            blocks: refs_of(self.block_indices@),
            bloom: self.bloom@,
            min_key: self.min_key@,
            max_key: self.max_key@,
        }
    }
}

impl SSTableReader {
    /// The path of the file.
    pub closed spec fn path_text(&self) -> Seq<char> {
        self.path@
    }

    /// Open an SSTable file, given by its path and its content, and load its index and bloom
    /// filter into memory.
    pub fn open(path: String, data: Vec<u8>) -> (r: Result<Self, SSTableError>)
        ensures
            match r {
                Ok(reader) => parse_table(data@) == Ok::<Table, TableFault>(reader@)
                    && reader.path_text() == path@,
                Err(e) => parse_table(data@) == Err::<Table, TableFault>(e@),
            },
    {
        let total: usize = data.len();
        if total < FOOTER_SIZE {
            return Err(corrupted("file too small for footer"));
        }
        proof {
            crate::bytes::lemma_pow256_values();
        }
        // Parse footer (last FOOTER_SIZE bytes)
        let bytes = data.as_slice();
        let end: usize = total - FOOTER_SIZE;
        let index_offset: u64 = get_le(bytes, end, 8);
        let index_count: u32 = get_le(bytes, end + 8, 4) as u32;
        let bloom_offset: u64 = get_le(bytes, end + 12, 8);
        let bloom_size: u64 = get_le(bytes, end + 20, 4);
        let magic: [u8; 4] = SSTABLE_MAGIC;
        if !bytes_eq(vstd::slice::slice_subrange(bytes, end + 24, end + 28), &magic) {
            return Err(SSTableError::InvalidMagic);
        }
        let version: u16 = get_le(bytes, end + 28, 2) as u16;
        if version != SSTABLE_VERSION {
            return Err(SSTableError::UnsupportedVersion(version));
        }
        // Parse bloom filter
        if bloom_offset > total as u64 || bloom_size > total as u64 - bloom_offset
            || bloom_size < 8 {
            return Err(corrupted("bloom filter out of bounds"));
        }
        let at: usize = bloom_offset as usize;
        let bloom_end: usize = at + bloom_size as usize;
        let bloom = BloomFilter::from_bytes(
            vstd::slice::slice_subrange(bytes, at + 8, bloom_end),
            get_le(bytes, at, 4) as u32 as usize,
            get_le(bytes, at + 4, 4) as u32,
        );
        // Parse block index
        let block_indices = match read_index(bytes, index_offset, index_count, end) {
            Ok(index) => index,
            Err(e) => {
                return Err(e);
            },
        };
        let n: usize = block_indices.len();
        if n == 0 {
            return Err(corrupted("SSTable has no blocks"));
        }
        assert(refs_of(block_indices@)[0] == block_indices@[0]@);
        assert(refs_of(block_indices@).last() == block_indices@[n - 1]@);
        let max_key = vstd::slice::slice_to_vec(block_indices[n - 1].last_key.as_slice());
        let min_key = match extract_first_key(bytes, &block_indices[0]) {
            Ok(key) => key,
            Err(e) => {
                return Err(e);
            },
        };
        Ok(SSTableReader { path, data, block_indices, bloom, min_key, max_key })
    }

    fn read_block(&self, block: &BlockIndex) -> (r: Result<Vec<(Vec<u8>, IBlob)>, SSTableError>)
        ensures
            parse_block(self@.data, block@) == (match r {
                Ok(entries) => Ok::<Seq<(Seq<u8>, Doc)>, TableFault>(entries_of(entries@)),
                Err(e) => Err::<Seq<(Seq<u8>, Doc)>, TableFault>(e@),
            }),
            r matches Ok(entries) ==> all_hashed(entries@),
    {
        let data = self.data.as_slice();
        if !within(data, block) {
            let offset = decimal(block.offset);
            let message = "block at offset ".to_owned().concat(offset.as_str()).concat(
                " extends past end of file",
            );
            return Err(SSTableError::Corrupted(message));
        }
        if block.size < 4 {
            return Err(corrupted("block too small"));
        }
        let raw = match read_raw(data, block) {
            Ok(raw) => raw,
            Err(e) => {
                return Err(e);
            },
        };
        if raw.len() < 4 {
            return Err(corrupted("block too small"));
        }
        proof {
            crate::bytes::lemma_pow256_values();
        }
        let count: u32 = get_le(raw.as_slice(), 0, 4) as u32;
        read_entries(raw.as_slice(), count)
    }
}

/// The last keys of some blocks.
pub open spec fn last_keys(blocks: Seq<BlockRef>) -> Seq<Seq<u8>> {
    Seq::new(blocks.len(), |i: int| blocks[i].last_key)
}

/// The keys of some entries.
pub open spec fn entry_keys(entries: Seq<(Seq<u8>, Doc)>) -> Seq<Seq<u8>> {
    Seq::new(entries.len(), |i: int| entries[i].0)
}

/// Where binary search for `key` from `lo` up to `hi` ends. In sorted keys this is the first
/// key that is not less than `key`.
pub open spec fn search_keys(keys: Seq<Seq<u8>>, key: Seq<u8>, lo: int, hi: int) -> int
    decreases hi - lo,
{
    if lo < hi {
        let mid = lo + (hi - lo) / 2;
        if lex_lt(keys[mid], key) {
            search_keys(keys, key, mid + 1, hi)
        } else {
            search_keys(keys, key, lo, mid)
        }
    } else {
        lo
    }
}

/// Where binary search for `key` ends.
pub open spec fn find_key(keys: Seq<Seq<u8>>, key: Seq<u8>) -> int {
    search_keys(keys, key, 0, keys.len() as int)
}

/// The document of the entry that binary search finds for `key`.
pub open spec fn find_doc(entries: Seq<(Seq<u8>, Doc)>, key: Seq<u8>) -> Option<Doc> {
    let i = find_key(entry_keys(entries), key);
    if 0 <= i < entries.len() && entries[i].0 == key {
        Some(entries[i].1)
    } else {
        None
    }
}

/// What a point lookup gives.
pub open spec fn table_get(t: Table, key: Seq<u8>) -> Result<Option<Doc>, TableFault> {
    match probed(t.bloom, key, 0) {
        None => Err(TableFault::Corrupted("bloom filter out of bounds"@)),
        Some(false) => Ok(None),
        Some(true) => {
            let i = find_key(last_keys(t.blocks), key);
            if i >= t.blocks.len() {
                Ok(None)
            } else {
                match parse_block(t.data, t.blocks[i]) {
                    Err(e) => Err(e),
                    Ok(entries) => Ok(find_doc(entries, key)),
                }
            }
        },
    }
}

/// Whether a document is a version of an identity that a snapshot sees.
pub open spec fn visible(d: Doc, id: Seq<u8>, snapshot: Seq<u8>) -> bool {
    d.id == id && lex_le(d.version, snapshot)
}

/// The document with the highest version among those of an identity that a snapshot sees; the
/// last of them where several have that version.
pub open spec fn latest_of(
    entries: Seq<(Seq<u8>, Doc)>,
    id: Seq<u8>,
    snapshot: Seq<u8>,
) -> Option<Doc>
    decreases entries.len(),
{
    if entries.len() == 0 {
        None
    } else {
        let best = latest_of(entries.drop_last(), id, snapshot);
        let d = entries.last().1;
        if visible(d, id, snapshot) && (best matches Some(b) ==> lex_le(b.version, d.version)) {
            Some(d)
        } else {
            best
        }
    }
}

/// The key of a version of an identity.
pub open spec fn version_key(id: Seq<u8>, version: Seq<u8>) -> Seq<u8> {
    id + version
}

/// What looking up an identity at a snapshot gives.
pub open spec fn table_latest(t: Table, id: Seq<u8>, snapshot: Seq<u8>) -> Result<
    Option<Doc>,
    TableFault,
> {
    match probed(t.bloom, id, 0) {
        None => Err(TableFault::Corrupted("bloom filter out of bounds"@)),
        Some(false) => Ok(None),
        Some(true) => match table_range(t, id, version_key(id, snapshot)) {
            Err(e) => Err(e),
            Ok(entries) => Ok(latest_of(entries, id, snapshot)),
        },
    }
}

/// What looking up an identity gives.
pub open spec fn table_get_by_id(t: Table, id: Seq<u8>) -> Result<Option<Doc>, TableFault> {
    table_latest(t, id, filled_id(0xFF))
}

/// The entries of the first `n` blocks.
pub open spec fn entries_upto(t: Table, n: nat) -> Result<Seq<(Seq<u8>, Doc)>, TableFault>
    decreases n,
{
    if n == 0 {
        Ok(seq![])
    } else {
        match entries_upto(t, (n - 1) as nat) {
            Err(e) => Err(e),
            Ok(entries) => match parse_block(t.data, t.blocks[n - 1]) {
                Err(e) => Err(e),
                Ok(more) => Ok(entries + more),
            },
        }
    }
}

/// All entries of a table.
pub open spec fn table_entries_read(t: Table) -> Result<Seq<(Seq<u8>, Doc)>, TableFault> {
    entries_upto(t, t.blocks.len())
}

/// The earliest block before `i` that follows only blocks that end before `start`.
pub open spec fn walk_back(blocks: Seq<BlockRef>, start: Seq<u8>, i: int) -> int
    decreases i,
{
    if i > 0 && !lex_lt(blocks[i - 1].last_key, start) {
        walk_back(blocks, start, i - 1)
    } else {
        i
    }
}

/// The entries of a block that a scan takes, and whether it then ends: it skips keys below
/// `start` and ends at the first other key past `end`.
pub open spec fn scan_block(
    entries: Seq<(Seq<u8>, Doc)>,
    start: Seq<u8>,
    end: Seq<u8>,
) -> (Seq<(Seq<u8>, Doc)>, bool)
    decreases entries.len(),
{
    if entries.len() == 0 {
        (seq![], false)
    } else {
        let (taken, ended) = scan_block(entries.drop_last(), start, end);
        let key = entries.last().0;
        if ended {
            (taken, true)
        } else if lex_lt(key, start) {
            (taken, false)
        } else if lex_lt(end, key) {
            (taken, true)
        } else {
            (taken.push(entries.last()), false)
        }
    }
}

/// What scanning the blocks from `i` on gives.
pub open spec fn scan_blocks(t: Table, start: Seq<u8>, end: Seq<u8>, i: int) -> Result<
    Seq<(Seq<u8>, Doc)>,
    TableFault,
>
    decreases t.blocks.len() - i,
{
    if i >= t.blocks.len() {
        Ok(seq![])
    } else {
        match parse_block(t.data, t.blocks[i]) {
            Err(e) => Err(e),
            Ok(entries) => {
                let (taken, ended) = scan_block(entries, start, end);
                if ended || (taken.len() == 0 && lex_lt(end, t.blocks[i].last_key)) {
                    Ok(taken)
                } else {
                    match scan_blocks(t, start, end, i + 1) {
                        Err(e) => Err(e),
                        Ok(rest) => Ok(taken + rest),
                    }
                }
            },
        }
    }
}

/// What a range scan gives.
pub open spec fn table_range(t: Table, start: Seq<u8>, end: Seq<u8>) -> Result<
    Seq<(Seq<u8>, Doc)>,
    TableFault,
> {
    let found = find_key(last_keys(t.blocks), start);
    if found >= t.blocks.len() {
        Ok(seq![])
    } else {
        scan_blocks(t, start, end, walk_back(t.blocks, start, found))
    }
}

/// What a lookup returns, as mathematical values.
pub open spec fn found_view(r: Result<Option<IBlob>, SSTableError>) -> Result<
    Option<Doc>,
    TableFault,
> {
    match r {
        Ok(Some(blob)) => Ok(Some(blob@)),
        Ok(None) => Ok(None),
        Err(e) => Err(e@),
    }
}

/// Whether what a lookup found holds the hash of its content.
pub open spec fn found_hashed(r: Result<Option<IBlob>, SSTableError>) -> bool {
    r matches Ok(Some(blob)) ==> blob.held_hash() == content_hash(blob@)
}

/// What reading entries returns, as mathematical values.
pub open spec fn listed_view(r: Result<Vec<(Vec<u8>, IBlob)>, SSTableError>) -> Result<
    Seq<(Seq<u8>, Doc)>,
    TableFault,
> {
    match r {
        Ok(entries) => Ok(entries_of(entries@)),
        Err(e) => Err(e@),
    }
}

proof fn lemma_entries_fault(t: Table, i: nat, n: nat, e: TableFault)
    requires
        i <= n,
        entries_upto(t, i) == Err::<Seq<(Seq<u8>, Doc)>, TableFault>(e),
    ensures
        entries_upto(t, n) == Err::<Seq<(Seq<u8>, Doc)>, TableFault>(e),
    decreases n,
{
    if i < n {
        lemma_entries_fault(t, i, (n - 1) as nat, e);
    }
}

impl SSTableReader {
    /// Smallest key in this SSTable.
    pub fn min_key(&self) -> (key: &[u8])
        ensures
            key@ == self@.min_key,
    {
        self.min_key.as_slice()
    }

    /// Largest key in this SSTable.
    pub fn max_key(&self) -> (key: &[u8])
        ensures
            key@ == self@.max_key,
    {
        self.max_key.as_slice()
    }

    /// Convenience: min key as DocumentId (for primary SSTables).
    /// Works with both 16-byte (IdKey) and 32-byte (MvccKey) formats.
    pub fn min_id(&self) -> (id: DocumentId)
        ensures
            id@ == (if self@.min_key.len() >= 16 {
                self@.min_key.take(16)
            } else {
                filled_id(0)
            }),
    {
        if self.min_key.len() >= 16 {
            assert(self.min_key@.subrange(0, 16) =~= self.min_key@.take(16));
            get_id(self.min_key.as_slice(), 0)
        } else {
            DocumentId::nil()
        }
    }

    /// Convenience: max key as DocumentId (for primary SSTables).
    pub fn max_id(&self) -> (id: DocumentId)
        ensures
            id@ == (if self@.max_key.len() >= 16 {
                self@.max_key.take(16)
            } else {
                filled_id(0)
            }),
    {
        if self.max_key.len() >= 16 {
            assert(self.max_key@.subrange(0, 16) =~= self.max_key@.take(16));
            get_id(self.max_key.as_slice(), 0)
        } else {
            DocumentId::nil()
        }
    }

    /// File size in bytes.
    pub fn file_size(&self) -> (n: u64)
        ensures
            n == self@.data.len(),
    {
        self.data.len() as u64
    }

    /// Number of data blocks in this SSTable.
    pub fn block_count(&self) -> (n: usize)
        ensures
            n == self@.blocks.len(),
    {
        self.block_indices.len()
    }

    /// Path to the SSTable file.
    pub fn path(&self) -> (path: &String)
        ensures
            path@ == self.path_text(),
    {
        &self.path
    }

    /// The content of the file.
    pub fn data(&self) -> (data: &[u8])
        ensures
            data@ == self@.data,
    {
        self.data.as_slice()
    }

    fn find_block(&self, key: &[u8]) -> (i: usize)
        ensures
            i == find_key(last_keys(self@.blocks), key@),
            i <= self@.blocks.len(),
    {
        let ghost keys = last_keys(self@.blocks);
        let n: usize = self.block_indices.len();
        let mut lo: usize = 0;
        let mut hi: usize = n;
        while lo < hi
            invariant
                lo <= hi <= n,
                n == self.block_indices@.len(),
                keys == last_keys(self@.blocks),
                keys.len() == n,
                search_keys(keys, key@, lo as int, hi as int) == find_key(keys, key@),
            decreases hi - lo,
        {
            let mid: usize = lo + (hi - lo) / 2;
            assert(keys[mid as int] == self.block_indices@[mid as int].last_key@);
            if bytes_lt(self.block_indices[mid].last_key.as_slice(), key) {
                lo = mid + 1;
            } else {
                hi = mid;
            }
        }
        lo
    }

    /// Point lookup by key bytes.
    pub fn get(&self, key: &[u8]) -> (r: Result<Option<IBlob>, SSTableError>)
        ensures
            found_view(r) == table_get(self@, key@),
            found_hashed(r),
    {
        match self.bloom.probe(key) {
            None => {
                return Err(corrupted("bloom filter out of bounds"));
            },
            Some(admitted) => {
                if !admitted {
                    return Ok(None);
                }
            },
        }
        let block: usize = self.find_block(key);
        if block >= self.block_indices.len() {
            return Ok(None);
        }
        let entries = match self.read_block(&self.block_indices[block]) {
            Ok(entries) => entries,
            Err(e) => {
                return Err(e);
            },
        };
        let at: usize = find_entry(&entries, key);
        if at < entries.len() && bytes_eq(entries[at].0.as_slice(), key) {
            Ok(Some(entries[at].1.clone()))
        } else {
            Ok(None)
        }
    }

    /// Find the latest version of an identity among the entries whose keys start with it.
    /// Keys of all formats that a primary SSTable has are looked at: the _id alone and
    /// (_id, _version).
    fn get_latest_by_prefix(&self, id: &DocumentId, snapshot: &DocumentId) -> (r: Result<
        Option<IBlob>,
        SSTableError,
    >)
        ensures
            found_view(r) == table_latest(self@, id@, snapshot@),
            found_hashed(r),
    {
        // Check bloom filter with the _id prefix (inserted at write time for MVCC keys)
        match self.bloom.probe(id.as_bytes()) {
            None => {
                return Err(corrupted("bloom filter out of bounds"));
            },
            Some(admitted) => {
                if !admitted {
                    return Ok(None);
                }
            },
        }
        let mut max_key: Vec<u8> = Vec::new();
        put_slice(&mut max_key, id.as_bytes());
        put_slice(&mut max_key, snapshot.as_bytes());
        assert(max_key@ =~= version_key(id@, snapshot@));
        match self.range_scan(id.as_bytes(), max_key.as_slice()) {
            Err(e) => Err(e),
            Ok(entries) => Ok(pick_latest(&entries, id, snapshot)),
        }
    }

    /// Point lookup by DocumentId: returns the latest version.
    /// Works with both IdKeyExtractor (16-byte key) and MvccKeyExtractor (32-byte key).
    pub fn get_by_id(&self, id: &DocumentId) -> (r: Result<Option<IBlob>, SSTableError>)
        ensures
            found_view(r) == table_get_by_id(self@, id@),
            found_hashed(r),
    {
        self.get_latest_by_prefix(id, &DocumentId::max())
    }

    /// Find the latest version of a document at a given snapshot.
    /// Returns the highest version <= snapshot for the given _id.
    pub fn get_by_id_at(&self, id: &DocumentId, snapshot: &DocumentId) -> (r: Result<
        Option<IBlob>,
        SSTableError,
    >)
        ensures
            found_view(r) == table_latest(self@, id@, snapshot@),
            found_hashed(r),
    {
        self.get_latest_by_prefix(id, snapshot)
    }

    /// Iterate over all entries in key-sorted order.
    /// Returns (key_bytes, IBlob) pairs.
    pub fn iter(&self) -> (r: Result<Vec<(Vec<u8>, IBlob)>, SSTableError>)
        ensures
            listed_view(r) == table_entries_read(self@),
            r matches Ok(entries) ==> all_hashed(entries@),
    {
        let n: usize = self.block_indices.len();
        let mut all: Vec<(Vec<u8>, IBlob)> = Vec::new();
        let mut i: usize = 0;
        assert(entries_of(all@) =~= seq![]);
        while i < n
            invariant
                n == self.block_indices@.len(),
                i <= n,
                entries_upto(self@, i as nat) == Ok::<Seq<(Seq<u8>, Doc)>, TableFault>(
                    entries_of(all@),
                ),
                all_hashed(all@),
            decreases n - i,
        {
            assert(self@.blocks[i as int] == self.block_indices@[i as int]@);
            match self.read_block(&self.block_indices[i]) {
                Err(e) => {
                    proof {
                        lemma_entries_fault(self@, (i + 1) as nat, n as nat, e@);
                    }
                    return Err(e);
                },
                Ok(entries) => {
                    let ghost before = all@;
                    let ghost more = entries@;
                    let mut entries = entries;
                    all.append(&mut entries);
                    proof {
                        assert(all@ =~= before + more);
                        assert(entries_of(all@) =~= entries_of(before) + entries_of(more));
                        assert forall|j: int| 0 <= j < all@.len() implies (
                        #[trigger] all@[j]).1.held_hash() == content_hash(all@[j].1@) by {
                            if j < before.len() {
                                assert(all@[j] == before[j]);
                            } else {
                                assert(all@[j] == more[j - before.len()]);
                            }
                        }
                    }
                },
            }
            i += 1;
        }
        Ok(all)
    }

    /// Range scan: return all entries with keys in [start_key, end_key].
    /// Both bounds are inclusive. Keys are compared lexicographically.
    pub fn range_scan(&self, start_key: &[u8], end_key: &[u8]) -> (r: Result<
        Vec<(Vec<u8>, IBlob)>,
        SSTableError,
    >)
        ensures
            listed_view(r) == table_range(self@, start_key@, end_key@),
            r matches Ok(entries) ==> all_hashed(entries@),
    {
        let n: usize = self.block_indices.len();
        let found: usize = self.find_block(start_key);
        let mut results: Vec<(Vec<u8>, IBlob)> = Vec::new();
        assert(entries_of(results@) =~= seq![]);
        if found >= n {
            return Ok(results);
        }
        // Walk backward: previous blocks might also contain entries >= start_key
        let mut i: usize = found;
        while i > 0 && !bytes_lt(self.block_indices[i - 1].last_key.as_slice(), start_key)
            invariant
                i <= n,
                n == self.block_indices@.len(),
                forall|j: int|
                    0 <= j < n ==> #[trigger] self@.blocks[j] == self.block_indices@[j]@,
                walk_back(self@.blocks, start_key@, i as int) == walk_back(
                    self@.blocks,
                    start_key@,
                    found as int,
                ),
            decreases i,
        {
            assert(self@.blocks[i - 1] == self.block_indices@[i - 1]@);
            i -= 1;
        }
        proof {
            if i > 0 {
                assert(self@.blocks[i - 1] == self.block_indices@[i - 1]@);
            }
            assert forall|rest: Seq<(Seq<u8>, Doc)>| entries_of(results@) + rest == rest by {
                assert(entries_of(results@) + rest =~= rest);
            }
        }
        while i < n
            invariant
                i <= n,
                n == self.block_indices@.len(),
                all_hashed(results@),
                ({
                    let whole = table_range(self@, start_key@, end_key@);
                    match scan_blocks(self@, start_key@, end_key@, i as int) {
                        Ok(rest) => whole == Ok::<Seq<(Seq<u8>, Doc)>, TableFault>(
                            entries_of(results@) + rest,
                        ),
                        Err(e) => whole == Err::<Seq<(Seq<u8>, Doc)>, TableFault>(e),
                    }
                }),
            decreases n - i,
        {
            let block = &self.block_indices[i];
            assert(self@.blocks[i as int] == block@);
            let entries = match self.read_block(block) {
                Ok(entries) => entries,
                Err(e) => {
                    return Err(e);
                },
            };
            let ghost views = entries_of(entries@);
            let (taken, ended) = take_range(entries, start_key, end_key);
            let empty: bool = taken.len() == 0;
            let ghost before = results@;
            let ghost more = taken@;
            let mut taken = taken;
            results.append(&mut taken);
            proof {
                assert(results@ =~= before + more);
                assert(entries_of(results@) =~= entries_of(before) + entries_of(more));
                assert forall|rest: Seq<(Seq<u8>, Doc)>|
                    entries_of(before) + (entries_of(more) + rest) == entries_of(results@)
                        + rest by {
                    assert(entries_of(before) + (entries_of(more) + rest) =~= entries_of(results@)
                        + rest);
                }
            }
            if ended || (empty && bytes_lt(end_key, block.last_key.as_slice())) {
                return Ok(results);
            }
            i += 1;
        }
        assert(entries_of(results@) + Seq::<(Seq<u8>, Doc)>::empty() =~= entries_of(results@));
        Ok(results)
    }
}

/// Where binary search for a key ends.
fn find_entry(entries: &Vec<(Vec<u8>, IBlob)>, key: &[u8]) -> (i: usize)
    ensures
        i == find_key(entry_keys(entries_of(entries@)), key@),
        i <= entries@.len(),
{
    let ghost keys = entry_keys(entries_of(entries@));
    let n: usize = entries.len();
    let mut lo: usize = 0;
    let mut hi: usize = n;
    while lo < hi
        invariant
            lo <= hi <= n,
            n == entries@.len(),
            keys == entry_keys(entries_of(entries@)),
            keys.len() == n,
            search_keys(keys, key@, lo as int, hi as int) == find_key(keys, key@),
        decreases hi - lo,
    {
        let mid: usize = lo + (hi - lo) / 2;
        assert(keys[mid as int] == entries@[mid as int].0@);
        if bytes_lt(entries[mid].0.as_slice(), key) {
            lo = mid + 1;
        } else {
            hi = mid;
        }
    }
    lo
}

/// Picks the highest version of an identity that a snapshot sees.
fn pick_latest(
    entries: &Vec<(Vec<u8>, IBlob)>,
    id: &DocumentId,
    snapshot: &DocumentId,
) -> (r: Option<IBlob>)
    ensures
        match r {
            Some(blob) => latest_of(entries_of(entries@), id@, snapshot@) == Some(blob@),
            None => latest_of(entries_of(entries@), id@, snapshot@) is None,
        },
        all_hashed(entries@) && r is Some ==> r->Some_0.held_hash() == content_hash(r->Some_0@),
{
    let ghost views = entries_of(entries@);
    let n: usize = entries.len();
    let mut best: Option<usize> = None;
    let mut i: usize = 0;
    assert(views.take(0) =~= seq![]);
    while i < n
        invariant
            n == entries@.len(),
            i <= n,
            views == entries_of(entries@),
            match best {
                Some(at) => at < i && latest_of(views.take(i as int), id@, snapshot@) == Some(
                    entries@[at as int].1@,
                ),
                None => latest_of(views.take(i as int), id@, snapshot@) is None,
            },
        decreases n - i,
    {
        let blob = &entries[i].1;
        proof {
            assert(views.take(i + 1).drop_last() =~= views.take(i as int));
            assert(views.take(i + 1).last() == views[i as int]);
        }
        let version = blob.version();
        if bytes_eq(blob.id().as_bytes(), id.as_bytes()) && !bytes_lt(
            snapshot.as_bytes(),
            version.as_bytes(),
        ) {
            let newer: bool = match best {
                Some(at) => !bytes_lt(version.as_bytes(), entries[at].1.version().as_bytes()),
                None => true,
            };
            if newer {
                best = Some(i);
            }
        }
        i += 1;
    }
    assert(views.take(n as int) =~= views);
    match best {
        Some(at) => Some(entries[at].1.clone()),
        None => None,
    }
}

/// Takes the entries of a block that lie in a range. Returns whether the scan ends here.
fn take_range(entries: Vec<(Vec<u8>, IBlob)>, start: &[u8], end: &[u8]) -> (r: (
    Vec<(Vec<u8>, IBlob)>,
    bool,
))
    ensures
        (entries_of(r.0@), r.1) == scan_block(entries_of(entries@), start@, end@),
        all_hashed(entries@) ==> all_hashed(r.0@),
{
    let ghost views = entries_of(entries@);
    let mut taken: Vec<(Vec<u8>, IBlob)> = Vec::new();
    let mut ended: bool = false;
    assert(views.take(0) =~= seq![]);
    assert(entries_of(taken@) =~= seq![]);
    for entry in iter: entries
        invariant
            iter.seq() == entries@,
            views == entries_of(entries@),
            (entries_of(taken@), ended) == scan_block(views.take(iter.index()), start@, end@),
            all_hashed(entries@) ==> all_hashed(taken@),
    {
        proof {
            let i = iter.index();
            assert(views.take(i + 1).drop_last() =~= views.take(i));
            assert(views.take(i + 1).last() == views[i]);
        }
        if !ended && !bytes_lt(entry.0.as_slice(), start) {
            if bytes_lt(end, entry.0.as_slice()) {
                ended = true;
            } else {
                let ghost before = taken@;
                let ghost view = (entry.0@, entry.1@);
                taken.push(entry);
                assert(entries_of(taken@) =~= entries_of(before).push(view));
            }
        }
    }
    assert(views.take(views.len() as int) =~= views);
    (taken, ended)
}

} // verus!
