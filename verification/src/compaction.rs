//! Compaction: which tables to merge, and what to drop while merging.

use crate::bytes::{
    be, bytes_lt, lemma_be_order, lemma_lex_strict, lemma_lex_total, lemma_lex_transitive, lex_le,
    lex_lt,
};
use crate::document_id::DocumentId;
use crate::fields::{contains_name, texts};
use crate::iblob::{deleted, IBlob};
use crate::sort::{
    comes_before, is_stable_order, lemma_stable_order, positions, ranks, sort_order,
    sorted_by_rank, stable_order, SortKey,
};
use vstd::arithmetic::power::pow;
use vstd::prelude::*;

verus! {

/// Action to take on a blob during compaction.
pub enum CompactionAction {
    /// Keep the blob as-is
    Keep,
    /// Drop the blob (e.g., tombstone purge)
    Drop,
    /// Replace with a transformed blob (e.g., semantic shredding)
    Transform(IBlob),
}

/// Pluggable filter applied during compaction.
/// This is the extension point for future adaptive morphing.
pub trait CompactionFilter {
    fn filter(&mut self, id: &DocumentId, blob: &IBlob) -> CompactionAction;
}

/// Purges tombstones during compaction when safe to do so.
///
/// A tombstone can be safely purged when the compaction output becomes the
/// last (highest) level: there's no older SSTable below that could hold
/// a shadowed live entry. Full compaction is a special case of this.
pub struct TombstoneFilter {
    /// Whether tombstones should be purged in this compaction
    pub purge: bool,
}

impl TombstoneFilter {
    /// Create a filter that purges tombstones if the output level is above the max level
    /// AND no snapshots are active (conservative: don't purge while any snapshot exists).
    pub fn new(output_level: u32, max_level: u32, has_active_snapshots: bool) -> (filter: Self)
        ensures
            filter.purge == (output_level > max_level && !has_active_snapshots),
    {
        TombstoneFilter { purge: output_level > max_level && !has_active_snapshots }
    }
}

impl CompactionFilter for TombstoneFilter {
    fn filter(&mut self, id: &DocumentId, blob: &IBlob) -> (action: CompactionAction)
        ensures
            final(self).purge == old(self).purge,
            action == (if old(self).purge && deleted(blob@) {
                CompactionAction::Drop
            } else {
                CompactionAction::Keep
            }),
    {
        if self.purge && blob.is_deleted() {
            CompactionAction::Drop
        } else {
            CompactionAction::Keep
        }
    }
}

/// Metadata about an SSTable needed for compaction decisions.
#[derive(Debug)]
pub struct SstMeta {
    pub path: String,
    pub min_id: DocumentId,
    pub max_id: DocumentId,
    pub file_size: u64,
    /// Index in the sstables list (for tracking creation order within a level)
    pub seq: u64,
}

impl Clone for SstMeta {
    fn clone(&self) -> (meta: Self)
        ensures
            meta == *self,
    {
        SstMeta {
            path: self.path.clone(),
            min_id: self.min_id,
            max_id: self.max_id,
            file_size: self.file_size,
            seq: self.seq,
        }
    }
}

/// Result of a compaction pick.
#[derive(Debug)]
pub struct CompactionPick {
    /// SSTable paths to compact
    pub inputs: Vec<String>,
    /// Level the output SSTable will belong to
    pub output_level: u32,
    /// Highest level among all current SSTables
    pub max_level: u32,
}

/// A [`CompactionPick`] as a mathematical value.
#[verifier::ext_equal]
pub struct Pick {
    pub inputs: Seq<Seq<char>>,
    pub output_level: int,
    pub max_level: int,
}

impl View for CompactionPick {
    type V = Pick;

    open spec fn view(&self) -> Pick {
        Pick {
            inputs: texts(self.inputs@),
            output_level: self.output_level as int,
            max_level: self.max_level as int,
        }
    }
}

/// Identifiers sort by their bytes.
impl SortKey for DocumentId {
    open spec fn rank(&self) -> Seq<u8> {
        self@
    }

    fn sorts_before(&self, other: &Self) -> (r: bool) {
        bytes_lt(self.as_bytes(), other.as_bytes())
    }
}

/// The smallest identifiers of the tables at some positions.
pub open spec fn min_ids(metas: Seq<SstMeta>, members: Seq<int>) -> Seq<Seq<u8>> {
    Seq::new(members.len(), |k: int| metas[members[k]].min_id@)
}

/// Positions sorted by the smallest identifiers of their tables.
pub open spec fn by_min_id(metas: Seq<SstMeta>, members: Seq<int>) -> Seq<int> {
    sorted_by_rank(members, min_ids(metas, members))
}

/// The greatest identifier in some tables.
pub open spec fn reach(metas: Seq<SstMeta>, chain: Seq<int>) -> Seq<u8>
    decreases chain.len(),
{
    if chain.len() <= 1 {
        metas[chain[0]].max_id@
    } else {
        let before = reach(metas, chain.drop_last());
        let last = metas[chain.last()].max_id@;
        if lex_lt(before, last) {
            last
        } else {
            before
        }
    }
}

/// Tables split into chains: a table joins the chain before it where it starts at or before
/// the greatest identifier of that chain.
pub open spec fn chains(metas: Seq<SstMeta>, sorted: Seq<int>) -> Seq<Seq<int>>
    decreases sorted.len(),
{
    if sorted.len() == 0 {
        seq![]
    } else {
        let before = chains(metas, sorted.drop_last());
        let next = sorted.last();
        if before.len() > 0 && lex_le(metas[next].min_id@, reach(metas, before.last())) {
            before.update(before.len() - 1, before.last().push(next))
        } else {
            before.push(seq![next])
        }
    }
}

/// The first of the longest chains with at least `threshold` tables.
pub open spec fn best_chain(chains: Seq<Seq<int>>, threshold: int) -> Option<Seq<int>>
    decreases chains.len(),
{
    if chains.len() == 0 {
        None
    } else {
        let best = best_chain(chains.drop_last(), threshold);
        let last = chains.last();
        if last.len() >= threshold && (best matches Some(b) ==> last.len() > b.len()) {
            Some(last)
        } else {
            best
        }
    }
}

/// The longest group of overlapping tables among some, if one has at least `threshold`.
pub open spec fn overlap_group(
    metas: Seq<SstMeta>,
    members: Seq<int>,
    threshold: int,
) -> Option<Seq<int>> {
    best_chain(chains(metas, by_min_id(metas, members)), threshold)
}

/// Whether positions are positions of tables.
pub open spec fn valid_members(metas: Seq<SstMeta>, members: Seq<int>) -> bool {
    forall|k: int| 0 <= k < members.len() ==> 0 <= #[trigger] members[k] < metas.len()
}

proof fn lemma_by_min_id(metas: Seq<SstMeta>, members: Seq<int>)
    requires
        valid_members(metas, members),
    ensures
        by_min_id(metas, members).len() == members.len(),
        valid_members(metas, by_min_id(metas, members)),
        forall|k: int|
            0 <= k < members.len() ==> members.contains(#[trigger] by_min_id(metas, members)[k]),
        forall|i: int, j: int|
            0 <= i <= j < members.len() ==> lex_le(
                metas[#[trigger] by_min_id(metas, members)[i]].min_id@,
                metas[#[trigger] by_min_id(metas, members)[j]].min_id@,
            ),
{
    let rs = min_ids(metas, members);
    let order = stable_order(rs);
    let sorted = by_min_id(metas, members);
    lemma_stable_order(rs);
    assert forall|k: int| 0 <= k < members.len() implies members.contains(
        #[trigger] sorted[k],
    ) && 0 <= sorted[k] < metas.len() by {
        assert(sorted[k] == members[order[k]]);
    }
    assert forall|i: int, j: int| 0 <= i <= j < members.len() implies lex_le(
        metas[#[trigger] sorted[i]].min_id@,
        metas[#[trigger] sorted[j]].min_id@,
    ) by {
        assert(rs[order[i]] == metas[sorted[i]].min_id@);
        assert(rs[order[j]] == metas[sorted[j]].min_id@);
        lemma_lex_strict(rs[order[i]], rs[order[j]]);
        if i < j {
            assert(comes_before(rs, order[i], order[j]));
        }
    }
}

/// Positions of tables sorted by their smallest identifiers.
fn sort_by_min_id(metas: &[SstMeta], members: &Vec<usize>) -> (sorted: Vec<usize>)
    requires
        valid_members(metas@, positions(members@)),
    ensures
        positions(sorted@) == by_min_id(metas@, positions(members@)),
        valid_members(metas@, positions(sorted@)),
{
    let ghost places = positions(members@);
    let n: usize = members.len();
    let mut keys: Vec<DocumentId> = Vec::new();
    let mut i: usize = 0;
    while i < n
        invariant
            n == members@.len(),
            places == positions(members@),
            valid_members(metas@, places),
            i <= n,
            keys@.len() == i,
            forall|j: int| 0 <= j < i ==> #[trigger] keys@[j] == metas@[places[j]].min_id,
        decreases n - i,
    {
        assert(0 <= places[i as int] < metas@.len());
        keys.push(metas[members[i]].min_id);
        i += 1;
    }
    assert(ranks(keys@) =~= min_ids(metas@, places));
    let order = sort_order(&keys);
    let mut sorted: Vec<usize> = Vec::new();
    let mut k: usize = 0;
    while k < n
        invariant
            n == members@.len(),
            n == order@.len(),
            places == positions(members@),
            is_stable_order(min_ids(metas@, places), positions(order@)),
            positions(order@) == stable_order(min_ids(metas@, places)),
            k <= n,
            sorted@.len() == k,
            forall|j: int|
                0 <= j < k ==> #[trigger] sorted@[j] == places[positions(order@)[j]],
        decreases n - k,
    {
        assert(0 <= positions(order@)[k as int] < n);
        sorted.push(members[order[k]]);
        k += 1;
    }
    proof {
        assert(positions(sorted@) =~= by_min_id(metas@, places));
        lemma_by_min_id(metas@, places);
    }
    sorted
}

/// Find a group of overlapping SSTables that reaches the threshold.
///
/// Sort by min_id, sweep with running max_id to find overlap chains.
fn find_overlap_group(metas: &[SstMeta], members: &Vec<usize>, threshold: usize) -> (r: Option<
    Vec<usize>,
>)
    requires
        valid_members(metas@, positions(members@)),
        threshold > 0,
    ensures
        match r {
            Some(group) => overlap_group(metas@, positions(members@), threshold as int) == Some(
                positions(group@),
            ),
            None => overlap_group(metas@, positions(members@), threshold as int) is None,
        },
{
    let sorted = sort_by_min_id(metas, members);
    let ghost all = positions(sorted@);
    let n: usize = sorted.len();
    let mut best: Option<Vec<usize>> = None;
    let mut current: Vec<usize> = Vec::new();
    let mut running_max: DocumentId = DocumentId::nil();
    let ghost mut done: Seq<Seq<int>> = seq![];
    let mut i: usize = 0;
    assert(all.take(0) =~= seq![]);
    while i < n
        invariant
            n == sorted@.len(),
            all == positions(sorted@),
            valid_members(metas@, all),
            threshold > 0,
            i <= n,
            i == 0 ==> current@.len() == 0 && done.len() == 0 && best is None,
            i > 0 ==> current@.len() > 0 && chains(metas@, all.take(i as int)) == done.push(
                positions(current@),
            ) && running_max@ == reach(metas@, positions(current@)),
            match best {
                Some(b) => best_chain(done, threshold as int) == Some(positions(b@)),
                None => best_chain(done, threshold as int) is None,
            },
        decreases n - i,
    {
        assert(0 <= all[i as int] < metas@.len());
        let sst: usize = sorted[i];
        let meta = &metas[sst];
        proof {
            assert(all.take(i + 1).drop_last() =~= all.take(i as int));
            assert(all.take(i + 1).last() == sst);
        }
        let ghost before = positions(current@);
        if current.len() > 0 && !bytes_lt(running_max.as_bytes(), meta.min_id.as_bytes()) {
            // Overlaps with current group
            current.push(sst);
            proof {
                assert(positions(current@) =~= before.push(sst as int));
                assert(positions(current@).drop_last() =~= before);
                assert(chains(metas@, all.take(i + 1)) =~= done.push(positions(current@)));
            }
            if bytes_lt(running_max.as_bytes(), meta.max_id.as_bytes()) {
                running_max = meta.max_id;
            }
        } else {
            // No overlap: check if current group qualifies
            if current.len() > 0 {
                proof {
                    assert(done.push(before).drop_last() =~= done);
                    done = done.push(before);
                }
                let better: bool = match &best {
                    Some(b) => current.len() > b.len(),
                    None => true,
                };
                if current.len() >= threshold && better {
                    best = Some(current);
                }
            }
            current = Vec::new();
            current.push(sst);
            running_max = meta.max_id;
            proof {
                assert(positions(current@) =~= seq![sst as int]);
                assert(chains(metas@, all.take(i as int)) =~= done);
                assert(chains(metas@, all.take(i + 1)) =~= done.push(positions(current@)));
            }
        }
        i += 1;
    }
    proof {
        assert(all.take(n as int) =~= all);
    }
    // Check final group
    if current.len() > 0 {
        proof {
            assert(done.push(positions(current@)).drop_last() =~= done);
        }
        let better: bool = match &best {
            Some(b) => current.len() > b.len(),
            None => true,
        };
        if current.len() >= threshold && better {
            best = Some(current);
        }
    }
    best
}

/// Whether `k` is the level of a table: 0 below `flush * f`, and otherwise the greatest power
/// of the fanout by which `flush` can be multiplied without exceeding the size.
pub open spec fn is_level(k: int, size: int, flush: int, f: int) -> bool {
    if size < flush * f {
        k == 0
    } else {
        k >= 1 && flush * pow(f, k as nat) <= size < flush * pow(f, (k + 1) as nat)
    }
}

/// The level of a table.
pub open spec fn level_of(size: int, flush: int, f: int) -> int {
    choose|k: int| is_level(k, size, flush, f)
}

/// A table has one level.
proof fn lemma_level_unique(j: int, k: int, size: int, flush: int, f: int)
    requires
        flush >= 1,
        f >= 2,
        is_level(j, size, flush, f),
        is_level(k, size, flush, f),
    ensures
        j == k,
{
    if j < k {
        lemma_pow_between(f, (j + 1) as nat, k as nat);
        assert(flush * pow(f, (j + 1) as nat) <= flush * pow(f, k as nat)) by (nonlinear_arith)
            requires
                pow(f, (j + 1) as nat) <= pow(f, k as nat),
                flush >= 1,
        ;
    } else if k < j {
        lemma_pow_between(f, (k + 1) as nat, j as nat);
        assert(flush * pow(f, (k + 1) as nat) <= flush * pow(f, j as nat)) by (nonlinear_arith)
            requires
                pow(f, (k + 1) as nat) <= pow(f, j as nat),
                flush >= 1,
        ;
    }
}

proof fn lemma_pow_between(f: int, a: nat, b: nat)
    requires
        f >= 2,
        a <= b,
    ensures
        pow(f, a) <= pow(f, b),
{
    vstd::arithmetic::power::lemma_pow_increases(f as nat, a, b);
}

/// Unified Compaction Strategy (UCS-inspired).
///
/// Assigns SSTables to levels based on file size, detects overlapping
/// SSTables within each level, and triggers compaction when the overlap
/// count reaches the threshold.
///
/// Key formulas (from Cassandra UCS):
/// - `fanout f = if W < 0 { 2 - W } else { 2 + W }`
/// - `threshold t = if W <= 0 { 2 } else { f }`
/// - `level(sst) = floor(log_f(file_size / flush_size)).max(0)`
///
/// Scaling parameter W controls the read/write amplification tradeoff:
/// - W < 0: leveled (low read amp, high write amp)
/// - W = 0: balanced (f=2, t=2)
/// - W > 0: tiered (low write amp, high read amp)
pub struct UcsCompaction {
    /// Scaling parameter W
    scaling_parameter: i32,
    /// Expected memtable flush size in bytes
    flush_size: u64,
}

/// The fanout for a scaling parameter.
pub open spec fn fanout_of(w: int) -> int {
    if w < 0 {
        2 - w
    } else {
        2 + w
    }
}

/// The threshold for a scaling parameter.
pub open spec fn threshold_of(w: int) -> int {
    if w <= 0 {
        2
    } else {
        fanout_of(w)
    }
}

impl UcsCompaction {
    /// The scaling parameter.
    pub closed spec fn w(&self) -> int {
        self.scaling_parameter as int
    }

    /// The expected flush size.
    pub closed spec fn flush(&self) -> int {
        self.flush_size as int
    }

    #[verifier::type_invariant]
    spec fn well_formed(self) -> bool {
        self.flush_size >= 1
    }

    pub fn new(scaling_parameter: i32, flush_size: u64) -> (ucs: Self)
        ensures
            ucs.w() == scaling_parameter,
            ucs.flush() == (if flush_size == 0 {
                1
            } else {
                flush_size as int
            }),
    {
        UcsCompaction {
            scaling_parameter,
            flush_size: if flush_size == 0 {
                1
            } else {
                flush_size
            },
        }
    }

    /// Fanout factor f.
    pub fn fanout(&self) -> (f: u64)
        ensures
            f == fanout_of(self.w()),
    {
        if self.scaling_parameter < 0 {
            (2 - self.scaling_parameter as i64) as u64
        } else {
            (2 + self.scaling_parameter as i64) as u64
        }
    }

    /// Compaction trigger threshold t.
    pub fn threshold(&self) -> (t: usize)
        ensures
            t == threshold_of(self.w()),
    {
        if self.scaling_parameter <= 0 {
            2
        } else {
            self.fanout() as usize
        }
    }

    /// Compute the level for an SSTable based on its file size.
    pub fn level_for_size(&self, file_size: u64) -> (level: u32)
        ensures
            is_level(level as int, file_size as int, self.flush(), fanout_of(self.w())),
            level == level_of(file_size as int, self.flush(), fanout_of(self.w())),
            level < 64,
    {
        proof {
            use_type_invariant(self);
        }
        let f: u64 = self.fanout();
        let flush: u64 = self.flush_size;
        let mut bound: u64 = flush;
        let mut level: u32 = 0;
        proof {
            vstd::arithmetic::power::lemma_pow0(f as int);
            vstd::arithmetic::power::lemma_pow0(2);
            assert(flush * 1 == flush);
        }
        while bound <= file_size / f
            invariant
                f >= 2,
                flush >= 1,
                f == fanout_of(self.w()),
                flush == self.flush(),
                bound == flush * pow(f as int, level as nat),
                bound >= pow(2, level as nat),
                bound >= 1,
                level > 0 ==> bound <= file_size,
                level < 64,
            decreases file_size - bound,
        {
            proof {
                let k = level as nat;
                assert(bound * f <= file_size) by (nonlinear_arith)
                    requires
                        bound <= file_size / f,
                        f >= 2,
                ;
                vstd::arithmetic::power::lemma_pow1(f as int);
                vstd::arithmetic::power::lemma_pow_adds(f as int, k, 1);
                vstd::arithmetic::power::lemma_pow1(2);
                vstd::arithmetic::power::lemma_pow_adds(2, k, 1);
                assert(flush * (pow(f as int, k) * f) == (flush * pow(f as int, k)) * f)
                    by (nonlinear_arith);
                assert(bound * f >= pow(2, k) * 2) by (nonlinear_arith)
                    requires
                        bound >= pow(2, k),
                        f >= 2,
                        bound >= 0,
                ;
                assert(bound * f > bound) by (nonlinear_arith)
                    requires
                        bound >= 1,
                        f >= 2,
                ;
                if k + 1 >= 64 {
                    lemma_pow_between(2, 64, k + 1);
                    vstd::arithmetic::power2::lemma2_to64();
                    vstd::arithmetic::power2::lemma_pow2(64);
                }
            }
            bound = bound * f;
            level += 1;
        }
        proof {
            let k = level as nat;
            assert(file_size < bound * f) by (nonlinear_arith)
                requires
                    bound > file_size / f,
                    f >= 2,
            ;
            vstd::arithmetic::power::lemma_pow1(f as int);
            vstd::arithmetic::power::lemma_pow_adds(f as int, k, 1);
            assert(flush * (pow(f as int, k) * f) == (flush * pow(f as int, k)) * f)
                by (nonlinear_arith);
            if level > 0 {
                lemma_pow_between(f as int, 1, k);
                assert(flush * f <= flush * pow(f as int, k)) by (nonlinear_arith)
                    requires
                        f <= pow(f as int, k),
                        flush >= 1,
                ;
            }
            assert(is_level(level as int, file_size as int, flush as int, f as int));
            lemma_level_unique(
                level as int,
                level_of(file_size as int, flush as int, f as int),
                file_size as int,
                flush as int,
                f as int,
            );
        }
        level
    }
}

/// The level of the table at a position.
pub open spec fn meta_level(metas: Seq<SstMeta>, flush: int, w: int, i: int) -> int {
    level_of(metas[i].file_size as int, flush, fanout_of(w))
}

/// The positions of the first `n` tables that are at a level.
pub open spec fn at_level(metas: Seq<SstMeta>, flush: int, w: int, level: int, n: int) -> Seq<int>
    decreases n,
{
    if n <= 0 {
        seq![]
    } else {
        let before = at_level(metas, flush, w, level, n - 1);
        if meta_level(metas, flush, w, n - 1) == level {
            before.push(n - 1)
        } else {
            before
        }
    }
}

/// The highest level among the first `n` tables.
pub open spec fn top_level(metas: Seq<SstMeta>, flush: int, w: int, n: int) -> int
    decreases n,
{
    if n <= 0 {
        0
    } else {
        let before = top_level(metas, flush, w, n - 1);
        let level = meta_level(metas, flush, w, n - 1);
        if level > before {
            level
        } else {
            before
        }
    }
}

/// The paths of the tables at some positions.
pub open spec fn paths_of(metas: Seq<SstMeta>, members: Seq<int>) -> Seq<Seq<char>> {
    Seq::new(members.len(), |k: int| metas[members[k]].path@)
}

/// The pick for a group at a level.
pub open spec fn pick_of(metas: Seq<SstMeta>, group: Seq<int>, level: int, top: int) -> Pick {
    Pick { inputs: paths_of(metas, group), output_level: level + 1, max_level: top }
}

/// The group of the lowest level from `level` on that has one.
pub open spec fn lowest_pick(metas: Seq<SstMeta>, flush: int, w: int, level: int) -> Option<Pick>
    decreases top_level(metas, flush, w, metas.len() as int) - level + 1,
{
    let top = top_level(metas, flush, w, metas.len() as int);
    if level > top {
        None
    } else {
        let members = at_level(metas, flush, w, level, metas.len() as int);
        match overlap_group(metas, members, threshold_of(w)) {
            Some(group) => Some(pick_of(metas, group, level, top)),
            None => lowest_pick(metas, flush, w, level + 1),
        }
    }
}

/// The members whose paths are not among those of a group.
pub open spec fn without(metas: Seq<SstMeta>, members: Seq<int>, group: Seq<int>) -> Seq<int>
    decreases members.len(),
{
    if members.len() == 0 {
        seq![]
    } else {
        let before = without(metas, members.drop_last(), group);
        if paths_of(metas, group).contains(metas[members.last()].path@) {
            before
        } else {
            before.push(members.last())
        }
    }
}

/// The picks at one level: group after group, until no group is left.
pub open spec fn level_picks(
    metas: Seq<SstMeta>,
    members: Seq<int>,
    threshold: int,
    level: int,
    top: int,
) -> Seq<Pick>
    decreases members.len(),
{
    match overlap_group(metas, members, threshold) {
        None => seq![],
        Some(group) => {
            let rest = without(metas, members, group);
            if rest.len() < members.len() {
                seq![pick_of(metas, group, level, top)] + level_picks(
                    metas,
                    rest,
                    threshold,
                    level,
                    top,
                )
            } else {
                seq![]
            }
        },
    }
}

/// The picks of the first `n` levels.
pub open spec fn picks_below(metas: Seq<SstMeta>, flush: int, w: int, n: int) -> Seq<Pick>
    decreases n,
{
    if n <= 0 {
        seq![]
    } else {
        picks_below(metas, flush, w, n - 1) + level_picks(
            metas,
            at_level(metas, flush, w, n - 1, metas.len() as int),
            threshold_of(w),
            n - 1,
            top_level(metas, flush, w, metas.len() as int),
        )
    }
}

/// All picks, from the lowest level to the highest.
pub open spec fn all_picks(metas: Seq<SstMeta>, flush: int, w: int) -> Seq<Pick> {
    picks_below(metas, flush, w, top_level(metas, flush, w, metas.len() as int) + 1)
}

/// Some picks as mathematical values.
pub open spec fn pick_views(picks: Seq<CompactionPick>) -> Seq<Pick> {
    Seq::new(picks.len(), |i: int| picks[i]@)
}

/// Every table of some chains is among those that were split, and no chain is empty.
proof fn lemma_chains_members(metas: Seq<SstMeta>, sorted: Seq<int>)
    ensures
        forall|c: int, k: int|
            0 <= c < chains(metas, sorted).len() && 0 <= k < chains(metas, sorted)[c].len()
                ==> sorted.contains(#[trigger] chains(metas, sorted)[c][k]),
        forall|c: int|
            0 <= c < chains(metas, sorted).len() ==> (#[trigger] chains(metas, sorted)[c]).len()
                > 0,
    decreases sorted.len(),
{
    if sorted.len() > 0 {
        let init = sorted.drop_last();
        let next = sorted.last();
        lemma_chains_members(metas, init);
        let before = chains(metas, init);
        let after = chains(metas, sorted);
        assert forall|c: int, k: int|
            0 <= c < after.len() && 0 <= k < after[c].len() implies sorted.contains(
            #[trigger] after[c][k],
        ) by {
            if c < before.len() && k < before[c].len() {
                assert(after[c][k] == before[c][k]);
                assert(init.contains(before[c][k]));
                let m = choose|m: int| 0 <= m < init.len() && init[m] == before[c][k];
                assert(sorted[m] == before[c][k]);
            } else {
                assert(after[c][k] == next);
                assert(sorted[sorted.len() - 1] == next);
            }
        }
        assert forall|c: int| 0 <= c < after.len() implies (#[trigger] after[c]).len() > 0 by {
            if c < before.len() {
                assert(before[c].len() > 0);
            }
        }
    }
}

proof fn lemma_best_chain(cs: Seq<Seq<int>>, threshold: int)
    ensures
        best_chain(cs, threshold) matches Some(b) ==> b.len() >= threshold && cs.contains(b),
        best_chain(cs, threshold) is None ==> forall|i: int|
            0 <= i < cs.len() ==> (#[trigger] cs[i]).len() < threshold,
        best_chain(cs, threshold) matches Some(b) ==> forall|i: int|
            0 <= i < cs.len() ==> (#[trigger] cs[i]).len() <= b.len() || cs[i].len() < threshold,
    decreases cs.len(),
{
    if cs.len() > 0 {
        let init = cs.drop_last();
        lemma_best_chain(init, threshold);
        assert(cs[cs.len() - 1] == cs.last());
        if let Some(b) = best_chain(init, threshold) {
            let i = choose|i: int| 0 <= i < init.len() && init[i] == b;
            assert(cs[i] == b);
        }
        assert forall|i: int| 0 <= i < cs.len() implies (i == cs.len() - 1 && #[trigger] cs[i]
            == cs.last()) || (i < init.len() && cs[i] == init[i]) by {}
    }
}

/// A group holds members, and at least `threshold` of them.
pub proof fn lemma_group_members(metas: Seq<SstMeta>, members: Seq<int>, threshold: int)
    requires
        valid_members(metas, members),
    ensures
        overlap_group(metas, members, threshold) matches Some(group) ==> group.len() >= threshold
            && group.len() > 0 && valid_members(metas, group) && forall|k: int|
            0 <= k < group.len() ==> members.contains(#[trigger] group[k]),
{
    let sorted = by_min_id(metas, members);
    let cs = chains(metas, sorted);
    lemma_by_min_id(metas, members);
    lemma_chains_members(metas, sorted);
    lemma_best_chain(cs, threshold);
    if let Some(group) = overlap_group(metas, members, threshold) {
        let c = choose|c: int| 0 <= c < cs.len() && cs[c] == group;
        assert(cs[c].len() > 0);
        assert forall|k: int| 0 <= k < group.len() implies members.contains(#[trigger] group[k])
            && 0 <= group[k] < metas.len() by {
            assert(sorted.contains(cs[c][k]));
            let m = choose|m: int| 0 <= m < sorted.len() && sorted[m] == group[k];
            assert(members.contains(sorted[m]));
        }
    }
}

proof fn lemma_without(metas: Seq<SstMeta>, members: Seq<int>, group: Seq<int>)
    requires
        valid_members(metas, members),
    ensures
        valid_members(metas, without(metas, members, group)),
        without(metas, members, group).len() <= members.len(),
        (exists|k: int|
            0 <= k < members.len() && paths_of(metas, group).contains(
                metas[#[trigger] members[k]].path@,
            )) ==> without(metas, members, group).len() < members.len(),
    decreases members.len(),
{
    if members.len() > 0 {
        let init = members.drop_last();
        assert forall|k: int| 0 <= k < init.len() implies 0 <= #[trigger] init[k]
            < metas.len() by {
            assert(init[k] == members[k]);
        }
        lemma_without(metas, init, group);
        assert(0 <= members[members.len() - 1] < metas.len());
        if exists|k: int|
            0 <= k < members.len() && paths_of(metas, group).contains(
                metas[#[trigger] members[k]].path@,
            ) {
            let k = choose|k: int|
                0 <= k < members.len() && paths_of(metas, group).contains(
                    metas[#[trigger] members[k]].path@,
                );
            if k < init.len() {
                assert(init[k] == members[k]);
            }
        }
    }
}

proof fn lemma_at_level(metas: Seq<SstMeta>, flush: int, w: int, level: int, n: int)
    requires
        0 <= n <= metas.len(),
    ensures
        valid_members(metas, at_level(metas, flush, w, level, n)),
        forall|k: int|
            0 <= k < at_level(metas, flush, w, level, n).len() ==> (#[trigger] at_level(
                metas,
                flush,
                w,
                level,
                n,
            )[k]) < n,
    decreases n,
{
    if n > 0 {
        lemma_at_level(metas, flush, w, level, n - 1);
    }
}

impl UcsCompaction {
    /// The levels of some tables, and the highest of them.
    fn levels(&self, sstables: &[SstMeta]) -> (r: (Vec<u32>, u32))
        ensures
            r.0@.len() == sstables@.len(),
            forall|i: int|
                0 <= i < sstables@.len() ==> #[trigger] r.0@[i] == meta_level(
                    sstables@,
                    self.flush(),
                    self.w(),
                    i,
                ) && r.0@[i] < 64,
            r.1 == top_level(sstables@, self.flush(), self.w(), sstables@.len() as int),
            r.1 < 64,
    {
        let n: usize = sstables.len();
        let mut levels: Vec<u32> = Vec::new();
        let mut top: u32 = 0;
        let mut i: usize = 0;
        while i < n
            invariant
                n == sstables@.len(),
                i <= n,
                levels@.len() == i,
                forall|j: int|
                    0 <= j < i ==> #[trigger] levels@[j] == meta_level(
                        sstables@,
                        self.flush(),
                        self.w(),
                        j,
                    ) && levels@[j] < 64,
                top == top_level(sstables@, self.flush(), self.w(), i as int),
                top < 64,
            decreases n - i,
        {
            let level: u32 = self.level_for_size(sstables[i].file_size);
            if level > top {
                top = level;
            }
            levels.push(level);
            i += 1;
        }
        (levels, top)
    }

    /// Pick SSTables to compact based on UCS overlap detection.
    ///
    /// Returns the paths to compact and the output level, or None.
    pub fn pick_compaction(&self, sstables: &[SstMeta]) -> (r: Option<CompactionPick>)
        ensures
            match r {
                Some(pick) => lowest_pick(sstables@, self.flush(), self.w(), 0) == Some(pick@),
                None => lowest_pick(sstables@, self.flush(), self.w(), 0) is None,
            },
            sstables@.len() == 0 ==> r is None,
    {
        let t: usize = self.threshold();
        let (levels, top) = self.levels(sstables);
        // Check each level (lowest first: reduces read amp fastest)
        let mut level: u32 = 0;
        while level <= top
            invariant
                top < 64,
                level <= top + 1,
                t == threshold_of(self.w()),
                t > 0,
                top == top_level(sstables@, self.flush(), self.w(), sstables@.len() as int),
                levels@.len() == sstables@.len(),
                forall|i: int|
                    0 <= i < sstables@.len() ==> #[trigger] levels@[i] == meta_level(
                        sstables@,
                        self.flush(),
                        self.w(),
                        i,
                    ),
                lowest_pick(sstables@, self.flush(), self.w(), 0) == lowest_pick(
                    sstables@,
                    self.flush(),
                    self.w(),
                    level as int,
                ),
            decreases top + 1 - level,
        {
            let members = members_at(
                &levels,
                level,
                sstables,
                Ghost(self.flush()),
                Ghost(self.w()),
            );
            if let Some(group) = find_overlap_group(sstables, &members, t) {
                proof {
                    lemma_at_level(
                        sstables@,
                        self.flush(),
                        self.w(),
                        level as int,
                        sstables@.len() as int,
                    );
                    lemma_group_members(sstables@, positions(members@), t as int);
                    assert(sstables@.len() > 0) by {
                        assert(0 <= positions(group@)[0] < sstables@.len());
                    }
                }
                return Some(make_pick(sstables, &group, level, top));
            }
            level += 1;
        }
        None
    }

    /// Pick ALL eligible compaction groups across all levels.
    /// Returns multiple independent compaction jobs that can run in parallel.
    pub fn pick_all_compactions(&self, sstables: &[SstMeta]) -> (picks: Vec<CompactionPick>)
        ensures
            pick_views(picks@) == all_picks(sstables@, self.flush(), self.w()),
            sstables@.len() == 0 ==> picks@.len() == 0,
    {
        let t: usize = self.threshold();
        let (levels, top) = self.levels(sstables);
        let mut picks: Vec<CompactionPick> = Vec::new();
        let mut level: u32 = 0;
        assert(pick_views(picks@) =~= seq![]);
        while level <= top
            invariant
                top < 64,
                level <= top + 1,
                t == threshold_of(self.w()),
                t > 0,
                top == top_level(sstables@, self.flush(), self.w(), sstables@.len() as int),
                levels@.len() == sstables@.len(),
                forall|i: int|
                    0 <= i < sstables@.len() ==> #[trigger] levels@[i] == meta_level(
                        sstables@,
                        self.flush(),
                        self.w(),
                        i,
                    ),
                pick_views(picks@) == picks_below(
                    sstables@,
                    self.flush(),
                    self.w(),
                    level as int,
                ),
            decreases top + 1 - level,
        {
            let members = members_at(
                &levels,
                level,
                sstables,
                Ghost(self.flush()),
                Ghost(self.w()),
            );
            let ghost before = picks@;
            let mut found = picks_at_level(sstables, members, t, level, top);
            let ghost more = found@;
            picks.append(&mut found);
            proof {
                assert(picks@ =~= before + more);
                assert(pick_views(picks@) =~= pick_views(before) + pick_views(more));
            }
            level += 1;
        }
        proof {
            let all = all_picks(sstables@, self.flush(), self.w());
            assert(all.len() == picks@.len());
            if all.len() > 0 {
                law_picks_merge_levels(sstables@, self.flush(), self.w(), 0);
                lemma_drawn_level(sstables@, self.flush(), self.w(), all[0], all[0].inputs[0]);
            }
        }
        picks
    }
}

/// The positions of the tables at a level.
fn members_at(
    levels: &Vec<u32>,
    level: u32,
    metas: &[SstMeta],
    Ghost(flush): Ghost<int>,
    Ghost(w): Ghost<int>,
) -> (members: Vec<usize>)
    requires
        levels@.len() == metas@.len(),
        forall|i: int|
            0 <= i < metas@.len() ==> #[trigger] levels@[i] == meta_level(metas@, flush, w, i),
    ensures
        positions(members@) == at_level(metas@, flush, w, level as int, metas@.len() as int),
        valid_members(metas@, positions(members@)),
{
    let n: usize = levels.len();
    let mut members: Vec<usize> = Vec::new();
    let mut i: usize = 0;
    assert(positions(members@) =~= seq![]);
    while i < n
        invariant
            n == levels@.len(),
            n == metas@.len(),
            i <= n,
            forall|j: int|
                0 <= j < metas@.len() ==> #[trigger] levels@[j] == meta_level(metas@, flush, w, j),
            positions(members@) == at_level(metas@, flush, w, level as int, i as int),
        decreases n - i,
    {
        if levels[i] == level {
            let ghost before = positions(members@);
            members.push(i);
            assert(positions(members@) =~= before.push(i as int));
        }
        i += 1;
    }
    proof {
        lemma_at_level(metas@, flush, w, level as int, n as int);
    }
    members
}

/// The paths of the tables at some positions.
fn collect_paths(metas: &[SstMeta], group: &Vec<usize>) -> (paths: Vec<String>)
    requires
        valid_members(metas@, positions(group@)),
    ensures
        texts(paths@) == paths_of(metas@, positions(group@)),
{
    let n: usize = group.len();
    let mut paths: Vec<String> = Vec::new();
    let mut i: usize = 0;
    while i < n
        invariant
            n == group@.len(),
            valid_members(metas@, positions(group@)),
            i <= n,
            paths@.len() == i,
            forall|j: int|
                0 <= j < i ==> (#[trigger] paths@[j])@ == metas@[positions(group@)[j]].path@,
        decreases n - i,
    {
        assert(0 <= positions(group@)[i as int] < metas@.len());
        paths.push(metas[group[i]].path.clone());
        i += 1;
    }
    assert(texts(paths@) =~= paths_of(metas@, positions(group@)));
    paths
}

/// The pick for a group at a level.
fn make_pick(metas: &[SstMeta], group: &Vec<usize>, level: u32, top: u32) -> (pick:
    CompactionPick)
    requires
        valid_members(metas@, positions(group@)),
        level < 64,
    ensures
        pick@ == pick_of(metas@, positions(group@), level as int, top as int),
{
    CompactionPick { inputs: collect_paths(metas, group), output_level: level + 1, max_level: top }
}

/// The picks at one level.
fn picks_at_level(
    metas: &[SstMeta],
    members: Vec<usize>,
    threshold: usize,
    level: u32,
    top: u32,
) -> (picks: Vec<CompactionPick>)
    requires
        valid_members(metas@, positions(members@)),
        threshold > 0,
        level < 64,
    ensures
        pick_views(picks@) == level_picks(
            metas@,
            positions(members@),
            threshold as int,
            level as int,
            top as int,
        ),
{
    let ghost whole = level_picks(
        metas@,
        positions(members@),
        threshold as int,
        level as int,
        top as int,
    );
    let mut picks: Vec<CompactionPick> = Vec::new();
    let mut remaining: Vec<usize> = members;
    let mut more: bool = true;
    assert(pick_views(picks@) + whole =~= whole);
    while more
        invariant
            valid_members(metas@, positions(remaining@)),
            threshold > 0,
            level < 64,
            more ==> pick_views(picks@) + level_picks(
                metas@,
                positions(remaining@),
                threshold as int,
                level as int,
                top as int,
            ) == whole,
            !more ==> pick_views(picks@) == whole,
        decreases remaining@.len(), (if more { 1int } else { 0int }),
    {
        let ghost left = positions(remaining@);
        match find_overlap_group(metas, &remaining, threshold) {
            None => {
                assert(pick_views(picks@) + Seq::<Pick>::empty() =~= pick_views(picks@));
                more = false;
            },
            Some(group) => {
                let ghost g = positions(group@);
                proof {
                    lemma_group_members(metas@, left, threshold as int);
                    lemma_without(metas@, left, g);
                    assert(left.contains(g[0]));
                    let k = choose|k: int| 0 <= k < left.len() && left[k] == g[0];
                    assert(paths_of(metas@, g)[0] == metas@[left[k]].path@);
                }
                let pick = make_pick(metas, &group, level, top);
                let ghost before = pick_views(picks@);
                let ghost pick_view = pick@;
                // Remove the picked group from remaining
                remaining = remove_paths(metas, &remaining, &pick.inputs, Ghost(g));
                picks.push(pick);
                proof {
                    assert(pick_views(picks@) =~= before.push(pick_view));
                    let rest = level_picks(
                        metas@,
                        positions(remaining@),
                        threshold as int,
                        level as int,
                        top as int,
                    );
                    assert(before + (seq![pick_view] + rest) =~= pick_views(picks@) + rest);
                }
            },
        }
    }
    picks
}

/// The members whose paths are not listed.
fn remove_paths(
    metas: &[SstMeta],
    members: &Vec<usize>,
    paths: &Vec<String>,
    Ghost(group): Ghost<Seq<int>>,
) -> (rest: Vec<usize>)
    requires
        valid_members(metas@, positions(members@)),
        texts(paths@) == paths_of(metas@, group),
    ensures
        positions(rest@) == without(metas@, positions(members@), group),
{
    let ghost all = positions(members@);
    let n: usize = members.len();
    let mut rest: Vec<usize> = Vec::new();
    let mut i: usize = 0;
    assert(all.take(0) =~= seq![]);
    assert(positions(rest@) =~= seq![]);
    while i < n
        invariant
            n == members@.len(),
            all == positions(members@),
            valid_members(metas@, all),
            texts(paths@) == paths_of(metas@, group),
            i <= n,
            positions(rest@) == without(metas@, all.take(i as int), group),
        decreases n - i,
    {
        assert(0 <= all[i as int] < metas@.len());
        proof {
            assert(all.take(i + 1).drop_last() =~= all.take(i as int));
            assert(all.take(i + 1).last() == all[i as int]);
        }
        if !contains_name(paths.as_slice(), &metas[members[i]].path) {
            let ghost before = positions(rest@);
            rest.push(members[i]);
            assert(positions(rest@) =~= before.push(all[i as int]));
        }
        i += 1;
    }
    assert(all.take(n as int) =~= all);
    rest
}

/// The files whose sizes are known, with their sizes.
pub open spec fn sized_files(files: Seq<(String, Option<u64>)>) -> Seq<(Seq<char>, u64)>
    decreases files.len(),
{
    if files.len() == 0 {
        seq![]
    } else {
        let before = sized_files(files.drop_last());
        match files.last().1 {
            Some(size) => before.push((files.last().0@, size)),
            None => before,
        }
    }
}

/// The ranks of some files: their sizes.
pub open spec fn size_ranks(files: Seq<(Seq<char>, u64)>) -> Seq<Seq<u8>> {
    Seq::new(files.len(), |i: int| be(files[i].1 as nat, 8))
}

/// Files sorted by size, files of one size in their original order.
pub open spec fn by_size(files: Seq<(Seq<char>, u64)>) -> Seq<(Seq<char>, u64)> {
    sorted_by_rank(files, size_ranks(files))
}

/// Files split into tiers: a file joins the tier before it where it is at most twice as large
/// as the first file of that tier. Without files there is one empty tier.
pub open spec fn tiers(sorted: Seq<(Seq<char>, u64)>) -> Seq<Seq<(Seq<char>, u64)>>
    decreases sorted.len(),
{
    if sorted.len() == 0 {
        seq![seq![]]
    } else {
        let before = tiers(sorted.drop_last());
        let next = sorted.last();
        if before.last().len() == 0 || next.1 <= before.last()[0].1 * 2 {
            before.update(before.len() - 1, before.last().push(next))
        } else {
            before.push(seq![next])
        }
    }
}

/// The first tier with at least `threshold` files.
pub open spec fn first_tier(
    tiers: Seq<Seq<(Seq<char>, u64)>>,
    threshold: int,
) -> Option<Seq<(Seq<char>, u64)>>
    decreases tiers.len(),
{
    if tiers.len() == 0 {
        None
    } else {
        match first_tier(tiers.drop_last(), threshold) {
            Some(tier) => Some(tier),
            None => if tiers.last().len() >= threshold {
                Some(tiers.last())
            } else {
                None
            },
        }
    }
}

/// The names of some files.
pub open spec fn file_names(files: Seq<(Seq<char>, u64)>) -> Seq<Seq<char>> {
    Seq::new(files.len(), |i: int| files[i].0)
}

/// The files that size-tiered compaction merges, if any.
pub open spec fn tier_pick(
    files: Seq<(String, Option<u64>)>,
    threshold: int,
) -> Option<Seq<Seq<char>>> {
    if files.len() < threshold {
        None
    } else {
        match first_tier(tiers(by_size(sized_files(files))), threshold) {
            Some(tier) => Some(file_names(tier)),
            None => None,
        }
    }
}

/// Size-Tiered Compaction Strategy.
///
/// Groups SSTables by similar file size and triggers compaction
/// when a group reaches the threshold.
pub struct SizeTieredCompaction {
    threshold: usize,
}

/// The names and sizes of the files whose sizes are known.
fn collect_sized(files: &[(String, Option<u64>)]) -> (r: (Vec<String>, Vec<u64>))
    ensures
        r.0@.len() == r.1@.len(),
        sized_files(files@).len() == r.0@.len(),
        forall|i: int|
            0 <= i < r.0@.len() ==> #[trigger] sized_files(files@)[i] == (r.0@[i]@, r.1@[i]),
{
    let n: usize = files.len();
    let mut names: Vec<String> = Vec::new();
    let mut sizes: Vec<u64> = Vec::new();
    let mut i: usize = 0;
    assert(files@.take(0) =~= seq![]);
    while i < n
        invariant
            n == files@.len(),
            i <= n,
            names@.len() == sizes@.len(),
            sized_files(files@.take(i as int)).len() == names@.len(),
            forall|j: int|
                0 <= j < names@.len() ==> #[trigger] sized_files(files@.take(i as int))[j] == (
                    names@[j]@,
                    sizes@[j],
                ),
        decreases n - i,
    {
        proof {
            assert(files@.take(i + 1).drop_last() =~= files@.take(i as int));
            assert(files@.take(i + 1).last() == files@[i as int]);
        }
        if let Some(size) = files[i].1 {
            names.push(files[i].0.clone());
            sizes.push(size);
        }
        i += 1;
    }
    assert(files@.take(n as int) =~= files@);
    (names, sizes)
}

impl SizeTieredCompaction {
    /// The number of files of similar size that triggers compaction.
    pub closed spec fn limit(&self) -> int {
        self.threshold as int
    }

    pub fn new(threshold: usize) -> (strategy: Self)
        ensures
            strategy.limit() == threshold,
    {
        SizeTieredCompaction { threshold }
    }

    /// Pick SSTables to compact, if any group has reached the threshold.
    /// Each path comes with the size of its file, `None` where there is no such file.
    /// Returns the paths of SSTables to merge, or None.
    pub fn pick_compaction(&self, sst_paths: &[(String, Option<u64>)]) -> (r: Option<Vec<String>>)
        ensures
            match r {
                Some(paths) => tier_pick(sst_paths@, self.limit()) == Some(
                    texts(paths@),
                ),
                None => tier_pick(sst_paths@, self.limit()) is None,
            },
    {
        if sst_paths.len() < self.threshold {
            return None;
        }
        let (names, sizes) = collect_sized(sst_paths);
        let ghost sized = sized_files(sst_paths@);
        let ghost sorted = by_size(sized);
        let ghost threshold = self.threshold as int;
        assert(ranks(sizes@) =~= size_ranks(sized));
        let order = sort_order(&sizes);
        let n: usize = order.len();
        // Group by similar size (within 2x of each other)
        let mut picked: Option<Vec<String>> = None;
        let mut current: Vec<String> = Vec::new();
        let mut group_min: u64 = 0;
        let ghost mut done: Seq<Seq<(Seq<char>, u64)>> = seq![];
        let ghost mut tier: Seq<(Seq<char>, u64)> = seq![];
        let mut i: usize = 0;
        proof {
            assert(sorted.take(0) =~= seq![]);
            assert(done.push(tier) =~= seq![seq![]]);
            assert(texts(current@) =~= file_names(tier));
        }
        while i < n
            invariant
                n == order@.len(),
                n == sized.len(),
                threshold == self.threshold,
                sorted == by_size(sized),
                is_stable_order(size_ranks(sized), positions(order@)),
                positions(order@) == stable_order(size_ranks(sized)),
                names@.len() == sizes@.len(),
                sized.len() == names@.len(),
                forall|j: int|
                    0 <= j < names@.len() ==> #[trigger] sized[j] == (names@[j]@, sizes@[j]),
                i <= n,
                tiers(sorted.take(i as int)) == done.push(tier),
                texts(current@) == file_names(tier),
                tier.len() > 0 ==> group_min == tier[0].1,
                match picked {
                    Some(p) => first_tier(done, threshold) matches Some(t) && file_names(t)
                        == texts(p@),
                    None => first_tier(done, threshold) is None,
                },
            decreases n - i,
        {
            assert(0 <= positions(order@)[i as int] < n);
            let at: usize = order[i];
            let size: u64 = sizes[at];
            proof {
                assert(sorted.take(i + 1).drop_last() =~= sorted.take(i as int));
                assert(sorted.take(i + 1).last() == sized[at as int]);
                assert(current@.len() == texts(current@).len());
            }
            let ghost next = sized[at as int];
            if current.len() == 0 || size <= group_min || size - group_min <= group_min {
                if current.len() == 0 {
                    group_min = size;
                }
                let ghost before = current@;
                current.push(names[at].clone());
                proof {
                    assert(done.push(tier).update(done.len() as int, tier.push(next)) =~= done.push(
                        tier.push(next),
                    ));
                    assert(file_names(tier.push(next)) =~= file_names(tier).push(next.0));
                    assert(texts(current@) =~= texts(before).push(
                        next.0,
                    ));
                    tier = tier.push(next);
                }
            } else {
                proof {
                    assert(done.push(tier).drop_last() =~= done);
                    done = done.push(tier);
                }
                if current.len() >= self.threshold && picked.is_none() {
                    picked = Some(current);
                }
                current = Vec::new();
                current.push(names[at].clone());
                group_min = size;
                proof {
                    tier = seq![next];
                    assert(texts(current@) =~= file_names(tier));
                }
            }
            i += 1;
        }
        proof {
            assert(sorted.take(n as int) =~= sorted);
            assert(done.push(tier).drop_last() =~= done);
            assert(current@.len() == texts(current@).len());
        }
        if current.len() >= self.threshold && picked.is_none() {
            picked = Some(current);
        }
        // Return the first group that reached threshold
        picked
    }
}

/// Whether the ranges of two tables share an identifier.
pub open spec fn overlaps(a: SstMeta, b: SstMeta) -> bool {
    lex_le(a.min_id@, b.max_id@) && lex_le(b.min_id@, a.max_id@)
}

/// Whether a table's smallest identifier is not above its greatest.
pub open spec fn ranged(meta: SstMeta) -> bool {
    lex_le(meta.min_id@, meta.max_id@)
}

/// The reach of a chain is the greatest identifier of one of its tables, and no table of it
/// goes further.
proof fn lemma_reach(metas: Seq<SstMeta>, chain: Seq<int>)
    requires
        chain.len() > 0,
    ensures
        exists|k: int|
            0 <= k < chain.len() && reach(metas, chain) == metas[#[trigger] chain[k]].max_id@,
        forall|k: int|
            0 <= k < chain.len() ==> lex_le(
                metas[#[trigger] chain[k]].max_id@,
                reach(metas, chain),
            ),
    decreases chain.len(),
{
    let r = reach(metas, chain);
    lemma_lex_strict(r, r);
    if chain.len() == 1 {
        assert(r == metas[chain[0]].max_id@);
    } else {
        let init = chain.drop_last();
        lemma_reach(metas, init);
        let before = reach(metas, init);
        let last = metas[chain.last()].max_id@;
        lemma_lex_total(before, last);
        lemma_lex_strict(before, last);
        assert forall|k: int| 0 <= k < chain.len() implies lex_le(
            metas[#[trigger] chain[k]].max_id@,
            r,
        ) by {
            if k < init.len() {
                assert(init[k] == chain[k]);
                lemma_lex_transitive(metas[chain[k]].max_id@, before, r);
            }
        }
        if lex_lt(before, last) {
            assert(r == metas[chain[chain.len() - 1]].max_id@);
        } else {
            let k = choose|k: int|
                0 <= k < init.len() && before == metas[#[trigger] init[k]].max_id@;
            assert(chain[k] == init[k]);
        }
    }
}

/// Whether each table of a chain but the first overlaps one before it.
pub open spec fn linked(metas: Seq<SstMeta>, chain: Seq<int>) -> bool {
    forall|k: int| 0 < k < chain.len() ==> #[trigger] links_back(metas, chain, k)
}

/// Whether a table of a chain overlaps one before it.
pub open spec fn links_back(metas: Seq<SstMeta>, chain: Seq<int>, k: int) -> bool {
    exists|j: int| 0 <= j < k && overlaps(metas[#[trigger] chain[j]], metas[chain[k]])
}

/// Whether the tables of one chain end before those of another begin.
spec fn apart(metas: Seq<SstMeta>, a: Seq<int>, b: Seq<int>) -> bool {
    forall|j: int, k: int|
        0 <= j < a.len() && 0 <= k < b.len() ==> lex_lt(
            metas[#[trigger] a[j]].max_id@,
            metas[#[trigger] b[k]].min_id@,
        )
}

/// Whether a position is in one of some chains.
spec fn in_chain(cs: Seq<Seq<int>>, m: int) -> bool {
    exists|c: int| 0 <= c < cs.len() && (#[trigger] cs[c]).contains(m)
}

/// Whether tables are sorted by their smallest identifiers.
spec fn ascending(metas: Seq<SstMeta>, sorted: Seq<int>) -> bool {
    forall|i: int, j: int|
        0 <= i <= j < sorted.len() ==> lex_le(
            metas[#[trigger] sorted[i]].min_id@,
            metas[#[trigger] sorted[j]].min_id@,
        )
}

proof fn lemma_chains_apart(metas: Seq<SstMeta>, sorted: Seq<int>)
    requires
        ascending(metas, sorted),
        forall|i: int| 0 <= i < sorted.len() ==> ranged(metas[#[trigger] sorted[i]]),
    ensures
        forall|c: int, d: int|
            0 <= c < d < chains(metas, sorted).len() ==> apart(
                metas,
                #[trigger] chains(metas, sorted)[c],
                #[trigger] chains(metas, sorted)[d],
            ),
        forall|c: int|
            0 <= c < chains(metas, sorted).len() ==> linked(
                metas,
                #[trigger] chains(metas, sorted)[c],
            ),
        forall|i: int|
            0 <= i < sorted.len() ==> in_chain(chains(metas, sorted), #[trigger] sorted[i]),
    decreases sorted.len(),
{
    if sorted.len() > 0 {
        let init = sorted.drop_last();
        let next = sorted.last();
        assert(sorted[sorted.len() - 1] == next);
        assert forall|i: int, j: int| 0 <= i <= j < init.len() implies lex_le(
            metas[#[trigger] init[i]].min_id@,
            metas[#[trigger] init[j]].min_id@,
        ) by {
            assert(init[i] == sorted[i] && init[j] == sorted[j]);
        }
        assert forall|i: int| 0 <= i < init.len() implies ranged(metas[#[trigger] init[i]]) by {
            assert(init[i] == sorted[i]);
        }
        lemma_chains_apart(metas, init);
        lemma_chains_members(metas, init);
        let before = chains(metas, init);
        let after = chains(metas, sorted);
        let l = before.len() - 1;
        assert forall|c: int, k: int|
            0 <= c < before.len() && 0 <= k < before[c].len() implies lex_le(
            metas[#[trigger] before[c][k]].min_id@,
            metas[next].min_id@,
        ) by {
            assert(init.contains(before[c][k]));
            let m = choose|m: int| 0 <= m < init.len() && init[m] == before[c][k];
            assert(sorted[m] == before[c][k]);
        }
        // Every chain before the last ends before the new table begins.
        assert forall|c: int, j: int|
            0 <= c < l && 0 <= j < before[c].len() implies lex_lt(
            metas[#[trigger] before[c][j]].max_id@,
            metas[next].min_id@,
        ) by {
            assert(apart(metas, before[c], before[l]));
            assert(before[l].len() > 0);
            lemma_lex_transitive(
                metas[before[c][j]].max_id@,
                metas[before[l][0]].min_id@,
                metas[next].min_id@,
            );
        }
        let joins = before.len() > 0 && lex_le(metas[next].min_id@, reach(metas, before.last()));
        if before.len() > 0 {
            assert(before[l].len() > 0);
            lemma_reach(metas, before[l]);
        }
        if joins {
            let chain = before[l].push(next);
            assert(after =~= before.update(l, chain));
            assert forall|k: int| 0 < k < chain.len() implies #[trigger] links_back(
                metas,
                chain,
                k,
            ) by {
                if k < before[l].len() {
                    assert(linked(metas, before[l]));
                    assert(links_back(metas, before[l], k));
                    let j = choose|j: int|
                        0 <= j < k && overlaps(
                            metas[#[trigger] before[l][j]],
                            metas[before[l][k]],
                        );
                    assert(chain[j] == before[l][j] && chain[k] == before[l][k]);
                } else {
                    let j = choose|j: int|
                        0 <= j < before[l].len() && reach(metas, before[l])
                            == metas[#[trigger] before[l][j]].max_id@;
                    assert(chain[j] == before[l][j] && chain[k] == next);
                    assert(ranged(metas[sorted[sorted.len() - 1]]));
                    lemma_lex_transitive(
                        metas[chain[j]].min_id@,
                        metas[next].min_id@,
                        metas[next].max_id@,
                    );
                    assert(overlaps(metas[chain[j]], metas[chain[k]]));
                }
            }
            assert forall|c: int, d: int| 0 <= c < d < after.len() implies apart(
                metas,
                #[trigger] after[c],
                #[trigger] after[d],
            ) by {
                assert(apart(metas, before[c], before[d]));
            }
        } else {
            assert(after =~= before.push(seq![next]));
            assert forall|c: int, d: int| 0 <= c < d < after.len() implies apart(
                metas,
                #[trigger] after[c],
                #[trigger] after[d],
            ) by {
                if d < before.len() {
                    assert(apart(metas, before[c], before[d]));
                } else {
                    assert forall|j: int, k: int|
                        0 <= j < after[c].len() && 0 <= k < after[d].len() implies lex_lt(
                        metas[#[trigger] after[c][j]].max_id@,
                        metas[#[trigger] after[d][k]].min_id@,
                    ) by {
                        assert(after[c][j] == before[c][j]);
                        if c == l {
                            let r = reach(metas, before[l]);
                            let m = metas[before[l][j]].max_id@;
                            lemma_lex_total(metas[next].min_id@, r);
                            lemma_lex_total(m, r);
                            lemma_lex_strict(m, r);
                            lemma_lex_transitive(m, r, metas[next].min_id@);
                        }
                    }
                }
            }
        }
        assert forall|c: int| 0 <= c < after.len() implies linked(metas, #[trigger] after[c]) by {
            if c < before.len() {
                assert(linked(metas, before[c]));
            }
        }
        assert forall|i: int| 0 <= i < sorted.len() implies in_chain(
            after,
            #[trigger] sorted[i],
        ) by {
            if i < init.len() {
                assert(init[i] == sorted[i]);
                assert(in_chain(before, init[i]));
                let c = choose|c: int|
                    0 <= c < before.len() && (#[trigger] before[c]).contains(init[i]);
                let k = choose|k: int| 0 <= k < before[c].len() && before[c][k] == init[i];
                assert(after[c][k] == sorted[i]);
                assert(after[c].contains(sorted[i]));
            } else {
                let c = after.len() - 1;
                assert(after[c][after[c].len() - 1] == next);
                assert(after[c].contains(sorted[i]));
            }
        }
    }
}

/// A group is connected and complete: it has at least `threshold` tables, each but the first
/// overlaps one before it, and no other member overlaps any table of the group.
pub proof fn law_group_is_an_overlap(metas: Seq<SstMeta>, members: Seq<int>, threshold: int)
    requires
        valid_members(metas, members),
        forall|k: int| 0 <= k < members.len() ==> ranged(metas[#[trigger] members[k]]),
    ensures
        overlap_group(metas, members, threshold) matches Some(group) ==> {
            &&& group.len() >= threshold
            &&& forall|k: int| 0 <= k < group.len() ==> members.contains(#[trigger] group[k])
            &&& linked(metas, group)
            &&& forall|m: int, k: int|
                0 <= m < members.len() && 0 <= k < group.len() && !group.contains(members[m])
                    ==> !overlaps(metas[#[trigger] members[m]], metas[#[trigger] group[k]])
        },
{
    if let Some(group) = overlap_group(metas, members, threshold) {
        let sorted = by_min_id(metas, members);
        let cs = chains(metas, sorted);
        lemma_by_min_id(metas, members);
        assert forall|i: int| 0 <= i < sorted.len() implies ranged(
            metas[#[trigger] sorted[i]],
        ) by {
            assert(members.contains(sorted[i]));
        }
        lemma_chains_apart(metas, sorted);
        lemma_group_members(metas, members, threshold);
        lemma_best_chain(cs, threshold);
        let g = choose|g: int| 0 <= g < cs.len() && cs[g] == group;
        assert forall|m: int, k: int|
            0 <= m < members.len() && 0 <= k < group.len() && !group.contains(
                members[m],
            ) implies !overlaps(metas[#[trigger] members[m]], metas[#[trigger] group[k]]) by {
            lemma_by_min_id_covers(metas, members, m);
            let i = choose|i: int| 0 <= i < sorted.len() && sorted[i] == members[m];
            assert(in_chain(cs, sorted[i]));
            let c = choose|c: int| 0 <= c < cs.len() && (#[trigger] cs[c]).contains(sorted[i]);
            let j = choose|j: int| 0 <= j < cs[c].len() && cs[c][j] == sorted[i];
            if c < g {
                assert(apart(metas, cs[c], cs[g]));
                assert(lex_lt(metas[cs[c][j]].max_id@, metas[cs[g][k]].min_id@));
            } else if g < c {
                assert(apart(metas, cs[g], cs[c]));
                assert(lex_lt(metas[cs[g][k]].max_id@, metas[cs[c][j]].min_id@));
            }
        }
    }
}

proof fn lemma_by_min_id_covers(metas: Seq<SstMeta>, members: Seq<int>, m: int)
    requires
        0 <= m < members.len(),
    ensures
        by_min_id(metas, members).contains(members[m]),
{
    let rs = min_ids(metas, members);
    let order = stable_order(rs);
    lemma_stable_order(rs);
    assert(order.contains(m));
    let i = choose|i: int| 0 <= i < order.len() && order[i] == m;
    assert(by_min_id(metas, members)[i] == members[m]);
}

proof fn lemma_chains_distinct(metas: Seq<SstMeta>, sorted: Seq<int>)
    requires
        sorted.no_duplicates(),
    ensures
        forall|c: int|
            0 <= c < chains(metas, sorted).len() ==> (#[trigger] chains(
                metas,
                sorted,
            )[c]).no_duplicates(),
    decreases sorted.len(),
{
    if sorted.len() > 0 {
        let init = sorted.drop_last();
        lemma_chains_distinct(metas, init);
        lemma_chains_members(metas, init);
        let before = chains(metas, init);
        let after = chains(metas, sorted);
        assert forall|c: int| 0 <= c < after.len() implies (
        #[trigger] after[c]).no_duplicates() by {
            if c < before.len() {
                assert(before[c].no_duplicates());
                assert forall|k: int| 0 <= k < before[c].len() implies before[c][k]
                    != sorted.last() by {
                    assert(init.contains(before[c][k]));
                    let m = choose|m: int| 0 <= m < init.len() && init[m] == before[c][k];
                    assert(sorted[m] != sorted[sorted.len() - 1]);
                }
            }
        }
    }
}

/// Tables that do not overlap form no group of two or more.
pub proof fn law_no_overlap_no_group(metas: Seq<SstMeta>, members: Seq<int>, threshold: int)
    requires
        valid_members(metas, members),
        members.no_duplicates(),
        forall|k: int| 0 <= k < members.len() ==> ranged(metas[#[trigger] members[k]]),
        forall|j: int, k: int|
            0 <= j < members.len() && 0 <= k < members.len() && j != k ==> !overlaps(
                metas[#[trigger] members[j]],
                metas[#[trigger] members[k]],
            ),
        threshold >= 2,
    ensures
        overlap_group(metas, members, threshold) is None,
{
    if let Some(group) = overlap_group(metas, members, threshold) {
        let rs = min_ids(metas, members);
        let order = stable_order(rs);
        let sorted = by_min_id(metas, members);
        let cs = chains(metas, sorted);
        law_group_is_an_overlap(metas, members, threshold);
        lemma_stable_order(rs);
        assert forall|i: int, j: int| 0 <= i < j < sorted.len() implies sorted[i] != sorted[j] by {
            assert(comes_before(rs, order[i], order[j]));
            lemma_lex_strict(rs[order[i]], rs[order[j]]);
            assert(order[i] != order[j]);
            assert(members[order[i]] != members[order[j]]);
        }
        lemma_chains_distinct(metas, sorted);
        lemma_best_chain(cs, threshold);
        let g = choose|g: int| 0 <= g < cs.len() && cs[g] == group;
        assert(cs[g].no_duplicates());
        assert(links_back(metas, group, 1));
        let j = choose|j: int|
            0 <= j < 1 && overlaps(metas[#[trigger] group[j]], metas[group[1]]);
        assert(group[0] != group[1]);
        assert(members.contains(group[0]) && members.contains(group[1]));
    }
}

/// Whether every input of a pick is the path of one of some tables.
pub open spec fn drawn_from(metas: Seq<SstMeta>, members: Seq<int>, pick: Pick) -> bool {
    forall|k: int|
        0 <= k < pick.inputs.len() ==> paths_of(metas, members).contains(
            #[trigger] pick.inputs[k],
        )
}

/// Whether two picks have an input in common.
pub open spec fn share_input(p: Pick, q: Pick) -> bool {
    exists|path: Seq<char>| #[trigger] p.inputs.contains(path) && q.inputs.contains(path)
}

/// Whether the tables have different paths.
pub open spec fn distinct_paths(metas: Seq<SstMeta>) -> bool {
    forall|i: int, j: int|
        0 <= i < metas.len() && 0 <= j < metas.len() && i != j ==> (#[trigger] metas[i]).path@ != (
        #[trigger] metas[j]).path@
}

proof fn lemma_without_paths(metas: Seq<SstMeta>, members: Seq<int>, group: Seq<int>, k: int)
    requires
        0 <= k < without(metas, members, group).len(),
    ensures
        members.contains(without(metas, members, group)[k]),
        !paths_of(metas, group).contains(metas[without(metas, members, group)[k]].path@),
    decreases members.len(),
{
    let init = members.drop_last();
    let before = without(metas, init, group);
    if k < before.len() {
        lemma_without_paths(metas, init, group, k);
        let m = choose|m: int| 0 <= m < init.len() && init[m] == before[k];
        assert(members[m] == before[k]);
    } else {
        assert(members[members.len() - 1] == members.last());
    }
}

proof fn lemma_level_picks(
    metas: Seq<SstMeta>,
    members: Seq<int>,
    threshold: int,
    level: int,
    top: int,
)
    requires
        valid_members(metas, members),
    ensures
        ({
            let picks = level_picks(metas, members, threshold, level, top);
            &&& forall|i: int|
                0 <= i < picks.len() ==> drawn_from(metas, members, #[trigger] picks[i])
                    && picks[i].output_level == level + 1 && picks[i].max_level == top
                    && picks[i].inputs.len() >= threshold
            &&& forall|i: int, j: int|
                0 <= i < j < picks.len() ==> !share_input(#[trigger] picks[i], #[trigger] picks[j])
        }),
    decreases members.len(),
{
    let picks = level_picks(metas, members, threshold, level, top);
    if let Some(group) = overlap_group(metas, members, threshold) {
        lemma_group_members(metas, members, threshold);
        lemma_without(metas, members, group);
        let rest = without(metas, members, group);
        if rest.len() < members.len() {
            let first = pick_of(metas, group, level, top);
            let others = level_picks(metas, rest, threshold, level, top);
            lemma_level_picks(metas, rest, threshold, level, top);
            assert forall|i: int| 0 <= i < picks.len() implies drawn_from(
                metas,
                members,
                #[trigger] picks[i],
            ) && picks[i].output_level == level + 1 && picks[i].max_level == top
                && picks[i].inputs.len() >= threshold by {
                if i == 0 {
                    assert forall|k: int| 0 <= k < first.inputs.len() implies paths_of(
                        metas,
                        members,
                    ).contains(#[trigger] first.inputs[k]) by {
                        assert(members.contains(group[k]));
                        let m = choose|m: int| 0 <= m < members.len() && members[m] == group[k];
                        assert(paths_of(metas, members)[m] == first.inputs[k]);
                    }
                } else {
                    assert(picks[i] == others[i - 1]);
                    assert(drawn_from(metas, rest, others[i - 1]));
                    assert forall|k: int| 0 <= k < picks[i].inputs.len() implies paths_of(
                        metas,
                        members,
                    ).contains(#[trigger] picks[i].inputs[k]) by {
                        assert(paths_of(metas, rest).contains(others[i - 1].inputs[k]));
                        let m = choose|m: int|
                            0 <= m < rest.len() && paths_of(metas, rest)[m]
                                == others[i - 1].inputs[k];
                        lemma_without_paths(metas, members, group, m);
                        let n = choose|n: int| 0 <= n < members.len() && members[n] == rest[m];
                        assert(paths_of(metas, members)[n] == picks[i].inputs[k]);
                    }
                }
            }
            assert forall|i: int, j: int| 0 <= i < j < picks.len() implies !share_input(
                #[trigger] picks[i],
                #[trigger] picks[j],
            ) by {
                assert(picks[j] == others[j - 1]);
                if i == 0 {
                    assert(drawn_from(metas, rest, others[j - 1]));
                    if share_input(picks[i], picks[j]) {
                        let path = choose|path: Seq<char>| #[trigger]
                            picks[i].inputs.contains(path) && picks[j].inputs.contains(path);
                        let k = choose|k: int|
                            0 <= k < picks[j].inputs.len() && picks[j].inputs[k] == path;
                        assert(paths_of(metas, rest).contains(others[j - 1].inputs[k]));
                        let m = choose|m: int|
                            0 <= m < rest.len() && paths_of(metas, rest)[m]
                                == others[j - 1].inputs[k];
                        lemma_without_paths(metas, members, group, m);
                    }
                } else {
                    assert(picks[i] == others[i - 1]);
                }
            }
        }
    }
}

proof fn lemma_at_level_level(metas: Seq<SstMeta>, flush: int, w: int, level: int, n: int)
    requires
        0 <= n <= metas.len(),
    ensures
        forall|k: int|
            0 <= k < at_level(metas, flush, w, level, n).len() ==> meta_level(
                metas,
                flush,
                w,
                #[trigger] at_level(metas, flush, w, level, n)[k],
            ) == level,
    decreases n,
{
    if n > 0 {
        lemma_at_level_level(metas, flush, w, level, n - 1);
        let before = at_level(metas, flush, w, level, n - 1);
        let all = at_level(metas, flush, w, level, n);
        assert forall|k: int| 0 <= k < all.len() implies meta_level(
            metas,
            flush,
            w,
            #[trigger] all[k],
        ) == level by {
            if k < before.len() {
                assert(all[k] == before[k]);
            }
        }
    }
}

/// Whether a pick merges tables of one level into the next, at least `threshold` of them.
pub open spec fn merges_a_level(metas: Seq<SstMeta>, flush: int, w: int, pick: Pick) -> bool {
    let members = at_level(metas, flush, w, pick.output_level - 1, metas.len() as int);
    &&& drawn_from(metas, members, pick)
    &&& pick.inputs.len() >= threshold_of(w)
    &&& pick.max_level == top_level(metas, flush, w, metas.len() as int)
}

proof fn lemma_picks_below(metas: Seq<SstMeta>, flush: int, w: int, n: int)
    requires
        n >= 0,
    ensures
        ({
            let picks = picks_below(metas, flush, w, n);
            &&& forall|i: int|
                0 <= i < picks.len() ==> merges_a_level(metas, flush, w, #[trigger] picks[i]) && 1
                    <= picks[i].output_level <= n
            &&& distinct_paths(metas) ==> forall|i: int, j: int|
                0 <= i < j < picks.len() ==> !share_input(#[trigger] picks[i], #[trigger] picks[j])
        }),
    decreases n,
{
    if n > 0 {
        let len = metas.len() as int;
        let members = at_level(metas, flush, w, n - 1, len);
        let before = picks_below(metas, flush, w, n - 1);
        let top = top_level(metas, flush, w, len);
        let new = level_picks(metas, members, threshold_of(w), n - 1, top);
        let picks = picks_below(metas, flush, w, n);
        lemma_picks_below(metas, flush, w, n - 1);
        lemma_at_level(metas, flush, w, n - 1, len);
        lemma_level_picks(metas, members, threshold_of(w), n - 1, top);
        assert forall|i: int| 0 <= i < picks.len() implies merges_a_level(
            metas,
            flush,
            w,
            #[trigger] picks[i],
        ) && 1 <= picks[i].output_level <= n by {
            if i < before.len() {
                assert(picks[i] == before[i]);
            } else {
                assert(picks[i] == new[i - before.len()]);
            }
        }
        if distinct_paths(metas) {
            assert forall|i: int, j: int| 0 <= i < j < picks.len() implies !share_input(
                #[trigger] picks[i],
                #[trigger] picks[j],
            ) by {
                if j < before.len() {
                    assert(picks[i] == before[i] && picks[j] == before[j]);
                } else if i >= before.len() {
                    assert(picks[i] == new[i - before.len()] && picks[j] == new[j - before.len()]);
                } else {
                    assert(picks[i] == before[i]);
                    if share_input(picks[i], picks[j]) {
                        let path = choose|path: Seq<char>| #[trigger]
                            picks[i].inputs.contains(path) && picks[j].inputs.contains(path);
                        lemma_drawn_level(metas, flush, w, before[i], path);
                        lemma_drawn_level(metas, flush, w, picks[j], path);
                    }
                }
            }
        }
    }
}

proof fn lemma_drawn_level(metas: Seq<SstMeta>, flush: int, w: int, pick: Pick, path: Seq<char>)
    requires
        merges_a_level(metas, flush, w, pick),
        pick.inputs.contains(path),
    ensures
        exists|m: int|
            0 <= m < metas.len() && (#[trigger] metas[m]).path@ == path && meta_level(
                metas,
                flush,
                w,
                m,
            ) == pick.output_level - 1,
{
    let len = metas.len() as int;
    let level = pick.output_level - 1;
    let members = at_level(metas, flush, w, level, len);
    lemma_at_level(metas, flush, w, level, len);
    lemma_at_level_level(metas, flush, w, level, len);
    let k = choose|k: int| 0 <= k < pick.inputs.len() && pick.inputs[k] == path;
    assert(paths_of(metas, members).contains(pick.inputs[k]));
    let m = choose|m: int| 0 <= m < members.len() && paths_of(metas, members)[m] == path;
    assert(metas[members[m]].path@ == path);
}

/// The jobs of [`UcsCompaction::pick_all_compactions`] are independent: where no two tables
/// have the same path, no two jobs have an input in common.
pub proof fn law_picks_are_independent(metas: Seq<SstMeta>, flush: int, w: int, i: int, j: int)
    requires
        distinct_paths(metas),
        0 <= i < all_picks(metas, flush, w).len(),
        0 <= j < all_picks(metas, flush, w).len(),
        i != j,
    ensures
        !share_input(all_picks(metas, flush, w)[i], all_picks(metas, flush, w)[j]),
{
    let picks = all_picks(metas, flush, w);
    lemma_top_level(metas, flush, w, metas.len() as int);
    lemma_picks_below(metas, flush, w, top_level(metas, flush, w, metas.len() as int) + 1);
    if share_input(picks[i], picks[j]) {
        let path = choose|path: Seq<char>| #[trigger]
            picks[i].inputs.contains(path) && picks[j].inputs.contains(path);
        assert(picks[j].inputs.contains(path));
        assert(share_input(picks[j], picks[i]));
        if i < j {
            assert(!share_input(picks[i], picks[j]));
        } else {
            assert(!share_input(picks[j], picks[i]));
        }
    }
}

/// Every job merges at least the threshold of tables of one level into the next level.
pub proof fn law_picks_merge_levels(metas: Seq<SstMeta>, flush: int, w: int, i: int)
    requires
        0 <= i < all_picks(metas, flush, w).len(),
    ensures
        merges_a_level(metas, flush, w, all_picks(metas, flush, w)[i]),
        1 <= all_picks(metas, flush, w)[i].output_level <= top_level(
            metas,
            flush,
            w,
            metas.len() as int,
        ) + 1,
{
    lemma_top_level(metas, flush, w, metas.len() as int);
    lemma_picks_below(metas, flush, w, top_level(metas, flush, w, metas.len() as int) + 1);
}

/// Whether a path is an input of one of some picks.
pub open spec fn is_picked(picks: Seq<Pick>, path: Seq<char>) -> bool {
    exists|i: int| 0 <= i < picks.len() && (#[trigger] picks[i]).inputs.contains(path)
}

/// The members whose tables are in none of some picks.
pub open spec fn unpicked(metas: Seq<SstMeta>, members: Seq<int>, picks: Seq<Pick>) -> Seq<int>
    decreases members.len(),
{
    if members.len() == 0 {
        seq![]
    } else {
        let before = unpicked(metas, members.drop_last(), picks);
        if is_picked(picks, metas[members.last()].path@) {
            before
        } else {
            before.push(members.last())
        }
    }
}

proof fn lemma_is_picked_concat(a: Seq<Pick>, b: Seq<Pick>, path: Seq<char>)
    ensures
        is_picked(a + b, path) == (is_picked(a, path) || is_picked(b, path)),
{
    let all = a + b;
    if is_picked(a, path) {
        let i = choose|i: int| 0 <= i < a.len() && (#[trigger] a[i]).inputs.contains(path);
        assert(all[i] == a[i]);
    }
    if is_picked(b, path) {
        let i = choose|i: int| 0 <= i < b.len() && (#[trigger] b[i]).inputs.contains(path);
        assert(all[a.len() + i] == b[i]);
    }
    if is_picked(all, path) {
        let i = choose|i: int| 0 <= i < all.len() && (#[trigger] all[i]).inputs.contains(path);
        if i < a.len() {
            assert(a[i] == all[i]);
        } else {
            assert(b[i - a.len()] == all[i]);
        }
    }
}

/// What is left after a group and further picks is left of the rest after those picks.
proof fn lemma_unpicked_rest(
    metas: Seq<SstMeta>,
    members: Seq<int>,
    group: Seq<int>,
    first: Pick,
    others: Seq<Pick>,
)
    requires
        first.inputs == paths_of(metas, group),
    ensures
        unpicked(metas, members, seq![first] + others) == unpicked(
            metas,
            without(metas, members, group),
            others,
        ),
    decreases members.len(),
{
    if members.len() > 0 {
        let init = members.drop_last();
        let path = metas[members.last()].path@;
        lemma_unpicked_rest(metas, init, group, first, others);
        lemma_is_picked_concat(seq![first], others, path);
        assert(is_picked(seq![first], path) == first.inputs.contains(path)) by {
            assert(seq![first][0] == first);
        }
        if !first.inputs.contains(path) {
            let rest = without(metas, init, group);
            assert(rest.push(members.last()).drop_last() =~= rest);
        }
    }
}

proof fn lemma_level_exhausted(
    metas: Seq<SstMeta>,
    members: Seq<int>,
    threshold: int,
    level: int,
    top: int,
)
    requires
        valid_members(metas, members),
    ensures
        overlap_group(
            metas,
            unpicked(metas, members, level_picks(metas, members, threshold, level, top)),
            threshold,
        ) is None,
    decreases members.len(),
{
    match overlap_group(metas, members, threshold) {
        None => {
            lemma_unpicked_none(metas, members);
        },
        Some(group) => {
            lemma_group_members(metas, members, threshold);
            lemma_without(metas, members, group);
            assert(members.contains(group[0]));
            let k = choose|k: int| 0 <= k < members.len() && members[k] == group[0];
            assert(paths_of(metas, group)[0] == metas[members[k]].path@);
            let rest = without(metas, members, group);
            let first = pick_of(metas, group, level, top);
            lemma_level_exhausted(metas, rest, threshold, level, top);
            lemma_unpicked_rest(
                metas,
                members,
                group,
                first,
                level_picks(metas, rest, threshold, level, top),
            );
        },
    }
}

proof fn lemma_unpicked_none(metas: Seq<SstMeta>, members: Seq<int>)
    ensures
        unpicked(metas, members, seq![]) == members,
    decreases members.len(),
{
    if members.len() > 0 {
        lemma_unpicked_none(metas, members.drop_last());
        assert(members.drop_last().push(members.last()) =~= members);
    } else {
        assert(members =~= seq![]);
    }
}

/// The picks of one level.
pub open spec fn picks_at(metas: Seq<SstMeta>, flush: int, w: int, level: int) -> Seq<Pick> {
    level_picks(
        metas,
        at_level(metas, flush, w, level, metas.len() as int),
        threshold_of(w),
        level,
        top_level(metas, flush, w, metas.len() as int),
    )
}

/// A table is picked only at its own level.
proof fn lemma_picked_at_level(metas: Seq<SstMeta>, flush: int, w: int, n: int, m: int)
    requires
        distinct_paths(metas),
        0 <= n,
        0 <= m < metas.len(),
        meta_level(metas, flush, w, m) >= 0,
    ensures
        is_picked(picks_below(metas, flush, w, n), metas[m].path@) == (meta_level(
            metas,
            flush,
            w,
            m,
        ) < n && is_picked(
            picks_at(metas, flush, w, meta_level(metas, flush, w, m)),
            metas[m].path@,
        )),
    decreases n,
{
    let path = metas[m].path@;
    let level = meta_level(metas, flush, w, m);
    if n > 0 {
        let len = metas.len() as int;
        let before = picks_below(metas, flush, w, n - 1);
        let new = picks_at(metas, flush, w, n - 1);
        let members = at_level(metas, flush, w, n - 1, len);
        lemma_picked_at_level(metas, flush, w, n - 1, m);
        lemma_is_picked_concat(before, new, path);
        if level != n - 1 && is_picked(new, path) {
            lemma_at_level(metas, flush, w, n - 1, len);
            lemma_at_level_level(metas, flush, w, n - 1, len);
            lemma_level_picks(
                metas,
                members,
                threshold_of(w),
                n - 1,
                top_level(metas, flush, w, len),
            );
            let i = choose|i: int|
                0 <= i < new.len() && (#[trigger] new[i]).inputs.contains(path);
            assert(drawn_from(metas, members, new[i]));
            let k = choose|k: int| 0 <= k < new[i].inputs.len() && new[i].inputs[k] == path;
            assert(paths_of(metas, members).contains(new[i].inputs[k]));
            let j = choose|j: int|
                0 <= j < members.len() && paths_of(metas, members)[j] == path;
            assert(meta_level(metas, flush, w, members[j]) == n - 1);
            assert(metas[members[j]].path@ == metas[m].path@);
        }
    }
}

proof fn lemma_unpicked_same(
    metas: Seq<SstMeta>,
    members: Seq<int>,
    p: Seq<Pick>,
    q: Seq<Pick>,
)
    requires
        forall|k: int|
            0 <= k < members.len() ==> is_picked(p, metas[#[trigger] members[k]].path@)
                == is_picked(q, metas[members[k]].path@),
    ensures
        unpicked(metas, members, p) == unpicked(metas, members, q),
    decreases members.len(),
{
    if members.len() > 0 {
        let init = members.drop_last();
        assert forall|k: int| 0 <= k < init.len() implies is_picked(
            p,
            metas[#[trigger] init[k]].path@,
        ) == is_picked(q, metas[init[k]].path@) by {
            assert(init[k] == members[k]);
        }
        lemma_unpicked_same(metas, init, p, q);
        assert(members[members.len() - 1] == members.last());
    }
}

/// The jobs of [`UcsCompaction::pick_all_compactions`] are all that there are: where no two
/// tables have the same path, the tables of a level that are in no job hold no group of
/// overlapping tables that is large enough for another one.
pub proof fn law_picks_leave_no_group(metas: Seq<SstMeta>, flush: int, w: int, level: int)
    requires
        distinct_paths(metas),
        0 <= level <= top_level(metas, flush, w, metas.len() as int),
    ensures
        overlap_group(
            metas,
            unpicked(
                metas,
                at_level(metas, flush, w, level, metas.len() as int),
                all_picks(metas, flush, w),
            ),
            threshold_of(w),
        ) is None,
{
    let len = metas.len() as int;
    let members = at_level(metas, flush, w, level, len);
    let top = top_level(metas, flush, w, len);
    let picks = all_picks(metas, flush, w);
    let own = picks_at(metas, flush, w, level);
    lemma_at_level(metas, flush, w, level, len);
    lemma_at_level_level(metas, flush, w, level, len);
    assert forall|k: int| 0 <= k < members.len() implies is_picked(
        picks,
        metas[#[trigger] members[k]].path@,
    ) == is_picked(own, metas[members[k]].path@) by {
        lemma_picked_at_level(metas, flush, w, top + 1, members[k]);
    }
    lemma_unpicked_same(metas, members, picks, own);
    lemma_level_exhausted(metas, members, threshold_of(w), level, top);
}

/// Whether no member outside of a chain overlaps one of its tables.
pub open spec fn closed_in(metas: Seq<SstMeta>, members: Seq<int>, chain: Seq<int>) -> bool {
    forall|m: int, k: int|
        0 <= m < members.len() && 0 <= k < chain.len() && !chain.contains(members[m])
            ==> !overlaps(metas[#[trigger] members[m]], metas[#[trigger] chain[k]])
}

/// Whether some tables are a whole chain among others: they are some of these, none twice,
/// each but the first overlaps one before it, and none of the others overlaps one of them.
pub open spec fn is_whole_chain(
    metas: Seq<SstMeta>,
    members: Seq<int>,
    chain: Seq<int>,
) -> bool {
    &&& chain.len() > 0
    &&& chain.no_duplicates()
    &&& forall|k: int| 0 <= k < chain.len() ==> members.contains(#[trigger] chain[k])
    &&& linked(metas, chain)
    &&& closed_in(metas, members, chain)
}

/// Whether positions are those of different tables whose ranges are in order.
spec fn proper_members(metas: Seq<SstMeta>, members: Seq<int>) -> bool {
    &&& valid_members(metas, members)
    &&& members.no_duplicates()
    &&& forall|k: int| 0 <= k < members.len() ==> ranged(metas[#[trigger] members[k]])
}

/// Where the first table of a linked chain is in a closed one, all are.
proof fn lemma_linked_inside(
    metas: Seq<SstMeta>,
    members: Seq<int>,
    chain: Seq<int>,
    whole: Seq<int>,
    k: int,
)
    requires
        linked(metas, chain),
        forall|i: int| 0 <= i < chain.len() ==> members.contains(#[trigger] chain[i]),
        closed_in(metas, members, whole),
        0 <= k < chain.len(),
        whole.contains(chain[0]),
    ensures
        whole.contains(chain[k]),
    decreases k,
{
    if k > 0 {
        assert(links_back(metas, chain, k));
        let j = choose|j: int| 0 <= j < k && overlaps(metas[#[trigger] chain[j]], metas[chain[k]]);
        lemma_linked_inside(metas, members, chain, whole, j);
        let x = choose|x: int| 0 <= x < whole.len() && whole[x] == chain[j];
        assert(members.contains(chain[k]));
        let m = choose|m: int| 0 <= m < members.len() && members[m] == chain[k];
        if !whole.contains(members[m]) {
            assert(!overlaps(metas[members[m]], metas[whole[x]]));
        }
    }
}

/// Where one table of a linked chain is in a closed one, its first is.
proof fn lemma_linked_reaches_first(
    metas: Seq<SstMeta>,
    members: Seq<int>,
    chain: Seq<int>,
    whole: Seq<int>,
    k: int,
)
    requires
        linked(metas, chain),
        forall|i: int| 0 <= i < chain.len() ==> members.contains(#[trigger] chain[i]),
        closed_in(metas, members, whole),
        0 <= k < chain.len(),
        whole.contains(chain[k]),
    ensures
        whole.contains(chain[0]),
    decreases k,
{
    if k > 0 {
        assert(links_back(metas, chain, k));
        let j = choose|j: int| 0 <= j < k && overlaps(metas[#[trigger] chain[j]], metas[chain[k]]);
        let x = choose|x: int| 0 <= x < whole.len() && whole[x] == chain[k];
        assert(members.contains(chain[j]));
        let m = choose|m: int| 0 <= m < members.len() && members[m] == chain[j];
        if !whole.contains(members[m]) {
            assert(!overlaps(metas[members[m]], metas[whole[x]]));
        }
        lemma_linked_reaches_first(metas, members, chain, whole, j);
    }
}

/// Whether two chains have the same tables.
pub open spec fn same_tables(a: Seq<int>, b: Seq<int>) -> bool {
    forall|m: int| #[trigger] a.contains(m) <==> b.contains(m)
}

/// Whole chains that share a table have the same tables.
proof fn lemma_whole_chains_meet(
    metas: Seq<SstMeta>,
    members: Seq<int>,
    a: Seq<int>,
    b: Seq<int>,
    x: int,
)
    requires
        is_whole_chain(metas, members, a),
        is_whole_chain(metas, members, b),
        a.contains(x),
        b.contains(x),
    ensures
        same_tables(a, b),
{
    let i = choose|i: int| 0 <= i < a.len() && a[i] == x;
    let j = choose|j: int| 0 <= j < b.len() && b[j] == x;
    lemma_linked_reaches_first(metas, members, a, b, i);
    lemma_linked_reaches_first(metas, members, b, a, j);
    assert forall|m: int| #[trigger] a.contains(m) <==> b.contains(m) by {
        if a.contains(m) {
            let k = choose|k: int| 0 <= k < a.len() && a[k] == m;
            lemma_linked_inside(metas, members, a, b, k);
        }
        if b.contains(m) {
            let k = choose|k: int| 0 <= k < b.len() && b[k] == m;
            lemma_linked_inside(metas, members, b, a, k);
        }
    }
}

/// Each chain that members are split into is a whole one.
proof fn lemma_chain_is_whole(metas: Seq<SstMeta>, members: Seq<int>, g: int)
    requires
        proper_members(metas, members),
        0 <= g < chains(metas, by_min_id(metas, members)).len(),
    ensures
        is_whole_chain(metas, members, chains(metas, by_min_id(metas, members))[g]),
{
    let rs = min_ids(metas, members);
    let order = stable_order(rs);
    let sorted = by_min_id(metas, members);
    let cs = chains(metas, sorted);
    let chain = cs[g];
    lemma_by_min_id(metas, members);
    lemma_stable_order(rs);
    assert forall|i: int| 0 <= i < sorted.len() implies ranged(metas[#[trigger] sorted[i]]) by {
        assert(members.contains(sorted[i]));
    }
    assert forall|i: int, j: int| 0 <= i < j < sorted.len() implies sorted[i] != sorted[j] by {
        assert(comes_before(rs, order[i], order[j]));
        lemma_lex_strict(rs[order[i]], rs[order[j]]);
        assert(members[order[i]] != members[order[j]]);
    }
    lemma_chains_apart(metas, sorted);
    lemma_chains_members(metas, sorted);
    lemma_chains_distinct(metas, sorted);
    assert(chain.len() > 0);
    assert forall|k: int| 0 <= k < chain.len() implies members.contains(#[trigger] chain[k]) by {
        assert(sorted.contains(cs[g][k]));
        let i = choose|i: int| 0 <= i < sorted.len() && sorted[i] == chain[k];
        assert(members.contains(sorted[i]));
    }
    assert forall|m: int, k: int|
        0 <= m < members.len() && 0 <= k < chain.len() && !chain.contains(
            members[m],
        ) implies !overlaps(metas[#[trigger] members[m]], metas[#[trigger] chain[k]]) by {
        lemma_by_min_id_covers(metas, members, m);
        let i = choose|i: int| 0 <= i < sorted.len() && sorted[i] == members[m];
        assert(in_chain(cs, sorted[i]));
        let c = choose|c: int| 0 <= c < cs.len() && (#[trigger] cs[c]).contains(sorted[i]);
        let j = choose|j: int| 0 <= j < cs[c].len() && cs[c][j] == sorted[i];
        if c < g {
            assert(apart(metas, cs[c], cs[g]));
            assert(lex_lt(metas[cs[c][j]].max_id@, metas[cs[g][k]].min_id@));
        } else if g < c {
            assert(apart(metas, cs[g], cs[c]));
            assert(lex_lt(metas[cs[g][k]].max_id@, metas[cs[c][j]].min_id@));
        }
    }
}

/// A group is a whole chain.
proof fn lemma_group_is_whole(metas: Seq<SstMeta>, members: Seq<int>, threshold: int)
    requires
        proper_members(metas, members),
    ensures
        overlap_group(metas, members, threshold) matches Some(group) ==> is_whole_chain(
            metas,
            members,
            group,
        ) && group.len() >= threshold,
{
    if let Some(group) = overlap_group(metas, members, threshold) {
        let cs = chains(metas, by_min_id(metas, members));
        lemma_best_chain(cs, threshold);
        let g = choose|g: int| 0 <= g < cs.len() && cs[g] == group;
        lemma_chain_is_whole(metas, members, g);
    }
}

/// Where a whole chain is large enough there is a group.
proof fn lemma_whole_chain_gives_group(
    metas: Seq<SstMeta>,
    members: Seq<int>,
    threshold: int,
    chain: Seq<int>,
)
    requires
        proper_members(metas, members),
        is_whole_chain(metas, members, chain),
        chain.len() >= threshold,
    ensures
        overlap_group(metas, members, threshold) is Some,
{
    let sorted = by_min_id(metas, members);
    let cs = chains(metas, sorted);
    lemma_by_min_id(metas, members);
    assert forall|i: int| 0 <= i < sorted.len() implies ranged(metas[#[trigger] sorted[i]]) by {
        assert(members.contains(sorted[i]));
    }
    lemma_chains_apart(metas, sorted);
    assert(members.contains(chain[0]));
    let m = choose|m: int| 0 <= m < members.len() && members[m] == chain[0];
    lemma_by_min_id_covers(metas, members, m);
    let i = choose|i: int| 0 <= i < sorted.len() && sorted[i] == members[m];
    assert(in_chain(cs, sorted[i]));
    let c = choose|c: int| 0 <= c < cs.len() && (#[trigger] cs[c]).contains(sorted[i]);
    lemma_chain_is_whole(metas, members, c);
    let whole = cs[c];
    assert forall|x: int| chain.to_set().contains(x) implies whole.to_set().contains(x) by {
        let k = choose|k: int| 0 <= k < chain.len() && chain[k] == x;
        lemma_linked_inside(metas, members, chain, whole, k);
    }
    chain.unique_seq_to_set();
    whole.unique_seq_to_set();
    vstd::seq_lib::seq_to_set_is_finite(whole);
    vstd::set_lib::lemma_len_subset(chain.to_set(), whole.to_set());
    lemma_best_chain(cs, threshold);
}

/// What remains of members is proper, and what does not remain is in the group.
proof fn lemma_rest(metas: Seq<SstMeta>, members: Seq<int>, group: Seq<int>)
    requires
        proper_members(metas, members),
        distinct_paths(metas),
        forall|k: int| 0 <= k < group.len() ==> members.contains(#[trigger] group[k]),
    ensures
        proper_members(metas, without(metas, members, group)),
        forall|m: int| #[trigger] without(metas, members, group).contains(m) <==> members.contains(
            m,
        ) && !group.contains(m),
{
    let rest = without(metas, members, group);
    lemma_without(metas, members, group);
    lemma_rest_members(metas, members, group);
    assert forall|k: int| 0 <= k < rest.len() implies ranged(metas[#[trigger] rest[k]]) by {
        lemma_without_paths(metas, members, group, k);
        let m = choose|m: int| 0 <= m < members.len() && members[m] == rest[k];
        assert(ranged(metas[members[m]]));
    }
    assert forall|m: int| #[trigger] rest.contains(m) <==> members.contains(m) && !group.contains(
        m,
    ) by {
        if rest.contains(m) {
            let k = choose|k: int| 0 <= k < rest.len() && rest[k] == m;
            lemma_without_paths(metas, members, group, k);
            if group.contains(m) {
                let g = choose|g: int| 0 <= g < group.len() && group[g] == m;
                assert(paths_of(metas, group)[g] == metas[m].path@);
            }
        }
        if members.contains(m) && !group.contains(m) {
            let i = choose|i: int| 0 <= i < members.len() && members[i] == m;
            if paths_of(metas, group).contains(metas[m].path@) {
                let g = choose|g: int|
                    0 <= g < group.len() && paths_of(metas, group)[g] == metas[m].path@;
                assert(members.contains(group[g]));
                let j = choose|j: int| 0 <= j < members.len() && members[j] == group[g];
                assert(metas[members[i]].path@ == metas[members[j]].path@);
            }
        }
    }
}

/// What remains has nothing twice, and holds all whose path is not in the group.
proof fn lemma_rest_members(metas: Seq<SstMeta>, members: Seq<int>, group: Seq<int>)
    requires
        members.no_duplicates(),
    ensures
        without(metas, members, group).no_duplicates(),
        forall|i: int|
            0 <= i < members.len() && !paths_of(metas, group).contains(
                metas[#[trigger] members[i]].path@,
            ) ==> without(metas, members, group).contains(members[i]),
    decreases members.len(),
{
    if members.len() > 0 {
        let init = members.drop_last();
        let n = members.len() - 1;
        let before = without(metas, init, group);
        let rest = without(metas, members, group);
        lemma_rest_members(metas, init, group);
        assert forall|i: int|
            0 <= i < members.len() && !paths_of(metas, group).contains(
                metas[#[trigger] members[i]].path@,
            ) implies rest.contains(members[i]) by {
            if i < n {
                assert(init[i] == members[i]);
                let k = choose|k: int| 0 <= k < before.len() && before[k] == init[i];
                assert(rest[k] == members[i]);
            } else {
                assert(rest[rest.len() - 1] == members[i]);
            }
        }
        assert forall|k: int| 0 <= k < before.len() implies before[k] != members[n] by {
            lemma_without_paths(metas, init, group, k);
            let m = choose|m: int| 0 <= m < init.len() && init[m] == before[k];
            assert(members[m] == before[k]);
        }
    }
}

/// Whether a pick is of a whole chain among members that is large enough.
pub open spec fn picks_chain(
    metas: Seq<SstMeta>,
    members: Seq<int>,
    threshold: int,
    level: int,
    top: int,
    pick: Pick,
) -> bool {
    exists|group: Seq<int>| #[trigger]
        is_whole_chain(metas, members, group) && group.len() >= threshold && pick == pick_of(
            metas,
            group,
            level,
            top,
        )
}

/// Whether one of some picks merges exactly the tables of a chain of a level into the next.
pub open spec fn has_pick_of(
    metas: Seq<SstMeta>,
    picks: Seq<Pick>,
    level: int,
    chain: Seq<int>,
) -> bool {
    exists|i: int|
        0 <= i < picks.len() && #[trigger] has_inputs(metas, picks[i], chain)
            && picks[i].output_level == level + 1
}

/// Whether the inputs of a pick are exactly the tables of a chain.
pub open spec fn has_inputs(metas: Seq<SstMeta>, pick: Pick, chain: Seq<int>) -> bool {
    forall|path: Seq<char>| #[trigger]
        pick.inputs.contains(path) <==> paths_of(metas, chain).contains(path)
}

/// A whole chain of the rest is one of all members.
proof fn lemma_whole_in_rest(
    metas: Seq<SstMeta>,
    members: Seq<int>,
    group: Seq<int>,
    chain: Seq<int>,
)
    requires
        proper_members(metas, members),
        distinct_paths(metas),
        is_whole_chain(metas, members, group),
        is_whole_chain(metas, without(metas, members, group), chain),
    ensures
        is_whole_chain(metas, members, chain),
{
    let rest = without(metas, members, group);
    lemma_rest(metas, members, group);
    assert forall|k: int| 0 <= k < chain.len() implies members.contains(#[trigger] chain[k])
        && !group.contains(chain[k]) by {
        assert(rest.contains(chain[k]));
    }
    assert forall|m: int, k: int|
        0 <= m < members.len() && 0 <= k < chain.len() && !chain.contains(
            members[m],
        ) implies !overlaps(metas[#[trigger] members[m]], metas[#[trigger] chain[k]]) by {
        assert(members.contains(members[m]));
        if group.contains(members[m]) {
            let g = choose|g: int| 0 <= g < group.len() && group[g] == members[m];
            assert(members.contains(chain[k]) && !group.contains(chain[k]));
            let j = choose|j: int| 0 <= j < members.len() && members[j] == chain[k];
            assert(!overlaps(metas[members[j]], metas[group[g]]));
        } else {
            assert(rest.contains(members[m]));
            let j = choose|j: int| 0 <= j < rest.len() && rest[j] == members[m];
            assert(!overlaps(metas[rest[j]], metas[chain[k]]));
        }
    }
}

/// A whole chain that a group does not meet is one of the rest.
proof fn lemma_whole_beside(
    metas: Seq<SstMeta>,
    members: Seq<int>,
    group: Seq<int>,
    chain: Seq<int>,
)
    requires
        proper_members(metas, members),
        distinct_paths(metas),
        is_whole_chain(metas, members, group),
        is_whole_chain(metas, members, chain),
        forall|k: int| 0 <= k < chain.len() ==> !group.contains(#[trigger] chain[k]),
    ensures
        is_whole_chain(metas, without(metas, members, group), chain),
{
    let rest = without(metas, members, group);
    lemma_rest(metas, members, group);
    assert forall|k: int| 0 <= k < chain.len() implies rest.contains(#[trigger] chain[k]) by {
        assert(members.contains(chain[k]) && !group.contains(chain[k]));
    }
    assert forall|m: int, k: int|
        0 <= m < rest.len() && 0 <= k < chain.len() && !chain.contains(rest[m]) implies !overlaps(
        metas[#[trigger] rest[m]],
        metas[#[trigger] chain[k]],
    ) by {
        assert(rest.contains(rest[m]));
        let j = choose|j: int| 0 <= j < members.len() && members[j] == rest[m];
        assert(!overlaps(metas[members[j]], metas[chain[k]]));
    }
}

proof fn lemma_same_tables_inputs(metas: Seq<SstMeta>, a: Seq<int>, b: Seq<int>, pick: Pick)
    requires
        same_tables(a, b),
        pick.inputs == paths_of(metas, a),
    ensures
        has_inputs(metas, pick, b),
{
    assert forall|path: Seq<char>| #[trigger]
        pick.inputs.contains(path) <==> paths_of(metas, b).contains(path) by {
        if pick.inputs.contains(path) {
            let i = choose|i: int| 0 <= i < a.len() && paths_of(metas, a)[i] == path;
            assert(a.contains(a[i]));
            let j = choose|j: int| 0 <= j < b.len() && b[j] == a[i];
            assert(paths_of(metas, b)[j] == path);
        }
        if paths_of(metas, b).contains(path) {
            let j = choose|j: int| 0 <= j < b.len() && paths_of(metas, b)[j] == path;
            assert(b.contains(b[j]));
            assert(a.contains(b[j]));
            let i = choose|i: int| 0 <= i < a.len() && a[i] == b[j];
            assert(paths_of(metas, a)[i] == path);
        }
    }
}

/// The picks at a level are whole chains.
proof fn lemma_level_picks_chains(
    metas: Seq<SstMeta>,
    members: Seq<int>,
    threshold: int,
    level: int,
    top: int,
)
    requires
        proper_members(metas, members),
        distinct_paths(metas),
    ensures
        ({
            let picks = level_picks(metas, members, threshold, level, top);
            forall|i: int|
                0 <= i < picks.len() ==> picks_chain(
                    metas,
                    members,
                    threshold,
                    level,
                    top,
                    #[trigger] picks[i],
                )
        }),
    decreases members.len(),
{
    let picks = level_picks(metas, members, threshold, level, top);
    if let Some(group) = overlap_group(metas, members, threshold) {
        lemma_group_is_whole(metas, members, threshold);
        let rest = without(metas, members, group);
        if rest.len() < members.len() {
            lemma_rest(metas, members, group);
            lemma_level_picks_chains(metas, rest, threshold, level, top);
            let others = level_picks(metas, rest, threshold, level, top);
            assert forall|i: int| 0 <= i < picks.len() implies picks_chain(
                metas,
                members,
                threshold,
                level,
                top,
                #[trigger] picks[i],
            ) by {
                if i == 0 {
                    assert(is_whole_chain(metas, members, group));
                } else {
                    assert(picks[i] == others[i - 1]);
                    assert(picks_chain(metas, rest, threshold, level, top, others[i - 1]));
                    let chain = choose|chain: Seq<int>| #[trigger]
                        is_whole_chain(metas, rest, chain) && chain.len() >= threshold
                            && others[i - 1] == pick_of(metas, chain, level, top);
                    lemma_whole_in_rest(metas, members, group, chain);
                }
            }
        }
    }
}

/// Every whole chain that is large enough is picked at its level.
proof fn lemma_level_picks_all(
    metas: Seq<SstMeta>,
    members: Seq<int>,
    threshold: int,
    level: int,
    top: int,
    chain: Seq<int>,
)
    requires
        proper_members(metas, members),
        distinct_paths(metas),
        is_whole_chain(metas, members, chain),
        chain.len() >= threshold,
    ensures
        has_pick_of(metas, level_picks(metas, members, threshold, level, top), level, chain),
    decreases members.len(),
{
    let picks = level_picks(metas, members, threshold, level, top);
    lemma_whole_chain_gives_group(metas, members, threshold, chain);
    lemma_group_is_whole(metas, members, threshold);
    let group = overlap_group(metas, members, threshold)->Some_0;
    let rest = without(metas, members, group);
    lemma_rest(metas, members, group);
    lemma_without(metas, members, group);
    assert(members.contains(group[0]));
    let k = choose|k: int| 0 <= k < members.len() && members[k] == group[0];
    assert(paths_of(metas, group)[0] == metas[members[k]].path@);
    if exists|x: int| 0 <= x < chain.len() && group.contains(#[trigger] chain[x]) {
        let x = choose|x: int| 0 <= x < chain.len() && group.contains(#[trigger] chain[x]);
        lemma_whole_chains_meet(metas, members, group, chain, chain[x]);
        lemma_same_tables_inputs(metas, group, chain, picks[0]);
        assert(has_inputs(metas, picks[0], chain));
    } else {
        lemma_whole_beside(metas, members, group, chain);
        lemma_level_picks_all(metas, rest, threshold, level, top, chain);
        let others = level_picks(metas, rest, threshold, level, top);
        let i = choose|i: int|
            0 <= i < others.len() && #[trigger] has_inputs(metas, others[i], chain)
                && others[i].output_level == level + 1;
        assert(picks[i + 1] == others[i]);
        assert(has_inputs(metas, picks[i + 1], chain));
    }
}

proof fn lemma_level_is_proper(metas: Seq<SstMeta>, flush: int, w: int, level: int, n: int)
    requires
        0 <= n <= metas.len(),
        forall|k: int| 0 <= k < metas.len() ==> ranged(#[trigger] metas[k]),
    ensures
        proper_members(metas, at_level(metas, flush, w, level, n)),
    decreases n,
{
    lemma_at_level(metas, flush, w, level, n);
    if n > 0 {
        lemma_level_is_proper(metas, flush, w, level, n - 1);
        lemma_at_level(metas, flush, w, level, n - 1);
        let before = at_level(metas, flush, w, level, n - 1);
        let all = at_level(metas, flush, w, level, n);
        assert forall|k: int| 0 <= k < all.len() implies ranged(metas[#[trigger] all[k]]) by {
            assert(0 <= all[k] < metas.len());
        }
    }
}

/// Whether a pick is of a whole chain of its level that is large enough.
pub open spec fn is_chain_pick(metas: Seq<SstMeta>, flush: int, w: int, pick: Pick) -> bool {
    picks_chain(
        metas,
        at_level(metas, flush, w, pick.output_level - 1, metas.len() as int),
        threshold_of(w),
        pick.output_level - 1,
        top_level(metas, flush, w, metas.len() as int),
        pick,
    )
}

proof fn lemma_picks_below_chains(metas: Seq<SstMeta>, flush: int, w: int, n: int)
    requires
        n >= 0,
        distinct_paths(metas),
        forall|k: int| 0 <= k < metas.len() ==> ranged(#[trigger] metas[k]),
    ensures
        ({
            let picks = picks_below(metas, flush, w, n);
            &&& forall|i: int|
                0 <= i < picks.len() ==> is_chain_pick(metas, flush, w, #[trigger] picks[i])
                    && picks[i].output_level <= n
            &&& forall|i: int, j: int|
                0 <= i <= j < picks.len() ==> (#[trigger] picks[i]).output_level <= (
                #[trigger] picks[j]).output_level
        }),
    decreases n,
{
    if n > 0 {
        let len = metas.len() as int;
        let members = at_level(metas, flush, w, n - 1, len);
        let top = top_level(metas, flush, w, len);
        let t = threshold_of(w);
        let before = picks_below(metas, flush, w, n - 1);
        let new = level_picks(metas, members, t, n - 1, top);
        let picks = picks_below(metas, flush, w, n);
        lemma_picks_below_chains(metas, flush, w, n - 1);
        lemma_level_is_proper(metas, flush, w, n - 1, len);
        lemma_level_picks_chains(metas, members, t, n - 1, top);
        assert forall|k: int| 0 <= k < new.len() implies (#[trigger] new[k]).output_level == n
            && is_chain_pick(metas, flush, w, new[k]) by {
            assert(picks_chain(metas, members, t, n - 1, top, new[k]));
        }
        assert forall|i: int| 0 <= i < picks.len() implies is_chain_pick(
            metas,
            flush,
            w,
            #[trigger] picks[i],
        ) && picks[i].output_level <= n by {
            if i < before.len() {
                assert(picks[i] == before[i]);
            } else {
                assert(picks[i] == new[i - before.len()]);
            }
        }
        assert forall|i: int, j: int| 0 <= i <= j < picks.len() implies (
        #[trigger] picks[i]).output_level <= (#[trigger] picks[j]).output_level by {
            if j < before.len() {
                assert(picks[i] == before[i] && picks[j] == before[j]);
            } else {
                assert(picks[j] == new[j - before.len()]);
            }
        }
    }
}

proof fn lemma_picks_below_all(
    metas: Seq<SstMeta>,
    flush: int,
    w: int,
    n: int,
    level: int,
    chain: Seq<int>,
)
    requires
        0 <= level < n,
        distinct_paths(metas),
        forall|k: int| 0 <= k < metas.len() ==> ranged(#[trigger] metas[k]),
        is_whole_chain(metas, at_level(metas, flush, w, level, metas.len() as int), chain),
        chain.len() >= threshold_of(w),
    ensures
        has_pick_of(metas, picks_below(metas, flush, w, n), level, chain),
    decreases n,
{
    let len = metas.len() as int;
    let top = top_level(metas, flush, w, len);
    let before = picks_below(metas, flush, w, n - 1);
    let picks = picks_below(metas, flush, w, n);
    if level < n - 1 {
        lemma_picks_below_all(metas, flush, w, n - 1, level, chain);
        let i = choose|i: int|
            0 <= i < before.len() && #[trigger] has_inputs(metas, before[i], chain)
                && before[i].output_level == level + 1;
        assert(picks[i] == before[i]);
        assert(has_inputs(metas, picks[i], chain));
    } else {
        let members = at_level(metas, flush, w, level, len);
        let new = level_picks(metas, members, threshold_of(w), level, top);
        lemma_level_is_proper(metas, flush, w, level, len);
        lemma_level_picks_all(metas, members, threshold_of(w), level, top, chain);
        let i = choose|i: int|
            0 <= i < new.len() && #[trigger] has_inputs(metas, new[i], chain)
                && new[i].output_level == level + 1;
        assert(picks[before.len() + i] == new[i]);
        assert(has_inputs(metas, picks[before.len() + i], chain));
    }
}

/// The jobs of [`UcsCompaction::pick_all_compactions`] are exactly the chains of the levels
/// that have enough tables, where no two tables have the same path and every table's smallest
/// identifier is not above its greatest. Each job merges a whole chain of one level into the
/// next level, every such chain has a job, no two jobs share a table, and the levels do not
/// fall from one job to the next.
pub proof fn law_picks_are_the_chains(metas: Seq<SstMeta>, flush: int, w: int)
    requires
        distinct_paths(metas),
        forall|k: int| 0 <= k < metas.len() ==> ranged(#[trigger] metas[k]),
    ensures
        ({
            let picks = all_picks(metas, flush, w);
            let len = metas.len() as int;
            &&& forall|i: int|
                0 <= i < picks.len() ==> is_chain_pick(metas, flush, w, #[trigger] picks[i])
            &&& forall|level: int, chain: Seq<int>|
                0 <= level <= top_level(metas, flush, w, len) && chain.len() >= threshold_of(w)
                    && #[trigger] is_whole_chain(
                    metas,
                    at_level(metas, flush, w, level, len),
                    chain,
                ) ==> has_pick_of(metas, picks, level, chain)
            &&& forall|i: int, j: int|
                0 <= i < picks.len() && 0 <= j < picks.len() && i != j ==> !share_input(
                    #[trigger] picks[i],
                    #[trigger] picks[j],
                )
            &&& forall|i: int, j: int|
                0 <= i <= j < picks.len() ==> (#[trigger] picks[i]).output_level <= (
                #[trigger] picks[j]).output_level
        }),
{
    let picks = all_picks(metas, flush, w);
    let len = metas.len() as int;
    let top = top_level(metas, flush, w, len);
    lemma_top_level(metas, flush, w, len);
    lemma_picks_below_chains(metas, flush, w, top + 1);
    assert forall|level: int, chain: Seq<int>|
        0 <= level <= top && chain.len() >= threshold_of(w) && #[trigger] is_whole_chain(
            metas,
            at_level(metas, flush, w, level, len),
            chain,
        ) implies has_pick_of(metas, picks, level, chain) by {
        lemma_picks_below_all(metas, flush, w, top + 1, level, chain);
    }
    assert forall|i: int, j: int|
        0 <= i < picks.len() && 0 <= j < picks.len() && i != j implies !share_input(
        #[trigger] picks[i],
        #[trigger] picks[j],
    ) by {
        law_picks_are_independent(metas, flush, w, i, j);
    }
}

proof fn lemma_top_level(metas: Seq<SstMeta>, flush: int, w: int, n: int)
    ensures
        top_level(metas, flush, w, n) >= 0,
    decreases n,
{
    if n > 0 {
        lemma_top_level(metas, flush, w, n - 1);
    }
}

/// A single pick is the first of all picks.
pub proof fn law_single_pick_is_first(metas: Seq<SstMeta>, flush: int, w: int)
    ensures
        match lowest_pick(metas, flush, w, 0) {
            Some(pick) => all_picks(metas, flush, w).len() > 0 && all_picks(metas, flush, w)[0]
                == pick,
            None => all_picks(metas, flush, w).len() == 0,
        },
{
    lemma_top_level(metas, flush, w, metas.len() as int);
    lemma_lowest_pick(metas, flush, w, top_level(metas, flush, w, metas.len() as int) + 1);
}

proof fn lemma_lowest_pick(metas: Seq<SstMeta>, flush: int, w: int, n: int)
    requires
        0 <= n <= top_level(metas, flush, w, metas.len() as int) + 1,
    ensures
        if picks_below(metas, flush, w, n).len() > 0 {
            lowest_pick(metas, flush, w, 0) == Some(picks_below(metas, flush, w, n)[0])
        } else {
            lowest_pick(metas, flush, w, 0) == lowest_pick(metas, flush, w, n)
        },
    decreases n,
{
    if n > 0 {
        let len = metas.len() as int;
        let members = at_level(metas, flush, w, n - 1, len);
        let t = threshold_of(w);
        lemma_lowest_pick(metas, flush, w, n - 1);
        lemma_at_level(metas, flush, w, n - 1, len);
        if let Some(group) = overlap_group(metas, members, t) {
            lemma_group_members(metas, members, t);
            lemma_without(metas, members, group);
            assert(members.contains(group[0]));
            let k = choose|k: int| 0 <= k < members.len() && members[k] == group[0];
            assert(paths_of(metas, group)[0] == metas[members[k]].path@);
        }
    }
}

proof fn lemma_by_size_ascends(files: Seq<(Seq<char>, u64)>)
    ensures
        forall|i: int, j: int|
            0 <= i <= j < by_size(files).len() ==> (#[trigger] by_size(files)[i]).1 <= (
            #[trigger] by_size(files)[j]).1,
{
    let rs = size_ranks(files);
    let order = stable_order(rs);
    let sorted = by_size(files);
    lemma_stable_order(rs);
    crate::bytes::lemma_pow256_values();
    assert forall|i: int, j: int| 0 <= i <= j < sorted.len() implies (#[trigger] sorted[i]).1 <= (
    #[trigger] sorted[j]).1 by {
        if i < j {
            assert(comes_before(rs, order[i], order[j]));
            lemma_be_order(files[order[i]].1 as nat, files[order[j]].1 as nat, 8);
        }
    }
}

proof fn lemma_tiers(sorted: Seq<(Seq<char>, u64)>)
    requires
        forall|i: int, j: int|
            0 <= i <= j < sorted.len() ==> (#[trigger] sorted[i]).1 <= (#[trigger] sorted[j]).1,
    ensures
        tiers(sorted).len() > 0,
        forall|t: int, k: int|
            0 <= t < tiers(sorted).len() && 0 <= k < tiers(sorted)[t].len() ==> sorted.contains(
                #[trigger] tiers(sorted)[t][k],
            ),
        forall|t: int, k: int|
            0 <= t < tiers(sorted).len() && 0 <= k < tiers(sorted)[t].len() ==> tiers(
                sorted,
            )[t][0].1 <= (#[trigger] tiers(sorted)[t][k]).1 <= tiers(sorted)[t][0].1 * 2,
    decreases sorted.len(),
{
    if sorted.len() > 0 {
        let init = sorted.drop_last();
        let next = sorted.last();
        assert forall|i: int, j: int| 0 <= i <= j < init.len() implies (#[trigger] init[i]).1 <= (
        #[trigger] init[j]).1 by {
            assert(init[i] == sorted[i] && init[j] == sorted[j]);
        }
        lemma_tiers(init);
        let before = tiers(init);
        let after = tiers(sorted);
        assert(sorted[sorted.len() - 1] == next);
        assert forall|t: int, k: int| 0 <= t < after.len() && 0 <= k < after[t].len() implies {
            &&& sorted.contains(#[trigger] after[t][k])
            &&& after[t][0].1 <= after[t][k].1 <= after[t][0].1 * 2
        } by {
            if t < before.len() && k < before[t].len() {
                assert(after[t][k] == before[t][k] && after[t][0] == before[t][0]);
                assert(init.contains(before[t][k]));
                let m = choose|m: int| 0 <= m < init.len() && init[m] == before[t][k];
                assert(sorted[m] == after[t][k]);
            } else if t < before.len() && before[t].len() > 0 {
                assert(after[t][0] == before[t][0]);
                assert(init.contains(before[t][0]));
                let m = choose|m: int| 0 <= m < init.len() && init[m] == before[t][0];
                assert(sorted[m] == before[t][0]);
            }
        }
    }
}

/// The files of a tier are within a factor of two of each other.
pub proof fn law_tier_within_twice(
    files: Seq<(String, Option<u64>)>,
    t: int,
    j: int,
    k: int,
)
    requires
        0 <= t < tiers(by_size(sized_files(files))).len(),
        0 <= j < tiers(by_size(sized_files(files)))[t].len(),
        0 <= k < tiers(by_size(sized_files(files)))[t].len(),
    ensures
        tiers(by_size(sized_files(files)))[t][j].1 <= tiers(by_size(sized_files(files)))[t][k].1
            * 2,
{
    let sorted = by_size(sized_files(files));
    lemma_by_size_ascends(sized_files(files));
    lemma_tiers(sorted);
    assert(tiers(sorted)[t][j].1 <= tiers(sorted)[t][0].1 * 2);
    assert(tiers(sorted)[t][0].1 <= tiers(sorted)[t][k].1);
}

/// A pick stands for its paths, its output level and its highest level.
pub proof fn law_pick_views(pick: CompactionPick, metas: Seq<SstMeta>, members: Seq<int>, k: int)
    requires
        0 <= k < members.len(),
    ensures
        pick@.inputs == Seq::new(pick.inputs@.len(), |i: int| pick.inputs@[i]@),
        pick@.output_level == pick.output_level,
        pick@.max_level == pick.max_level,
        paths_of(metas, members).len() == members.len(),
        paths_of(metas, members)[k] == metas[members[k]].path@,
{
    assert(texts(pick.inputs@) =~= Seq::new(pick.inputs@.len(), |i: int| pick.inputs@[i]@));
}

/// The fanout is two more than the size of the scaling parameter. The threshold is the fanout
/// where the parameter is positive, and otherwise two.
pub proof fn law_fanout_and_threshold(w: int)
    ensures
        fanout_of(w) == 2 + (if w < 0 {
            -w
        } else {
            w
        }),
        threshold_of(w) == (if w > 0 {
            2 + w
        } else {
            2
        }),
        fanout_of(w) >= threshold_of(w) >= 2,
{
}

/// Levels grow with the sizes of tables. A table below the fanout times the flush size is at the
/// lowest level, and one that is larger by the fanout than another of at least the flush size is
/// one level above it.
pub proof fn law_level_counts_fanouts(
    k: int,
    size: int,
    j: int,
    other: int,
    flush: int,
    f: int,
)
    requires
        flush >= 1,
        f >= 2,
        size >= 0,
        is_level(k, size, flush, f),
        is_level(j, other, flush, f),
    ensures
        k >= 0,
        k == 0 <==> size < flush * f,
        k == level_of(size, flush, f),
        size <= other ==> k <= j,
        other == size * f && size >= flush ==> j == k + 1,
{
    lemma_level_unique(k, level_of(size, flush, f), size, flush, f);
    if size <= other && j < k {
        if j == 0 {
            assert(other < flush * f);
        } else {
            lemma_pow_between(f, (j + 1) as nat, k as nat);
            assert(flush * pow(f, (j + 1) as nat) <= flush * pow(f, k as nat)) by (nonlinear_arith)
                requires
                    pow(f, (j + 1) as nat) <= pow(f, k as nat),
                    flush >= 1,
            ;
        }
    }
    if other == size * f && size >= flush {
        assert(is_level(k + 1, other, flush, f)) by {
            vstd::arithmetic::power::lemma_pow1(f);
            reveal_with_fuel(pow, 2);
            let low = pow(f, k as nat);
            let mid = pow(f, (k + 1) as nat);
            let high = pow(f, (k + 2) as nat);
            vstd::arithmetic::power::lemma_pow_adds(f, k as nat, 1);
            vstd::arithmetic::power::lemma_pow_adds(f, (k + 1) as nat, 1);
            assert(mid == low * f && high == mid * f);
            if k == 0 {
                vstd::arithmetic::power::lemma_pow0(f);
                assert(low == 1 && mid == f);
                assert(flush * mid <= size * f < flush * high) by (nonlinear_arith)
                    requires
                        flush <= size < flush * f,
                        mid == f,
                        high == mid * f,
                        f >= 2,
                ;
                assert(flush * f <= size * f) by (nonlinear_arith)
                    requires
                        flush <= size,
                        f >= 2,
                ;
            } else {
                assert(flush * mid <= size * f < flush * high) by (nonlinear_arith)
                    requires
                        flush * low <= size < flush * mid,
                        mid == low * f,
                        high == mid * f,
                        f >= 2,
                ;
                assert(flush * f <= size * f) by (nonlinear_arith)
                    requires
                        flush <= size,
                        f >= 2,
                ;
            }
        }
        lemma_level_unique(j, k + 1, other, flush, f);
    }
}

/// The tables of a level are those whose sizes are of that level, each once and in their order.
pub proof fn law_level_members(metas: Seq<SstMeta>, flush: int, w: int, level: int, n: int)
    requires
        0 <= n <= metas.len(),
    ensures
        forall|i: int| #[trigger]
            at_level(metas, flush, w, level, n).contains(i) <==> 0 <= i < n && level_of(
                metas[i].file_size as int,
                flush,
                fanout_of(w),
            ) == level,
        forall|j: int, k: int|
            0 <= j < k < at_level(metas, flush, w, level, n).len() ==> (#[trigger] at_level(
                metas,
                flush,
                w,
                level,
                n,
            )[j]) < (#[trigger] at_level(metas, flush, w, level, n)[k]),
    decreases n,
{
    if n > 0 {
        let before = at_level(metas, flush, w, level, n - 1);
        let after = at_level(metas, flush, w, level, n);
        law_level_members(metas, flush, w, level, n - 1);
        lemma_at_level(metas, flush, w, level, n - 1);
        assert forall|i: int| #[trigger]
            after.contains(i) <==> 0 <= i < n && meta_level(metas, flush, w, i) == level by {
            if after.contains(i) {
                let k = choose|k: int| 0 <= k < after.len() && after[k] == i;
                if k < before.len() {
                    assert(before[k] == i);
                    assert(before.contains(i));
                }
            }
            if before.contains(i) {
                let k = choose|k: int| 0 <= k < before.len() && before[k] == i;
                assert(after[k] == i);
            }
            if i == n - 1 && meta_level(metas, flush, w, i) == level {
                assert(after[before.len() as int] == i);
            }
        }
        assert forall|j: int, k: int| 0 <= j < k < after.len() implies (#[trigger] after[j]) < (
        #[trigger] after[k]) by {
            assert(after[j] == before[j]);
            if k < before.len() {
                assert(after[k] == before[k]);
            }
        }
    }
}

/// The top level is the highest level of a table, and the lowest level where there is none above
/// it.
pub proof fn law_top_level_is_highest(metas: Seq<SstMeta>, flush: int, w: int, n: int)
    ensures
        top_level(metas, flush, w, n) >= 0,
        forall|i: int|
            0 <= i < n ==> level_of(
                (#[trigger] metas[i]).file_size as int,
                flush,
                fanout_of(w),
            ) <= top_level(metas, flush, w, n),
        top_level(metas, flush, w, n) > 0 ==> exists|i: int|
            0 <= i < n && level_of((#[trigger] metas[i]).file_size as int, flush, fanout_of(w))
                == top_level(metas, flush, w, n),
    decreases n,
{
    if n > 0 {
        law_top_level_is_highest(metas, flush, w, n - 1);
        let level = meta_level(metas, flush, w, n - 1);
        assert(level == level_of(metas[n - 1].file_size as int, flush, fanout_of(w)));
    }
}

/// Tables overlap exactly where some identifier lies in the ranges of both.
pub proof fn law_overlap_shares_an_identifier(a: SstMeta, b: SstMeta)
    requires
        ranged(a),
        ranged(b),
    ensures
        overlaps(a, b) <==> exists|id: Seq<u8>|
            #![trigger lex_le(a.min_id@, id)]
            lex_le(a.min_id@, id) && lex_le(id, a.max_id@) && lex_le(b.min_id@, id) && lex_le(
                id,
                b.max_id@,
            ),
{
    if overlaps(a, b) {
        lemma_lex_strict(a.min_id@, a.min_id@);
        lemma_lex_strict(b.min_id@, b.min_id@);
        if lex_le(a.min_id@, b.min_id@) {
            let id = b.min_id@;
            assert(lex_le(a.min_id@, id) && lex_le(id, a.max_id@) && lex_le(b.min_id@, id)
                && lex_le(id, b.max_id@));
        } else {
            let id = a.min_id@;
            lemma_lex_strict(b.min_id@, a.min_id@);
            assert(lex_le(a.min_id@, id) && lex_le(id, a.max_id@) && lex_le(b.min_id@, id)
                && lex_le(id, b.max_id@));
        }
    }
    if exists|id: Seq<u8>|
        #![trigger lex_le(a.min_id@, id)]
        lex_le(a.min_id@, id) && lex_le(id, a.max_id@) && lex_le(b.min_id@, id) && lex_le(
            id,
            b.max_id@,
        ) {
        let id = choose|id: Seq<u8>|
            #![trigger lex_le(a.min_id@, id)]
            lex_le(a.min_id@, id) && lex_le(id, a.max_id@) && lex_le(b.min_id@, id) && lex_le(
                id,
                b.max_id@,
            );
        lemma_lex_transitive(a.min_id@, id, b.max_id@);
        lemma_lex_transitive(b.min_id@, id, a.max_id@);
    }
}

/// No whole chain that is large enough is longer than the group.
proof fn lemma_group_is_longest(
    metas: Seq<SstMeta>,
    members: Seq<int>,
    threshold: int,
    chain: Seq<int>,
)
    requires
        proper_members(metas, members),
        is_whole_chain(metas, members, chain),
        chain.len() >= threshold,
    ensures
        overlap_group(metas, members, threshold) matches Some(group) && chain.len() <= group.len(),
{
    lemma_whole_chain_gives_group(metas, members, threshold, chain);
    let sorted = by_min_id(metas, members);
    let cs = chains(metas, sorted);
    lemma_by_min_id(metas, members);
    assert forall|i: int| 0 <= i < sorted.len() implies ranged(metas[#[trigger] sorted[i]]) by {
        assert(members.contains(sorted[i]));
    }
    lemma_chains_apart(metas, sorted);
    assert(members.contains(chain[0]));
    let m = choose|m: int| 0 <= m < members.len() && members[m] == chain[0];
    lemma_by_min_id_covers(metas, members, m);
    let i = choose|i: int| 0 <= i < sorted.len() && sorted[i] == members[m];
    assert(in_chain(cs, sorted[i]));
    let c = choose|c: int| 0 <= c < cs.len() && (#[trigger] cs[c]).contains(sorted[i]);
    lemma_chain_is_whole(metas, members, c);
    let whole = cs[c];
    assert forall|x: int| chain.to_set().contains(x) implies whole.to_set().contains(x) by {
        let k = choose|k: int| 0 <= k < chain.len() && chain[k] == x;
        lemma_linked_inside(metas, members, chain, whole, k);
    }
    chain.unique_seq_to_set();
    whole.unique_seq_to_set();
    vstd::seq_lib::seq_to_set_is_finite(whole);
    vstd::set_lib::lemma_len_subset(chain.to_set(), whole.to_set());
    lemma_best_chain(cs, threshold);
}

proof fn lemma_level_longest_first(
    metas: Seq<SstMeta>,
    members: Seq<int>,
    threshold: int,
    level: int,
    top: int,
)
    requires
        proper_members(metas, members),
        distinct_paths(metas),
    ensures
        ({
            let picks = level_picks(metas, members, threshold, level, top);
            forall|i: int, j: int|
                0 <= i < j < picks.len() ==> (#[trigger] picks[i]).inputs.len() >= (
                #[trigger] picks[j]).inputs.len()
        }),
    decreases members.len(),
{
    let picks = level_picks(metas, members, threshold, level, top);
    if let Some(group) = overlap_group(metas, members, threshold) {
        lemma_group_is_whole(metas, members, threshold);
        let rest = without(metas, members, group);
        if rest.len() < members.len() {
            lemma_rest(metas, members, group);
            lemma_level_longest_first(metas, rest, threshold, level, top);
            lemma_level_picks_chains(metas, rest, threshold, level, top);
            let others = level_picks(metas, rest, threshold, level, top);
            assert forall|i: int, j: int| 0 <= i < j < picks.len() implies (
            #[trigger] picks[i]).inputs.len() >= (#[trigger] picks[j]).inputs.len() by {
                assert(picks[j] == others[j - 1]);
                if i == 0 {
                    assert(picks_chain(metas, rest, threshold, level, top, others[j - 1]));
                    let chain = choose|chain: Seq<int>| #[trigger]
                        is_whole_chain(metas, rest, chain) && chain.len() >= threshold
                            && others[j - 1] == pick_of(metas, chain, level, top);
                    lemma_whole_in_rest(metas, members, group, chain);
                    lemma_group_is_longest(metas, members, threshold, chain);
                } else {
                    assert(picks[i] == others[i - 1]);
                }
            }
        }
    }
}

proof fn lemma_below_longest_first(metas: Seq<SstMeta>, flush: int, w: int, n: int)
    requires
        n >= 0,
        distinct_paths(metas),
        forall|k: int| 0 <= k < metas.len() ==> ranged(#[trigger] metas[k]),
    ensures
        ({
            let picks = picks_below(metas, flush, w, n);
            forall|i: int, j: int|
                0 <= i < j < picks.len() && picks[i].output_level == picks[j].output_level ==> (
                #[trigger] picks[i]).inputs.len() >= (#[trigger] picks[j]).inputs.len()
        }),
    decreases n,
{
    if n > 0 {
        let len = metas.len() as int;
        let members = at_level(metas, flush, w, n - 1, len);
        let top = top_level(metas, flush, w, len);
        let t = threshold_of(w);
        let before = picks_below(metas, flush, w, n - 1);
        let new = level_picks(metas, members, t, n - 1, top);
        let picks = picks_below(metas, flush, w, n);
        lemma_below_longest_first(metas, flush, w, n - 1);
        lemma_picks_below_chains(metas, flush, w, n - 1);
        lemma_level_is_proper(metas, flush, w, n - 1, len);
        lemma_level_picks_chains(metas, members, t, n - 1, top);
        lemma_level_longest_first(metas, members, t, n - 1, top);
        assert forall|i: int, j: int|
            0 <= i < j < picks.len() && picks[i].output_level == picks[j].output_level implies (
        #[trigger] picks[i]).inputs.len() >= (#[trigger] picks[j]).inputs.len() by {
            if j < before.len() {
                assert(picks[i] == before[i] && picks[j] == before[j]);
            } else {
                assert(picks[j] == new[j - before.len()]);
                assert(picks_chain(metas, members, t, n - 1, top, new[j - before.len()]));
                if i < before.len() {
                    assert(picks[i] == before[i]);
                } else {
                    assert(picks[i] == new[i - before.len()]);
                }
            }
        }
    }
}

/// Of the jobs of one level the one with the most tables comes first, and so on, where no two
/// tables have the same path and every table's smallest identifier is not above its greatest.
pub proof fn law_longest_chains_first(metas: Seq<SstMeta>, flush: int, w: int, i: int, j: int)
    requires
        distinct_paths(metas),
        forall|k: int| 0 <= k < metas.len() ==> ranged(#[trigger] metas[k]),
        0 <= i < j < all_picks(metas, flush, w).len(),
        all_picks(metas, flush, w)[i].output_level == all_picks(metas, flush, w)[j].output_level,
    ensures
        all_picks(metas, flush, w)[i].inputs.len() >= all_picks(metas, flush, w)[j].inputs.len(),
{
    let len = metas.len() as int;
    lemma_top_level(metas, flush, w, len);
    lemma_below_longest_first(metas, flush, w, top_level(metas, flush, w, len) + 1);
}

/// The files that count for size-tiered compaction are those whose sizes are known.
pub proof fn law_sized_files(files: Seq<(String, Option<u64>)>)
    ensures
        sized_files(files) == files.filter_map(
            |f: (String, Option<u64>)|
                match f.1 {
                    Some(size) => Some((f.0@, size)),
                    None => None,
                },
        ),
    decreases files.len(),
{
    if files.len() > 0 {
        law_sized_files(files.drop_last());
    }
}

/// Tiers hold the files in the order of their sizes, and all of them. A tier ends only where the
/// next file is more than twice as large as its first, and that file begins the next tier.
pub proof fn law_tiers_part_by_size(sorted: Seq<(Seq<char>, u64)>)
    requires
        forall|i: int, j: int|
            0 <= i <= j < sorted.len() ==> (#[trigger] sorted[i]).1 <= (#[trigger] sorted[j]).1,
    ensures
        tiers(sorted).flatten() == sorted,
        sorted.len() > 0 ==> forall|t: int|
            0 <= t < tiers(sorted).len() ==> (#[trigger] tiers(sorted)[t]).len() > 0,
        forall|t: int|
            0 < t < tiers(sorted).len() ==> (#[trigger] tiers(sorted)[t])[0].1 > tiers(sorted)[t
                - 1][0].1 * 2,
    decreases sorted.len(),
{
    let groups = tiers(sorted);
    groups.lemma_flatten_and_flatten_alt_are_equivalent();
    if sorted.len() == 0 {
        assert(groups.drop_last() =~= seq![]);
        assert(groups.drop_last().flatten_alt() =~= seq![]);
        assert(groups.flatten_alt() =~= sorted);
    } else {
        let init = sorted.drop_last();
        let next = sorted.last();
        assert forall|i: int, j: int| 0 <= i <= j < init.len() implies (#[trigger] init[i]).1 <= (
        #[trigger] init[j]).1 by {
            assert(init[i] == sorted[i] && init[j] == sorted[j]);
        }
        law_tiers_part_by_size(init);
        lemma_tiers(init);
        let before = tiers(init);
        before.lemma_flatten_and_flatten_alt_are_equivalent();
        let m = before.len() - 1;
        if before.last().len() == 0 || next.1 <= before.last()[0].1 * 2 {
            let grown = before.last().push(next);
            assert(groups.drop_last() =~= before.drop_last());
            assert(groups.last() == grown);
            assert(groups.flatten_alt() =~= before.drop_last().flatten_alt() + grown);
            assert(groups.flatten_alt() =~= before.flatten_alt().push(next));
            if before.last().len() == 0 {
                assert(before[m].len() == 0);
                assert(init.len() == 0);
                assert(before.len() == 1);
            }
            assert forall|t: int| 0 < t < groups.len() implies (#[trigger] groups[t])[0].1
                > groups[t - 1][0].1 * 2 by {
                assert(before[t - 1].len() > 0 && before[t].len() > 0);
                assert(groups[t - 1] == before[t - 1]);
                assert(groups[t][0] == before[t][0]);
            }
            assert forall|t: int| 0 <= t < groups.len() implies (#[trigger] groups[t]).len()
                > 0 by {
                if t < m {
                    assert(groups[t] == before[t]);
                    assert(init.len() > 0);
                }
            }
        } else {
            assert(groups.drop_last() =~= before);
            assert(groups.flatten_alt() =~= before.flatten_alt() + seq![next]);
            assert(init.len() > 0) by {
                if init.len() == 0 {
                    assert(before.last().len() == 0);
                }
            }
            assert forall|t: int| 0 < t < groups.len() implies (#[trigger] groups[t])[0].1
                > groups[t - 1][0].1 * 2 by {
                if t < before.len() {
                    assert(groups[t] == before[t] && groups[t - 1] == before[t - 1]);
                } else {
                    assert(groups[t] == seq![next] && groups[t - 1] == before.last());
                }
            }
        }
        assert(init.push(next) =~= sorted);
    }
}

/// Files are sorted by size: each file has one place, sizes do not fall, and files of one size
/// keep their order.
pub proof fn law_files_are_sorted(files: Seq<(Seq<char>, u64)>) -> (order: Seq<int>)
    ensures
        order.len() == files.len(),
        order.no_duplicates(),
        by_size(files).len() == files.len(),
        forall|i: int| 0 <= i < order.len() ==> 0 <= #[trigger] order[i] < files.len(),
        forall|i: int|
            0 <= i < order.len() ==> #[trigger] by_size(files)[i] == files[order[i]],
        forall|i: int, j: int|
            0 <= i < j < order.len() ==> files[#[trigger] order[i]].1 < files[#[trigger] order[j]].1
                || (files[order[i]].1 == files[order[j]].1 && order[i] < order[j]),
{
    let rs = size_ranks(files);
    let order = crate::sort::law_sort_is_stable(files, rs);
    crate::bytes::lemma_pow256_values();
    assert forall|i: int, j: int| 0 <= i < j < order.len() implies files[#[trigger] order[i]].1
        < files[#[trigger] order[j]].1 || (files[order[i]].1 == files[order[j]].1 && order[i]
        < order[j]) by {
        lemma_be_order(files[order[i]].1 as nat, files[order[j]].1 as nat, 8);
    }
    order
}

proof fn lemma_first_tier(groups: Seq<Seq<(Seq<char>, u64)>>, threshold: int)
    ensures
        match first_tier(groups, threshold) {
            Some(tier) => exists|t: int| #[trigger] is_first_tier(groups, threshold, t)
                && groups[t] == tier,
            None => forall|t: int|
                0 <= t < groups.len() ==> (#[trigger] groups[t]).len() < threshold,
        },
    decreases groups.len(),
{
    if groups.len() > 0 {
        let init = groups.drop_last();
        let n = groups.len() - 1;
        lemma_first_tier(init, threshold);
        assert forall|t: int| 0 <= t < n implies #[trigger] groups[t] == init[t] by {}
        match first_tier(init, threshold) {
            Some(tier) => {
                let t = choose|t: int| #[trigger] is_first_tier(init, threshold, t) && init[t]
                    == tier;
                assert(groups[t] == tier);
                assert(is_first_tier(groups, threshold, t));
            },
            None => {
                if groups[n].len() >= threshold {
                    assert(is_first_tier(groups, threshold, n));
                }
            },
        }
    }
}

/// Whether a tier is the first with enough files.
pub open spec fn is_first_tier(
    groups: Seq<Seq<(Seq<char>, u64)>>,
    threshold: int,
    t: int,
) -> bool {
    &&& 0 <= t < groups.len()
    &&& groups[t].len() >= threshold
    &&& forall|u: int| 0 <= u < t ==> (#[trigger] groups[u]).len() < threshold
}

/// Size-tiered compaction merges the files of the first tier that has enough, by name and in
/// the order of their sizes, and nothing exactly where there are too few files or no tier has
/// enough.
pub proof fn law_first_full_tier_is_picked(files: Seq<(String, Option<u64>)>, threshold: int)
    ensures
        ({
            let groups = tiers(by_size(sized_files(files)));
            match tier_pick(files, threshold) {
                Some(names) => files.len() >= threshold && exists|t: int| #[trigger]
                    is_first_tier(groups, threshold, t) && names == Seq::new(
                        groups[t].len(),
                        |i: int| groups[t][i].0,
                    ),
                None => files.len() < threshold || forall|t: int|
                    0 <= t < groups.len() ==> (#[trigger] groups[t]).len() < threshold,
            }
        }),
{
    let groups = tiers(by_size(sized_files(files)));
    lemma_first_tier(groups, threshold);
    if files.len() >= threshold {
        if let Some(tier) = first_tier(groups, threshold) {
            let t = choose|t: int| #[trigger] is_first_tier(groups, threshold, t) && groups[t]
                == tier;
            assert(file_names(tier) =~= Seq::new(groups[t].len(), |i: int| groups[t][i].0));
        }
    }
}

} // verus!
