//! Query statistics.

use crate::bytes::{be, lemma_be_order, lemma_pow256_values};
use crate::clock::{is_reading, is_time_since, read_clock, time_since};
use crate::fields::{
    copy_names, lemma_name_order, name_before, name_lt, same_names, texts,
};
use crate::query::{part_views, Condition, Filter};
use crate::sort::{
    comes_before, is_stable_order, lemma_stable_order, positions, ranks, sort_order,
    sorted_by_rank, stable_order,
};
use std::time::Instant;
use vstd::prelude::*;

verus! {

/// Identifies a query pattern for aggregation.
/// Two queries with the same pattern shape get aggregated together.
#[derive(Debug, Hash)]
pub struct QueryPattern {
    /// Query type: "get", "scan", "traverse"
    pub query_type: String,
    /// Fields used in filter predicates (sorted for deterministic hashing)
    pub filter_fields: Vec<String>,
    /// Fields used for sorting (sorted by appearance order)
    pub sort_fields: Vec<String>,
    /// Join edge for traverse queries: (from_field, to_field)
    pub join_edge: Option<(String, String)>,
}

/// A [`QueryPattern`] as a mathematical value.
#[verifier::ext_equal]
pub struct Shape {
    pub query_type: Seq<char>,
    pub filter_fields: Seq<Seq<char>>,
    pub sort_fields: Seq<Seq<char>>,
    pub join_edge: Option<(Seq<char>, Seq<char>)>,
}

/// A join edge as a mathematical value.
pub open spec fn edge_view(edge: Option<(String, String)>) -> Option<(Seq<char>, Seq<char>)> {
    match edge {
        Some((from, to)) => Some((from@, to@)),
        None => None,
    }
}

impl View for QueryPattern {
    type V = Shape;

    open spec fn view(&self) -> Shape {
        Shape {
            query_type: self.query_type@,
            filter_fields: texts(self.filter_fields@),
            sort_fields: texts(self.sort_fields@),
            join_edge: edge_view(self.join_edge),
        }
    }
}

impl QueryPattern {
    /// Whether two patterns have the same shape.
    fn same(&self, other: &QueryPattern) -> (r: bool)
        ensures
            r == (self@ == other@),
    {
        if self.query_type != other.query_type {
            return false;
        }
        if !same_names(self.filter_fields.as_slice(), other.filter_fields.as_slice()) {
            return false;
        }
        if !same_names(self.sort_fields.as_slice(), other.sort_fields.as_slice()) {
            return false;
        }
        match (&self.join_edge, &other.join_edge) {
            (None, None) => true,
            (Some(a), Some(b)) => a.0 == b.0 && a.1 == b.1,
            _ => false,
        }
    }
}

impl PartialEq for QueryPattern {
    fn eq(&self, other: &Self) -> (r: bool) {
        self.same(other)
    }
}

impl vstd::std_specs::cmp::PartialEqSpecImpl for QueryPattern {
    open spec fn obeys_eq_spec() -> bool {
        true
    }

    open spec fn eq_spec(&self, other: &Self) -> bool {
        self@ == other@
    }
}

impl Eq for QueryPattern {

}

impl Clone for QueryPattern {
    fn clone(&self) -> (pattern: Self)
        ensures
            pattern@ == self@,
    {
        QueryPattern {
            query_type: self.query_type.clone(),
            filter_fields: copy_names(self.filter_fields.as_slice()),
            sort_fields: copy_names(self.sort_fields.as_slice()),
            join_edge: match &self.join_edge {
                Some(edge) => Some((edge.0.clone(), edge.1.clone())),
                None => None,
            },
        }
    }
}

/// Metrics recorded for a single query execution.
#[derive(Debug)]
pub struct QueryMetrics {
    /// The query pattern
    pub pattern: QueryPattern,
    /// Wall-clock latency of the query, in nanoseconds
    pub latency: u128,
    /// Number of documents examined (before filtering)
    pub docs_scanned: u64,
    /// Number of documents returned (after filtering)
    pub docs_returned: u64,
}

impl Clone for QueryMetrics {
    fn clone(&self) -> (metrics: Self)
        ensures
            metrics.pattern@ == self.pattern@,
            metrics.latency == self.latency,
            metrics.docs_scanned == self.docs_scanned,
            metrics.docs_returned == self.docs_returned,
    {
        QueryMetrics {
            pattern: self.pattern.clone(),
            latency: self.latency,
            docs_scanned: self.docs_scanned,
            docs_returned: self.docs_returned,
        }
    }
}

/// Aggregated statistics for a query pattern.
#[derive(Debug, Clone, Copy)]
pub struct PatternStats {
    /// Number of times this pattern was executed
    pub count: u64,
    /// Total latency across all executions, in nanoseconds
    pub total_latency: u128,
    /// Total documents scanned
    pub total_scanned: u64,
    /// Total documents returned
    pub total_returned: u64,
}

/// Whether the totals have room for one more execution.
pub open spec fn has_room(s: PatternStats, m: QueryMetrics) -> bool {
    &&& s.count < u64::MAX
    &&& s.total_latency + m.latency <= u128::MAX
    &&& s.total_scanned + m.docs_scanned <= u64::MAX
    &&& s.total_returned + m.docs_returned <= u64::MAX
}

/// The totals after one more execution.
pub open spec fn counted(s: PatternStats, m: QueryMetrics) -> PatternStats {
    PatternStats {
        count: (s.count + 1) as u64,
        total_latency: (s.total_latency + m.latency) as u128,
        total_scanned: (s.total_scanned + m.docs_scanned) as u64,
        total_returned: (s.total_returned + m.docs_returned) as u64,
    }
}

/// The totals of no execution.
pub open spec fn no_stats() -> PatternStats {
    PatternStats { count: 0, total_latency: 0, total_scanned: 0, total_returned: 0 }
}

/// Whether the fraction of scanned documents that were returned is below `num / den`. Where
/// nothing was scanned the fraction is one.
pub open spec fn selects_below(s: PatternStats, num: nat, den: nat) -> bool {
    if s.total_scanned == 0 {
        den < num
    } else {
        s.total_returned * den < num * s.total_scanned
    }
}

impl PatternStats {
    fn new() -> (stats: Self)
        ensures
            stats == no_stats(),
    {
        PatternStats { count: 0, total_latency: 0, total_scanned: 0, total_returned: 0 }
    }

    fn record(&mut self, metrics: &QueryMetrics)
        requires
            has_room(*old(self), *metrics),
        ensures
            *final(self) == counted(*old(self), *metrics),
    {
        self.count = self.count + 1;
        self.total_latency = self.total_latency + metrics.latency;
        self.total_scanned = self.total_scanned + metrics.docs_scanned;
        self.total_returned = self.total_returned + metrics.docs_returned;
    }

    /// Average latency per query, in nanoseconds.
    pub fn avg_latency(&self) -> (nanos: u128)
        ensures
            nanos == (if self.count == 0 {
                0
            } else {
                self.total_latency as nat / self.count as nat
            }),
    {
        if self.count == 0 {
            0
        } else {
            self.total_latency / self.count as u128
        }
    }

    /// Selectivity: fraction of scanned documents that were returned, as numerator and
    /// denominator. Low selectivity (close to 0) means a secondary index would help.
    pub fn selectivity(&self) -> (fraction: (u64, u64))
        ensures
            fraction == (if self.total_scanned == 0 {
                (1u64, 1u64)
            } else {
                (self.total_returned, self.total_scanned)
            }),
    {
        if self.total_scanned == 0 {
            (1, 1)
        } else {
            (self.total_returned, self.total_scanned)
        }
    }

    /// Whether selectivity is below `threshold`, given as numerator and denominator.
    fn is_selective(&self, threshold: (u64, u64)) -> (r: bool)
        ensures
            r == selects_below(*self, threshold.0 as nat, threshold.1 as nat),
    {
        if self.total_scanned == 0 {
            return threshold.1 < threshold.0;
        }
        proof {
            lemma_product_fits(self.total_returned, threshold.1);
            lemma_product_fits(threshold.0, self.total_scanned);
        }
        (self.total_returned as u128) * (threshold.1 as u128) < (threshold.0 as u128) * (
        self.total_scanned as u128)
    }
}

proof fn lemma_product_fits(a: u64, b: u64)
    ensures
        0 <= a * b <= u128::MAX,
{
    assert(0 <= a * b <= u64::MAX * u64::MAX) by (nonlinear_arith)
        requires
            0 <= a <= u64::MAX,
            0 <= b <= u64::MAX,
    ;
}

/// Patterns with their totals, as mathematical values.
pub open spec fn stats_views(entries: Seq<(QueryPattern, PatternStats)>) -> Seq<
    (Shape, PatternStats),
> {
    Seq::new(entries.len(), |i: int| (entries[i].0@, entries[i].1))
}

/// Whether no pattern occurs twice.
pub open spec fn shapes_distinct(entries: Seq<(Shape, PatternStats)>) -> bool {
    forall|i: int, j: int|
        0 <= i < j < entries.len() ==> (#[trigger] entries[i]).0 != (#[trigger] entries[j]).0
}

/// The first place of a pattern, or the length where it does not occur.
pub open spec fn place_of(entries: Seq<(Shape, PatternStats)>, shape: Shape) -> int
    decreases entries.len(),
{
    if entries.len() == 0 || entries[0].0 == shape {
        0
    } else {
        1 + place_of(entries.drop_first(), shape)
    }
}

/// The totals of a pattern.
pub open spec fn stats_of(entries: Seq<(Shape, PatternStats)>, shape: Shape) -> Option<
    PatternStats,
> {
    let at = place_of(entries, shape);
    if at < entries.len() {
        Some(entries[at].1)
    } else {
        None
    }
}

/// The totals of a pattern, none if it was not executed.
pub open spec fn totals(entries: Seq<(Shape, PatternStats)>, shape: Shape) -> PatternStats {
    match stats_of(entries, shape) {
        Some(stats) => stats,
        None => no_stats(),
    }
}

/// Patterns with their totals after one more execution.
pub open spec fn recorded(entries: Seq<(Shape, PatternStats)>, m: QueryMetrics) -> Seq<
    (Shape, PatternStats),
> {
    let shape = m.pattern@;
    let at = place_of(entries, shape);
    let entry = (shape, counted(totals(entries, shape), m));
    if at < entries.len() {
        entries.update(at, entry)
    } else {
        entries.push(entry)
    }
}

proof fn lemma_place_of(entries: Seq<(Shape, PatternStats)>, shape: Shape)
    ensures
        0 <= place_of(entries, shape) <= entries.len(),
        forall|i: int|
            0 <= i < place_of(entries, shape) ==> (#[trigger] entries[i]).0 != shape,
        place_of(entries, shape) < entries.len() ==> entries[place_of(entries, shape)].0 == shape,
    decreases entries.len(),
{
    if entries.len() > 0 && entries[0].0 != shape {
        let rest = entries.drop_first();
        lemma_place_of(rest, shape);
        assert forall|i: int| 0 <= i < place_of(entries, shape) implies (
        #[trigger] entries[i]).0 != shape by {
            if i > 0 {
                assert(rest[i - 1] == entries[i]);
            }
        }
    }
}

proof fn lemma_place_is(entries: Seq<(Shape, PatternStats)>, shape: Shape, at: int)
    requires
        0 <= at <= entries.len(),
        forall|i: int| 0 <= i < at ==> (#[trigger] entries[i]).0 != shape,
        at < entries.len() ==> entries[at].0 == shape,
    ensures
        at == place_of(entries, shape),
{
    lemma_place_of(entries, shape);
    let p = place_of(entries, shape);
    if p < at {
        assert(entries[p].0 != shape);
    } else if at < p {
        assert(entries[at].0 != shape);
    }
}

/// Recording an execution adds it to the totals of its pattern and leaves the others alone.
pub proof fn law_record(entries: Seq<(Shape, PatternStats)>, m: QueryMetrics, shape: Shape)
    requires
        shapes_distinct(entries),
    ensures
        shapes_distinct(recorded(entries, m)),
        stats_of(recorded(entries, m), shape) == (if shape == m.pattern@ {
            Some(counted(totals(entries, shape), m))
        } else {
            stats_of(entries, shape)
        }),
{
    let at = place_of(entries, m.pattern@);
    let after = recorded(entries, m);
    lemma_place_of(entries, m.pattern@);
    lemma_place_of(entries, shape);
    lemma_place_of(after, shape);
    assert forall|i: int, j: int| 0 <= i < j < after.len() implies (#[trigger] after[i]).0 != (
    #[trigger] after[j]).0 by {
        if j < entries.len() {
            assert(entries[i].0 != entries[j].0);
        } else {
            assert(entries[i].0 != m.pattern@);
        }
    }
    if shape == m.pattern@ {
        assert forall|i: int| 0 <= i < at implies (#[trigger] after[i]).0 != shape by {
            assert(entries[i].0 != shape);
        }
        lemma_place_is(after, shape, at);
    } else {
        let p = place_of(entries, shape);
        assert forall|i: int| 0 <= i < p implies (#[trigger] after[i]).0 != shape by {
            assert(entries[i].0 != shape);
        }
        if p < entries.len() {
            lemma_place_is(after, shape, p);
        } else {
            assert forall|i: int| 0 <= i < after.len() implies (#[trigger] after[i]).0
                != shape by {
                if i < entries.len() {
                    assert(entries[i].0 != shape);
                }
            }
            lemma_place_is(after, shape, after.len() as int);
        }
    }
}

/// The ranks of some patterns: from the most executions to the fewest.
pub open spec fn count_ranks(entries: Seq<(Shape, PatternStats)>) -> Seq<Seq<u8>> {
    Seq::new(entries.len(), |i: int| be((u64::MAX - entries[i].1.count) as nat, 8))
}

/// Patterns from the most executions to the fewest, at most `n` of them.
pub open spec fn most_executed(entries: Seq<(Shape, PatternStats)>, n: nat) -> Seq<
    (Shape, PatternStats),
> {
    let sorted = sorted_by_rank(entries, count_ranks(entries));
    if n < sorted.len() {
        sorted.take(n as int)
    } else {
        sorted
    }
}

/// The patterns that were executed at least `min_count` times and select less than
/// `num / den` of what they scan.
pub open spec fn index_candidates(
    entries: Seq<(Shape, PatternStats)>,
    num: nat,
    den: nat,
    min_count: nat,
) -> Seq<(Shape, PatternStats)>
    decreases entries.len(),
{
    if entries.len() == 0 {
        seq![]
    } else {
        let before = index_candidates(entries.drop_last(), num, den, min_count);
        let entry = entries.last();
        if entry.1.count >= min_count && selects_below(entry.1, num, den) {
            before.push(entry)
        } else {
            before
        }
    }
}

/// Query statistics collector.
///
/// Records per-query metrics and aggregates them by query pattern.
pub struct QueryStats {
    patterns: Vec<(QueryPattern, PatternStats)>,
}

impl View for QueryStats {
    type V = Seq<(Shape, PatternStats)>;

    closed spec fn view(&self) -> Seq<(Shape, PatternStats)> {
        stats_views(self.patterns@)
    }
}

impl QueryStats {
    #[verifier::type_invariant]
    spec fn well_formed(self) -> bool {
        shapes_distinct(stats_views(self.patterns@))
    }

    pub fn new() -> (stats: Self)
        ensures
            stats@ == Seq::<(Shape, PatternStats)>::empty(),
    {
        let patterns: Vec<(QueryPattern, PatternStats)> = Vec::new();
        assert(stats_views(patterns@) =~= Seq::<(Shape, PatternStats)>::empty());
        QueryStats { patterns }
    }

    /// The place of a pattern.
    fn find(&self, pattern: &QueryPattern) -> (at: usize)
        ensures
            at == place_of(self@, pattern@),
            at <= self@.len(),
    {
        let n: usize = self.patterns.len();
        let mut i: usize = 0;
        while i < n && !self.patterns[i].0.same(pattern)
            invariant
                n == self.patterns@.len(),
                self@ == stats_views(self.patterns@),
                i <= n,
                forall|j: int| 0 <= j < i ==> (#[trigger] self@[j]).0 != pattern@,
            decreases n - i,
        {
            i += 1;
        }
        proof {
            lemma_place_is(self@, pattern@, i as int);
        }
        i
    }

    /// Record metrics for a completed query.
    pub fn record(&mut self, metrics: QueryMetrics)
        requires
            has_room(totals(old(self)@, metrics.pattern@), metrics),
        ensures
            final(self)@ == recorded(old(self)@, metrics),
            shapes_distinct(final(self)@),
    {
        proof {
            use_type_invariant(&*self);
            law_record(self@, metrics, metrics.pattern@);
        }
        let ghost before = self@;
        let at: usize = self.find(&metrics.pattern);
        let mut stats = QueryStats::new();
        std::mem::swap(&mut stats, self);
        let mut patterns = stats.patterns;
        if at < patterns.len() {
            let mut entry: PatternStats = patterns[at].1;
            entry.record(&metrics);
            let ghost shape = metrics.pattern@;
            patterns.set(at, (metrics.pattern, entry));
            assert(stats_views(patterns@) =~= before.update(at as int, (shape, entry)));
        } else {
            let mut entry = PatternStats::new();
            entry.record(&metrics);
            let ghost shape = metrics.pattern@;
            patterns.push((metrics.pattern, entry));
            assert(stats_views(patterns@) =~= before.push((shape, entry)));
        }
        *self = QueryStats { patterns };
    }

    /// Get aggregated stats for all observed patterns.
    pub fn all_patterns(&self) -> (all: Vec<(QueryPattern, PatternStats)>)
        ensures
            stats_views(all@) == self@,
            shapes_distinct(self@),
    {
        proof {
            use_type_invariant(self);
        }
        let n: usize = self.patterns.len();
        let mut all: Vec<(QueryPattern, PatternStats)> = Vec::new();
        let mut i: usize = 0;
        while i < n
            invariant
                n == self.patterns@.len(),
                i <= n,
                all@.len() == i,
                forall|j: int|
                    0 <= j < i ==> (#[trigger] all@[j]).0@ == self.patterns@[j].0@ && all@[j].1
                        == self.patterns@[j].1,
            decreases n - i,
        {
            all.push((self.patterns[i].0.clone(), self.patterns[i].1));
            i += 1;
        }
        assert(stats_views(all@) =~= self@);
        all
    }

    /// Get stats for a specific pattern, if it exists.
    pub fn get_pattern(&self, pattern: &QueryPattern) -> (r: Option<PatternStats>)
        ensures
            r == stats_of(self@, pattern@),
    {
        let at: usize = self.find(pattern);
        if at < self.patterns.len() {
            Some(self.patterns[at].1)
        } else {
            None
        }
    }

    /// Get the top N patterns by execution count.
    pub fn top_by_count(&self, n: usize) -> (top: Vec<(QueryPattern, PatternStats)>)
        ensures
            stats_views(top@) == most_executed(self@, n as nat),
    {
        let ghost sorted = sorted_by_rank(self@, count_ranks(self@));
        let len: usize = self.patterns.len();
        let mut keys: Vec<u64> = Vec::new();
        let mut i: usize = 0;
        while i < len
            invariant
                len == self.patterns@.len(),
                i <= len,
                keys@.len() == i,
                forall|j: int|
                    0 <= j < i ==> #[trigger] keys@[j] == u64::MAX - self.patterns@[j].1.count,
            decreases len - i,
        {
            keys.push(u64::MAX - self.patterns[i].1.count);
            i += 1;
        }
        assert(ranks(keys@) =~= count_ranks(self@));
        let order = sort_order(&keys);
        let limit: usize = if n < len {
            n
        } else {
            len
        };
        let mut top: Vec<(QueryPattern, PatternStats)> = Vec::new();
        let mut k: usize = 0;
        while k < limit
            invariant
                limit <= len,
                len == order@.len(),
                len == self.patterns@.len(),
                sorted == sorted_by_rank(self@, count_ranks(self@)),
                is_stable_order(count_ranks(self@), positions(order@)),
                positions(order@) == stable_order(count_ranks(self@)),
                k <= limit,
                top@.len() == k,
                forall|j: int|
                    0 <= j < k ==> (#[trigger] top@[j]).0@ == sorted[j].0 && top@[j].1
                        == sorted[j].1,
            decreases limit - k,
        {
            assert(0 <= positions(order@)[k as int] < len);
            assert(sorted[k as int] == self@[order@[k as int] as int]);
            let at: usize = order[k];
            top.push((self.patterns[at].0.clone(), self.patterns[at].1));
            k += 1;
        }
        assert(stats_views(top@) =~= most_executed(self@, n as nat));
        top
    }

    /// Get patterns with low selectivity (potential index candidates).
    /// Returns patterns where selectivity < threshold and count >= min_count.
    /// The threshold is given as numerator and denominator.
    pub fn low_selectivity(&self, threshold: (u64, u64), min_count: u64) -> (found: Vec<
        (QueryPattern, PatternStats),
    >)
        ensures
            stats_views(found@) == index_candidates(
                self@,
                threshold.0 as nat,
                threshold.1 as nat,
                min_count as nat,
            ),
    {
        let n: usize = self.patterns.len();
        let mut found: Vec<(QueryPattern, PatternStats)> = Vec::new();
        let mut i: usize = 0;
        proof {
            assert(self@.take(0) =~= seq![]);
            assert(stats_views(found@) =~= seq![]);
        }
        while i < n
            invariant
                n == self.patterns@.len(),
                self@ == stats_views(self.patterns@),
                i <= n,
                stats_views(found@) == index_candidates(
                    self@.take(i as int),
                    threshold.0 as nat,
                    threshold.1 as nat,
                    min_count as nat,
                ),
            decreases n - i,
        {
            proof {
                assert(self@.take(i + 1).drop_last() =~= self@.take(i as int));
                assert(self@.take(i + 1).last() == self@[i as int]);
            }
            let stats: PatternStats = self.patterns[i].1;
            if stats.count >= min_count && stats.is_selective(threshold) {
                let ghost before = stats_views(found@);
                found.push((self.patterns[i].0.clone(), stats));
                assert(stats_views(found@) =~= before.push(self@[i as int]));
            }
            i += 1;
        }
        assert(self@.take(n as int) =~= self@);
        found
    }

    /// Reset all statistics.
    pub fn reset(&mut self)
        ensures
            final(self)@ == Seq::<(Shape, PatternStats)>::empty(),
    {
        *self = QueryStats::new();
    }
}

impl Default for QueryStats {
    fn default() -> (stats: Self)
        ensures
            stats@ == Seq::<(Shape, PatternStats)>::empty(),
    {
        QueryStats::new()
    }
}

/// The patterns that [`QueryStats::top_by_count`] lists come with falling counts, and no
/// pattern that it leaves out was executed more often than one that it lists.
pub proof fn law_top_by_count(entries: Seq<(Shape, PatternStats)>, n: nat)
    ensures
        most_executed(entries, n).len() == (if n < entries.len() {
            n
        } else {
            entries.len()
        }),
        forall|i: int, j: int|
            0 <= i <= j < most_executed(entries, n).len() ==> (#[trigger] most_executed(
                entries,
                n,
            )[i]).1.count >= (#[trigger] most_executed(entries, n)[j]).1.count,
        forall|i: int|
            0 <= i < most_executed(entries, n).len() ==> entries.contains(
                #[trigger] most_executed(entries, n)[i],
            ),
        forall|m: int, i: int|
            0 <= m < entries.len() && 0 <= i < most_executed(entries, n).len()
                && !most_executed(entries, n).contains(entries[m]) ==> (
            #[trigger] entries[m]).1.count <= (#[trigger] most_executed(entries, n)[i]).1.count,
{
    let rs = count_ranks(entries);
    let order = stable_order(rs);
    let sorted = sorted_by_rank(entries, rs);
    let top = most_executed(entries, n);
    lemma_stable_order(rs);
    lemma_pow256_values();
    assert forall|i: int, j: int| 0 <= i <= j < sorted.len() implies (
    #[trigger] sorted[i]).1.count >= (#[trigger] sorted[j]).1.count by {
        if i < j {
            assert(comes_before(rs, order[i], order[j]));
            lemma_be_order(
                (u64::MAX - entries[order[i]].1.count) as nat,
                (u64::MAX - entries[order[j]].1.count) as nat,
                8,
            );
        }
    }
    assert forall|i: int, j: int| 0 <= i <= j < top.len() implies (
    #[trigger] top[i]).1.count >= (#[trigger] top[j]).1.count by {
        assert(top[i] == sorted[i] && top[j] == sorted[j]);
    }
    assert forall|i: int| 0 <= i < top.len() implies entries.contains(#[trigger] top[i]) by {
        assert(top[i] == entries[order[i]]);
    }
    assert forall|m: int, i: int|
        0 <= m < entries.len() && 0 <= i < top.len() && !top.contains(entries[m]) implies (
    #[trigger] entries[m]).1.count <= (#[trigger] top[i]).1.count by {
        assert(order.contains(m));
        let k = choose|k: int| 0 <= k < order.len() && order[k] == m;
        assert(sorted[k] == entries[m]);
        if k < top.len() {
            assert(top[k] == entries[m]);
        }
        assert(top[i] == sorted[i]);
    }
}

/// Names that rise are in the order of their bytes, and none occurs twice.
pub proof fn law_names_rise(names: Seq<Seq<char>>, i: int, j: int)
    requires
        names_rise(names),
        0 <= i < j < names.len(),
    ensures
        crate::bytes::lex_lt(
            vstd::utf8::encode_utf8(names[i]),
            vstd::utf8::encode_utf8(names[j]),
        ),
        names[i] != names[j],
{
    assert(name_lt(names[i], names[j]));
    lemma_name_order(names[i], names[j], names[i]);
}

/// Patterns are aggregated together exactly where they agree in everything: the type of the
/// query, the filter fields, the sort fields in their order, and the join edge.
pub proof fn law_patterns_are_told_apart(a: QueryPattern, b: QueryPattern)
    ensures
        a@ == b@ <==> a.query_type@ == b.query_type@ && Seq::new(
            a.filter_fields@.len(),
            |i: int| a.filter_fields@[i]@,
        ) == Seq::new(b.filter_fields@.len(), |i: int| b.filter_fields@[i]@) && Seq::new(
            a.sort_fields@.len(),
            |i: int| a.sort_fields@[i]@,
        ) == Seq::new(b.sort_fields@.len(), |i: int| b.sort_fields@[i]@) && (match (
            a.join_edge,
            b.join_edge,
        ) {
            (Some(x), Some(y)) => x.0@ == y.0@ && x.1@ == y.1@,
            (None, None) => true,
            _ => false,
        }),
{
    assert(texts(a.filter_fields@) =~= Seq::new(
        a.filter_fields@.len(),
        |i: int| a.filter_fields@[i]@,
    ));
    assert(texts(b.filter_fields@) =~= Seq::new(
        b.filter_fields@.len(),
        |i: int| b.filter_fields@[i]@,
    ));
    assert(texts(a.sort_fields@) =~= Seq::new(
        a.sort_fields@.len(),
        |i: int| a.sort_fields@[i]@,
    ));
    assert(texts(b.sort_fields@) =~= Seq::new(
        b.sort_fields@.len(),
        |i: int| b.sort_fields@[i]@,
    ));
}

/// The totals of a pattern are those that are kept for it, and there are none exactly where
/// nothing is kept for it.
pub proof fn law_totals_of_pattern(
    entries: Seq<(Shape, PatternStats)>,
    shape: Shape,
    stats: PatternStats,
)
    requires
        shapes_distinct(entries),
    ensures
        stats_of(entries, shape) == Some(stats) <==> entries.contains((shape, stats)),
        stats_of(entries, shape) is None <==> forall|i: int|
            0 <= i < entries.len() ==> (#[trigger] entries[i]).0 != shape,
{
    lemma_place_of(entries, shape);
    let at = place_of(entries, shape);
    if entries.contains((shape, stats)) {
        let i = choose|i: int| 0 <= i < entries.len() && entries[i] == (shape, stats);
        if at < i {
            assert(entries[at].0 != entries[i].0);
        }
    }
    if at < entries.len() {
        assert(entries[at] == (shape, entries[at].1));
    }
}

/// Recording an execution adds one to the count of its pattern, and its latency and its numbers
/// of documents to the sums. The first execution of a pattern begins them. What is kept for
/// every other pattern stays, and nothing else comes in.
pub proof fn law_record_adds_up(entries: Seq<(Shape, PatternStats)>, m: QueryMetrics, other: Shape)
    requires
        shapes_distinct(entries),
        has_room(totals(entries, m.pattern@), m),
    ensures
        stats_of(recorded(entries, m), m.pattern@) matches Some(s) && match stats_of(
            entries,
            m.pattern@,
        ) {
            Some(before) => s.count == before.count + 1 && s.total_latency == before.total_latency
                + m.latency && s.total_scanned == before.total_scanned + m.docs_scanned
                && s.total_returned == before.total_returned + m.docs_returned,
            None => s.count == 1 && s.total_latency == m.latency && s.total_scanned
                == m.docs_scanned && s.total_returned == m.docs_returned,
        },
        other != m.pattern@ ==> stats_of(recorded(entries, m), other) == stats_of(entries, other),
        recorded(entries, m).len() == entries.len() + (if stats_of(entries, m.pattern@) is None {
            1int
        } else {
            0
        }),
{
    law_record(entries, m, m.pattern@);
    law_record(entries, m, other);
    lemma_place_of(entries, m.pattern@);
}

/// Whether there is room for one more execution says exactly that no sum overflows.
pub proof fn law_room(s: PatternStats, m: QueryMetrics)
    ensures
        has_room(s, m) <==> s.count + 1 <= u64::MAX && s.total_latency + m.latency <= u128::MAX
            && s.total_scanned + m.docs_scanned <= u64::MAX && s.total_returned + m.docs_returned
            <= u64::MAX,
{
}

/// The patterns that an index may help are those that were executed often enough and returned
/// less than the given fraction of what they scanned, in their order. Where nothing was scanned
/// the fraction counts as one.
pub proof fn law_candidates_select_little(
    entries: Seq<(Shape, PatternStats)>,
    num: nat,
    den: nat,
    min_count: nat,
)
    ensures
        index_candidates(entries, num, den, min_count) == entries.filter(
            |e: (Shape, PatternStats)|
                e.1.count >= min_count && (if e.1.total_scanned == 0 {
                    1 * den < num * 1
                } else {
                    e.1.total_returned * den < num * e.1.total_scanned
                }),
        ),
    decreases entries.len(),
{
    reveal(Seq::filter);
    if entries.len() > 0 {
        law_candidates_select_little(entries.drop_last(), num, den, min_count);
    }
}

/// The patterns with the most executions are listed each once, and those with equal counts in
/// the order in which they are kept.
pub proof fn law_top_lists_each_once(entries: Seq<(Shape, PatternStats)>, n: nat) -> (order: Seq<
    int,
>)
    ensures
        order.len() == entries.len(),
        order.no_duplicates(),
        forall|i: int| 0 <= i < order.len() ==> 0 <= #[trigger] order[i] < entries.len(),
        forall|i: int|
            0 <= i < most_executed(entries, n).len() ==> #[trigger] most_executed(entries, n)[i]
                == entries[order[i]],
        forall|i: int, j: int|
            0 <= i < j < order.len() ==> entries[#[trigger] order[i]].1.count
                > entries[#[trigger] order[j]].1.count || (entries[order[i]].1.count
                == entries[order[j]].1.count && order[i] < order[j]),
{
    let rs = count_ranks(entries);
    let order = crate::sort::law_sort_is_stable(entries, rs);
    lemma_pow256_values();
    assert forall|i: int, j: int| 0 <= i < j < order.len() implies entries[
    #[trigger] order[i]].1.count > entries[#[trigger] order[j]].1.count || (
    entries[order[i]].1.count == entries[order[j]].1.count && order[i] < order[j]) by {
        lemma_be_order(
            (u64::MAX - entries[order[i]].1.count) as nat,
            (u64::MAX - entries[order[j]].1.count) as nat,
            8,
        );
    }
    order
}

/// Helper to time a query and build metrics.
pub struct QueryTimer {
    pattern: QueryPattern,
    start: Instant,
    docs_scanned: u64,
}

impl QueryTimer {
    /// The pattern of the query.
    pub closed spec fn shape(&self) -> Shape {
        self.pattern@
    }

    /// The number of documents scanned so far.
    pub closed spec fn scanned(&self) -> u64 {
        self.docs_scanned
    }

    /// When the query was started.
    pub closed spec fn began(&self) -> Instant {
        self.start
    }

    /// Start timing a query now.
    pub fn start(pattern: QueryPattern) -> (timer: Self)
        ensures
            timer.shape() == pattern@,
            timer.scanned() == 0,
            is_reading(timer.began()),
    {
        Self::start_at(pattern, read_clock())
    }

    /// Time a query that was started at some point in time.
    pub fn start_at(pattern: QueryPattern, start: Instant) -> (timer: Self)
        ensures
            timer.shape() == pattern@,
            timer.scanned() == 0,
            timer.began() == start,
    {
        QueryTimer { pattern, start, docs_scanned: 0 }
    }

    /// Record the number of documents scanned (before filtering).
    pub fn set_docs_scanned(&mut self, count: u64)
        ensures
            final(self).shape() == old(self).shape(),
            final(self).began() == old(self).began(),
            final(self).scanned() == count,
    {
        self.docs_scanned = count;
    }

    /// Finish timing and produce metrics. The latency is the time since the start.
    pub fn finish(self, docs_returned: u64) -> (metrics: QueryMetrics)
        ensures
            metrics.pattern@ == self.shape(),
            is_time_since(self.began(), metrics.latency),
            metrics.docs_scanned == self.scanned(),
            metrics.docs_returned == docs_returned,
    {
        let latency: u128 = time_since(&self.start);
        self.finish_after(latency, docs_returned)
    }

    /// Produce metrics for a query that took some time.
    pub fn finish_after(self, latency: u128, docs_returned: u64) -> (metrics: QueryMetrics)
        ensures
            metrics.pattern@ == self.shape(),
            metrics.latency == latency,
            metrics.docs_scanned == self.scanned(),
            metrics.docs_returned == docs_returned,
    {
        QueryMetrics {
            pattern: self.pattern,
            latency,
            docs_scanned: self.docs_scanned,
            docs_returned,
        }
    }
}

/// Whether a condition reads a field.
pub open spec fn mentions(c: Condition, name: Seq<char>) -> bool
    decreases c,
{
    match c {
        Condition::Eq { field, .. } => field == name,
        Condition::Gt { field, .. } => field == name,
        Condition::Lt { field, .. } => field == name,
        Condition::Range { field, .. } => field == name,
        Condition::Exists { field } => field == name,
        Condition::And(parts) => exists|i: int|
            0 <= i < parts.len() && mentions(#[trigger] parts[i], name),
        Condition::Or(parts) => exists|i: int|
            0 <= i < parts.len() && mentions(#[trigger] parts[i], name),
        Condition::Not(part) => mentions(*part, name),
    }
}

/// Whether names rise strictly.
pub open spec fn names_rise(names: Seq<Seq<char>>) -> bool {
    forall|i: int, j: int|
        0 <= i < j < names.len() ==> name_lt(#[trigger] names[i], #[trigger] names[j])
}

/// Adds a name to sorted names, if it is not there.
fn add_name(names: &mut Vec<String>, name: &String)
    requires
        names_rise(texts(old(names)@)),
    ensures
        names_rise(texts(final(names)@)),
        forall|n: Seq<char>| #[trigger]
            texts(final(names)@).contains(n) <==> texts(old(names)@).contains(n) || n == name@,
{
    let ghost before = texts(names@);
    let len: usize = names.len();
    let mut at: usize = 0;
    while at < len && name_before(names[at].as_str(), name.as_str())
        invariant
            len == names@.len(),
            before == texts(names@),
            at <= len,
            forall|i: int| 0 <= i < at ==> name_lt(#[trigger] before[i], name@),
        decreases len - at,
    {
        assert(before[at as int] == names@[at as int]@);
        at += 1;
    }
    if at < len {
        assert(before[at as int] == names@[at as int]@);
        proof {
            lemma_name_order(before[at as int], name@, name@);
        }
        if !name_before(name.as_str(), names[at].as_str()) {
            return;
        }
    }
    names.insert(at, name.clone());
    proof {
        let after = texts(names@);
        assert(after =~= before.insert(at as int, name@));
        assert forall|i: int, j: int| 0 <= i < j < after.len() implies name_lt(
            #[trigger] after[i],
            #[trigger] after[j],
        ) by {
            let i0 = if i < at { i } else { i - 1 };
            let j0 = if j < at { j } else { j - 1 };
            if i != at && j != at {
                assert(name_lt(before[i0], before[j0]));
            } else if i == at && at < j0 {
                assert(name_lt(before[at as int], before[j0]));
                lemma_name_order(name@, before[at as int], before[j0]);
            }
        }
        assert forall|n: Seq<char>| #[trigger]
            after.contains(n) <==> before.contains(n) || n == name@ by {
            if before.contains(n) {
                let i = choose|i: int| 0 <= i < before.len() && before[i] == n;
                assert(after[if i < at { i } else { i + 1 }] == n);
            }
            if after.contains(n) && n != name@ {
                let i = choose|i: int| 0 <= i < after.len() && after[i] == n;
                assert(before[if i < at { i } else { i - 1 }] == n);
            }
            assert(after[at as int] == name@);
        }
    }
}

/// Adds the field names of a filter to sorted names.
fn collect_filter_fields(filter: &Filter, names: &mut Vec<String>)
    requires
        names_rise(texts(old(names)@)),
    ensures
        names_rise(texts(final(names)@)),
        forall|n: Seq<char>| #[trigger]
            texts(final(names)@).contains(n) <==> texts(old(names)@).contains(n) || mentions(
                filter@,
                n,
            ),
    decreases filter,
{
    match filter {
        Filter::Eq { field, .. } => add_name(names, field),
        Filter::Gt { field, .. } => add_name(names, field),
        Filter::Lt { field, .. } => add_name(names, field),
        Filter::Range { field, .. } => add_name(names, field),
        Filter::Exists { field } => add_name(names, field),
        Filter::And(parts) => {
            proof {
                crate::query::lemma_and_view(*parts);
            }
            let len: usize = parts.len();
            let mut i: usize = 0;
            while i < len
                invariant
                    len == parts@.len(),
                    i <= len,
                    *filter == Filter::And(*parts),
                    names_rise(texts(names@)),
                    forall|n: Seq<char>| #[trigger]
                        texts(names@).contains(n) <==> texts(old(names)@).contains(n)
                            || mentioned_before(part_views(parts@), n, i as int),
                decreases len - i,
            {
                let part = &parts[i];
                assert(decreases_to!(*filter => filter->And_0));
                collect_filter_fields(part, names);
                proof {
                    lemma_mentioned_before(part_views(parts@), i as int);
                }
                i += 1;
            }
            assert forall|n: Seq<char>|
                mentioned_before(part_views(parts@), n, len as int) <==> #[trigger] mentions(
                    filter@,
                    n,
                ) by {
                let conditions = filter@->And_0;
                assert(conditions == part_views(parts@));
            }
        },
        Filter::Or(parts) => {
            proof {
                crate::query::lemma_and_view(*parts);
            }
            let len: usize = parts.len();
            let mut i: usize = 0;
            while i < len
                invariant
                    len == parts@.len(),
                    i <= len,
                    *filter == Filter::Or(*parts),
                    names_rise(texts(names@)),
                    forall|n: Seq<char>| #[trigger]
                        texts(names@).contains(n) <==> texts(old(names)@).contains(n)
                            || mentioned_before(part_views(parts@), n, i as int),
                decreases len - i,
            {
                let part = &parts[i];
                assert(decreases_to!(*filter => filter->Or_0));
                collect_filter_fields(part, names);
                proof {
                    lemma_mentioned_before(part_views(parts@), i as int);
                }
                i += 1;
            }
            assert forall|n: Seq<char>|
                mentioned_before(part_views(parts@), n, len as int) <==> #[trigger] mentions(
                    filter@,
                    n,
                ) by {
                let conditions = filter@->Or_0;
                assert(conditions == part_views(parts@));
            }
        },
        Filter::Not(part) => collect_filter_fields(part, names),
    }
}

/// Whether one of the first conditions reads a field.
spec fn mentioned_before(parts: Seq<Condition>, name: Seq<char>, n: int) -> bool {
    exists|i: int| 0 <= i < n && mentions(#[trigger] parts[i], name)
}

proof fn lemma_mentioned_before(parts: Seq<Condition>, n: int)
    requires
        0 <= n < parts.len(),
    ensures
        forall|name: Seq<char>| #[trigger]
            mentioned_before(parts, name, n + 1) <==> mentioned_before(parts, name, n) || mentions(
                parts[n],
                name,
            ),
{
}

/// Extract filter field names from a Filter tree: each once, in the order of their bytes.
pub fn extract_filter_fields(filter: &Filter) -> (fields: Vec<String>)
    ensures
        names_rise(texts(fields@)),
        forall|n: Seq<char>| #[trigger] texts(fields@).contains(n) <==> mentions(filter@, n),
{
    let mut fields: Vec<String> = Vec::new();
    collect_filter_fields(filter, &mut fields);
    fields
}

} // verus!
