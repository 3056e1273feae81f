//! Stable sorting by byte-string rank.

use crate::bytes::{be, lemma_lex_strict, lemma_lex_total, lemma_lex_transitive, lex_lt};
use vstd::prelude::*;

verus! {

/// A key that sorts by the byte string it ranks as.
pub trait SortKey {
    /// The byte string by which this key sorts.
    spec fn rank(&self) -> Seq<u8>;

    /// Whether this key sorts before `other`.
    fn sorts_before(&self, other: &Self) -> (r: bool)
        ensures
            r == lex_lt(self.rank(), other.rank()),
    ;
}

/// The ranks of some keys.
pub open spec fn ranks<K: SortKey>(keys: Seq<K>) -> Seq<Seq<u8>> {
    Seq::new(keys.len(), |i: int| keys[i].rank())
}

/// Whether position `i` comes before position `j`: by rank, then by position.
pub open spec fn comes_before(ranks: Seq<Seq<u8>>, i: int, j: int) -> bool {
    lex_lt(ranks[i], ranks[j]) || (ranks[i] == ranks[j] && i < j)
}

/// Whether every position before `j` in `order` comes before the one at `j`.
pub open spec fn in_order(ranks: Seq<Seq<u8>>, order: Seq<int>) -> bool {
    forall|i: int, j: int|
        0 <= i < j < order.len() ==> comes_before(ranks, #[trigger] order[i], #[trigger] order[j])
}

/// Whether `order` lists the positions of `ranks` from the lowest rank to the highest,
/// equal ranks in their original order.
pub open spec fn is_stable_order(ranks: Seq<Seq<u8>>, order: Seq<int>) -> bool {
    &&& order.len() == ranks.len()
    &&& forall|i: int| 0 <= i < order.len() ==> 0 <= #[trigger] order[i] < ranks.len()
    &&& forall|k: int| 0 <= k < ranks.len() ==> #[trigger] order.contains(k)
    &&& in_order(ranks, order)
}

/// The positions of `ranks` from the lowest rank to the highest, equal ranks in
/// their original order.
pub open spec fn stable_order(ranks: Seq<Seq<u8>>) -> Seq<int> {
    choose|order: Seq<int>| is_stable_order(ranks, order)
}

/// The elements of `items`, sorted by rank, equal ranks in their original order.
pub open spec fn sorted_by_rank<T>(items: Seq<T>, ranks: Seq<Seq<u8>>) -> Seq<T> {
    let order = stable_order(ranks);
    Seq::new(order.len(), |i: int| items[order[i]])
}

proof fn lemma_comes_before(ranks: Seq<Seq<u8>>, i: int, j: int, k: int)
    ensures
        !comes_before(ranks, i, i),
        comes_before(ranks, i, j) ==> !comes_before(ranks, j, i),
        comes_before(ranks, i, j) && comes_before(ranks, j, k) ==> comes_before(ranks, i, k),
        i != j ==> comes_before(ranks, i, j) || comes_before(ranks, j, i),
{
    lemma_lex_strict(ranks[i], ranks[j]);
    lemma_lex_strict(ranks[j], ranks[k]);
    lemma_lex_total(ranks[i], ranks[j]);
    lemma_lex_transitive(ranks[i], ranks[j], ranks[k]);
}

/// There is at most one stable order.
pub proof fn lemma_stable_order_unique(ranks: Seq<Seq<u8>>, p: Seq<int>, q: Seq<int>)
    requires
        is_stable_order(ranks, p),
        is_stable_order(ranks, q),
    ensures
        p == q,
{
    assert forall|i: int| 0 <= i < p.len() implies p[i] == q[i] by {
        lemma_stable_order_agrees(ranks, p, q, i);
    }
    assert(p =~= q);
}

proof fn lemma_stable_order_agrees(ranks: Seq<Seq<u8>>, p: Seq<int>, q: Seq<int>, i: int)
    requires
        is_stable_order(ranks, p),
        is_stable_order(ranks, q),
        0 <= i < p.len(),
    ensures
        p[i] == q[i],
    decreases i,
{
    assert forall|m: int| 0 <= m < i implies p[m] == q[m] by {
        lemma_stable_order_agrees(ranks, p, q, m);
    }
    if p[i] != q[i] {
        assert(q.contains(p[i]));
        let j = choose|j: int| 0 <= j < q.len() && q[j] == p[i];
        if j < i {
            assert(comes_before(ranks, p[j], p[i]));
            lemma_comes_before(ranks, p[i], p[i], p[i]);
        }
        assert(p.contains(q[i]));
        let k = choose|k: int| 0 <= k < p.len() && p[k] == q[i];
        if k < i {
            assert(comes_before(ranks, q[k], q[i]));
            lemma_comes_before(ranks, q[i], q[i], q[i]);
        }
        assert(comes_before(ranks, q[i], q[j]));
        assert(comes_before(ranks, p[i], p[k]));
        lemma_comes_before(ranks, p[i], q[i], p[i]);
    }
}

/// Where the last position goes in an order of the earlier ones.
spec fn slot(ranks: Seq<Seq<u8>>, order: Seq<int>, new: int) -> int
    decreases order.len(),
{
    if order.len() == 0 {
        0
    } else if comes_before(ranks, order.last(), new) {
        order.len() as int
    } else {
        slot(ranks, order.drop_last(), new)
    }
}

proof fn lemma_slot(ranks: Seq<Seq<u8>>, order: Seq<int>, new: int)
    requires
        in_order(ranks, order),
        forall|i: int| 0 <= i < order.len() ==> #[trigger] order[i] != new,
    ensures
        0 <= slot(ranks, order, new) <= order.len(),
        forall|i: int|
            0 <= i < slot(ranks, order, new) ==> comes_before(ranks, #[trigger] order[i], new),
        forall|i: int|
            slot(ranks, order, new) <= i < order.len() ==> comes_before(
                ranks,
                new,
                #[trigger] order[i],
            ),
    decreases order.len(),
{
    if order.len() > 0 {
        let last = order.last();
        lemma_comes_before(ranks, last, new, last);
        if comes_before(ranks, last, new) {
            assert forall|i: int| 0 <= i < order.len() implies comes_before(
                ranks,
                #[trigger] order[i],
                new,
            ) by {
                lemma_comes_before(ranks, order[i], last, new);
            }
        } else {
            let init = order.drop_last();
            lemma_slot(ranks, init, new);
            assert forall|i: int|
                slot(ranks, order, new) <= i < order.len() implies comes_before(
                ranks,
                new,
                #[trigger] order[i],
            ) by {
                if i < init.len() {
                    assert(order[i] == init[i]);
                }
            }
            assert forall|i: int| 0 <= i < slot(ranks, order, new) implies comes_before(
                ranks,
                #[trigger] order[i],
                new,
            ) by {
                assert(order[i] == init[i]);
            }
        }
    }
}

proof fn lemma_stable_order_exists(ranks: Seq<Seq<u8>>) -> (order: Seq<int>)
    ensures
        is_stable_order(ranks, order),
    decreases ranks.len(),
{
    if ranks.len() == 0 {
        Seq::empty()
    } else {
        let shorter = ranks.drop_last();
        let init = lemma_stable_order_exists(shorter);
        let new = ranks.len() - 1;
        assert forall|i: int, j: int| 0 <= i < j < init.len() implies comes_before(
            ranks,
            #[trigger] init[i],
            #[trigger] init[j],
        ) by {
            assert(comes_before(shorter, init[i], init[j]));
        }
        lemma_slot(ranks, init, new);
        let at = slot(ranks, init, new);
        let order = init.insert(at, new);
        assert forall|k: int| 0 <= k < ranks.len() implies #[trigger] order.contains(k) by {
            if k == new {
                assert(order[at] == k);
            } else {
                assert(init.contains(k));
                let i = choose|i: int| 0 <= i < init.len() && init[i] == k;
                assert(order[if i < at { i } else { i + 1 }] == k);
            }
        }
        order
    }
}

/// The stable order is one.
pub proof fn lemma_stable_order(ranks: Seq<Seq<u8>>)
    ensures
        is_stable_order(ranks, stable_order(ranks)),
{
    let order = lemma_stable_order_exists(ranks);
    assert(is_stable_order(ranks, order));
}

/// Sorting moves every item to one place and loses none: the items come in the order of their
/// ranks, and items of one rank in the order in which they stood.
pub proof fn law_sort_is_stable<T>(items: Seq<T>, ranks: Seq<Seq<u8>>) -> (order: Seq<int>)
    requires
        items.len() == ranks.len(),
    ensures
        order.len() == items.len(),
        order.no_duplicates(),
        forall|k: int| 0 <= k < items.len() ==> #[trigger] order.contains(k),
        forall|i: int| 0 <= i < order.len() ==> 0 <= #[trigger] order[i] < items.len(),
        sorted_by_rank(items, ranks).len() == items.len(),
        forall|i: int|
            0 <= i < order.len() ==> #[trigger] sorted_by_rank(items, ranks)[i] == items[order[i]],
        forall|i: int, j: int|
            0 <= i < j < order.len() ==> lex_lt(
                ranks[#[trigger] order[i]],
                ranks[#[trigger] order[j]],
            ) || (ranks[order[i]] == ranks[order[j]] && order[i] < order[j]),
{
    let order = stable_order(ranks);
    lemma_stable_order(ranks);
    assert forall|i: int, j: int| 0 <= i < j < order.len() implies order[i] != order[j] by {
        assert(comes_before(ranks, order[i], order[j]));
        lemma_comes_before(ranks, order[i], order[i], order[i]);
    }
    assert forall|i: int, j: int| 0 <= i < j < order.len() implies lex_lt(
        ranks[#[trigger] order[i]],
        ranks[#[trigger] order[j]],
    ) || (ranks[order[i]] == ranks[order[j]] && order[i] < order[j]) by {
        assert(comes_before(ranks, order[i], order[j]));
    }
    order
}

/// Machine indices as mathematical ones.
pub open spec fn positions(order: Seq<usize>) -> Seq<int> {
    Seq::new(order.len(), |i: int| order[i] as int)
}

/// Whether `order` lists the positions from `lo` up to `hi` in order.
spec fn orders_range(ranks: Seq<Seq<u8>>, order: Seq<int>, lo: int, hi: int) -> bool {
    &&& order.len() == hi - lo
    &&& forall|i: int| 0 <= i < order.len() ==> lo <= #[trigger] order[i] < hi
    &&& forall|k: int| lo <= k < hi ==> #[trigger] order.contains(k)
    &&& in_order(ranks, order)
}

fn merge<K: SortKey>(
    keys: &Vec<K>,
    left: &Vec<usize>,
    right: &Vec<usize>,
    Ghost(lo): Ghost<int>,
    Ghost(mid): Ghost<int>,
    Ghost(hi): Ghost<int>,
) -> (out: Vec<usize>)
    requires
        0 <= lo <= mid <= hi <= keys@.len(),
        orders_range(ranks(keys@), positions(left@), lo, mid),
        orders_range(ranks(keys@), positions(right@), mid, hi),
    ensures
        orders_range(ranks(keys@), positions(out@), lo, hi),
{
    let ghost rs = ranks(keys@);
    let ghost l = positions(left@);
    let ghost r = positions(right@);
    let nl: usize = left.len();
    let nr: usize = right.len();
    let mut i: usize = 0;
    let mut j: usize = 0;
    let mut out: Vec<usize> = Vec::new();
    while i < nl || j < nr
        invariant
            nl == left@.len(),
            nr == right@.len(),
            rs == ranks(keys@),
            l == positions(left@),
            r == positions(right@),
            0 <= lo <= mid <= hi <= keys@.len(),
            orders_range(rs, l, lo, mid),
            orders_range(rs, r, mid, hi),
            i <= nl,
            j <= nr,
            out@.len() == i + j,
            forall|m: int| 0 <= m < out@.len() ==> lo <= #[trigger] positions(out@)[m] < hi,
            in_order(rs, positions(out@)),
            forall|m: int, k: int|
                0 <= m < out@.len() && i <= k < nl ==> comes_before(
                    rs,
                    #[trigger] positions(out@)[m],
                    #[trigger] l[k],
                ),
            forall|m: int, k: int|
                0 <= m < out@.len() && j <= k < nr ==> comes_before(
                    rs,
                    #[trigger] positions(out@)[m],
                    #[trigger] r[k],
                ),
            forall|k: int| 0 <= k < i ==> positions(out@).contains(#[trigger] l[k]),
            forall|k: int| 0 <= k < j ==> positions(out@).contains(#[trigger] r[k]),
        decreases nl - i + nr - j,
    {
        let ghost before = positions(out@);
        let take_left: bool = if i >= nl {
            false
        } else if j >= nr {
            true
        } else {
            proof {
                assert(l[i as int] < mid <= r[j as int]);
                lemma_lex_total(rs[l[i as int]], rs[r[j as int]]);
            }
            !keys[right[j]].sorts_before(&keys[left[i]])
        };
        let next: usize = if take_left {
            left[i]
        } else {
            right[j]
        };
        out.push(next);
        let ghost after = positions(out@);
        proof {
            assert(after =~= before.push(next as int));
            if take_left && j < nr {
                assert(comes_before(rs, next as int, r[j as int]));
                assert forall|k: int| j <= k < nr implies comes_before(
                    rs,
                    next as int,
                    #[trigger] r[k],
                ) by {
                    if k > j {
                        assert(comes_before(rs, r[j as int], r[k]));
                        lemma_comes_before(rs, next as int, r[j as int], r[k]);
                    }
                }
            }
            if !take_left && i < nl {
                assert(comes_before(rs, next as int, l[i as int]));
                assert forall|k: int| i <= k < nl implies comes_before(
                    rs,
                    next as int,
                    #[trigger] l[k],
                ) by {
                    if k > i {
                        assert(comes_before(rs, l[i as int], l[k]));
                        lemma_comes_before(rs, next as int, l[i as int], l[k]);
                    }
                }
            }
            assert(after[before.len() as int] == next);
            assert forall|x: int| before.contains(x) implies after.contains(x) by {
                let m = choose|m: int| 0 <= m < before.len() && before[m] == x;
                assert(after[m] == x);
            }
        }
        if take_left {
            i += 1;
        } else {
            j += 1;
        }
    }
    proof {
        let p = positions(out@);
        assert forall|k: int| lo <= k < hi implies #[trigger] p.contains(k) by {
            if k < mid {
                assert(l.contains(k));
            } else {
                assert(r.contains(k));
            }
        }
    }
    out
}

fn sort_between<K: SortKey>(keys: &Vec<K>, lo: usize, hi: usize) -> (out: Vec<usize>)
    requires
        lo <= hi <= keys@.len(),
    ensures
        orders_range(ranks(keys@), positions(out@), lo as int, hi as int),
    decreases hi - lo,
{
    if hi - lo == 0 {
        Vec::new()
    } else if hi - lo == 1 {
        let mut out: Vec<usize> = Vec::new();
        out.push(lo);
        assert(positions(out@)[0] == lo);
        out
    } else {
        let mid: usize = lo + (hi - lo) / 2;
        let left = sort_between(keys, lo, mid);
        let right = sort_between(keys, mid, hi);
        merge(keys, &left, &right, Ghost(lo as int), Ghost(mid as int), Ghost(hi as int))
    }
}

/// The positions of `keys` in sorted order, equal keys in their original order.
pub fn sort_order<K: SortKey>(keys: &Vec<K>) -> (order: Vec<usize>)
    ensures
        positions(order@) == stable_order(ranks(keys@)),
        is_stable_order(ranks(keys@), positions(order@)),
{
    let order = sort_between(keys, 0, keys.len());
    proof {
        lemma_stable_order(ranks(keys@));
        lemma_stable_order_unique(ranks(keys@), positions(order@), stable_order(ranks(keys@)));
    }
    order
}

impl SortKey for Vec<u8> {
    open spec fn rank(&self) -> Seq<u8> {
        self@
    }

    fn sorts_before(&self, other: &Self) -> (r: bool) {
        crate::bytes::bytes_lt(self.as_slice(), other.as_slice())
    }
}

/// Numbers rank by their big-endian bytes.
impl SortKey for u64 {
    open spec fn rank(&self) -> Seq<u8> {
        be(*self as nat, 8)
    }

    fn sorts_before(&self, other: &Self) -> (r: bool) {
        proof {
            crate::bytes::lemma_pow256_values();
            crate::bytes::lemma_be_order(*self as nat, *other as nat, 8);
        }
        *self < *other
    }
}

} // verus!
