//! Byte-level building blocks: fixed-width integers, byte order and copying.

use vstd::prelude::*;

verus! {

/// `256` to the power `n`.
pub open spec fn pow256(n: nat) -> nat
    decreases n,
{
    if n == 0 {
        1
    } else {
        256 * pow256((n - 1) as nat)
    }
}

/// The low `n` bytes of `x`, least significant byte first.
pub open spec fn le(x: nat, n: nat) -> Seq<u8>
    decreases n,
{
    if n == 0 {
        seq![]
    } else {
        seq![(x % 256) as u8] + le(x / 256, (n - 1) as nat)
    }
}

/// The number whose bytes, least significant first, are `s`.
pub open spec fn from_le(s: Seq<u8>) -> nat
    decreases s.len(),
{
    if s.len() == 0 {
        0
    } else {
        s[0] as nat + 256 * from_le(s.drop_first())
    }
}

/// The low `n` bytes of `x`, most significant byte first.
pub open spec fn be(x: nat, n: nat) -> Seq<u8>
    decreases n,
{
    if n == 0 {
        seq![]
    } else {
        be(x / 256, (n - 1) as nat).push((x % 256) as u8)
    }
}

/// Lexicographic `a < b` on bytes.
pub open spec fn lex_lt(a: Seq<u8>, b: Seq<u8>) -> bool
    decreases a.len(),
{
    if b.len() == 0 {
        false
    } else if a.len() == 0 {
        true
    } else if a[0] != b[0] {
        a[0] < b[0]
    } else {
        lex_lt(a.drop_first(), b.drop_first())
    }
}

/// Lexicographic `a <= b` on bytes.
pub open spec fn lex_le(a: Seq<u8>, b: Seq<u8>) -> bool {
    !lex_lt(b, a)
}

/// A sum that stops at the largest `usize`.
pub open spec fn clamped(n: int) -> nat {
    if n > usize::MAX {
        usize::MAX as nat
    } else {
        n as nat
    }
}

pub proof fn lemma_le_len(x: nat, n: nat)
    ensures
        le(x, n).len() == n,
    decreases n,
{
    if n > 0 {
        lemma_le_len(x / 256, (n - 1) as nat);
    }
}

pub proof fn lemma_pow256_positive(n: nat)
    ensures
        pow256(n) >= 1,
    decreases n,
{
    if n > 0 {
        lemma_pow256_positive((n - 1) as nat);
    }
}

/// Reading back a fixed-width integer gives the integer that was written, if it fits.
pub proof fn lemma_from_le_of_le(x: nat, n: nat)
    requires
        x < pow256(n),
    ensures
        from_le(le(x, n)) == x,
    decreases n,
{
    if n > 0 {
        assert(x / 256 < pow256((n - 1) as nat)) by (nonlinear_arith)
            requires
                x < 256 * pow256((n - 1) as nat),
        ;
        lemma_from_le_of_le(x / 256, (n - 1) as nat);
        let s = le(x, n);
        assert(s.drop_first() =~= le(x / 256, (n - 1) as nat));
        assert(s[0] as nat == x % 256);
    }
}

pub proof fn lemma_from_le_bound(s: Seq<u8>)
    ensures
        from_le(s) < pow256(s.len()),
    decreases s.len(),
{
    if s.len() > 0 {
        lemma_from_le_bound(s.drop_first());
    }
}

pub proof fn lemma_pow256_values()
    ensures
        pow256(0) == 1,
        pow256(1) == 256,
        pow256(2) == 0x1_0000,
        pow256(4) == 0x1_0000_0000,
        pow256(8) == 0x1_0000_0000_0000_0000,
{
    reveal_with_fuel(pow256, 9);
}

/// Appends `data` to `buf`.
pub fn put_slice(buf: &mut Vec<u8>, data: &[u8])
    ensures
        final(buf)@ == old(buf)@ + data@,
{
    buf.extend_from_slice(data);
    assert(buf@ =~= old(buf)@ + data@);
}

/// Appends the low `n` bytes of `x`, least significant byte first.
pub fn put_le(buf: &mut Vec<u8>, x: u64, n: usize)
    ensures
        final(buf)@ == old(buf)@ + le(x as nat, n as nat),
{
    let mut rest: u64 = x;
    let mut i: usize = 0;
    while i < n
        invariant
            i <= n,
            buf@ + le(rest as nat, (n - i) as nat) == old(buf)@ + le(x as nat, n as nat),
        decreases n - i,
    {
        let ghost before = buf@;
        let ghost tail = le((rest / 256) as nat, (n - i - 1) as nat);
        buf.push((rest % 256) as u8);
        assert(buf@ + tail =~= before + le(rest as nat, (n - i) as nat));
        rest = rest / 256;
        i += 1;
    }
    assert(buf@ =~= buf@ + le(rest as nat, 0));
}

/// Reads the `n` bytes at `pos` as an integer, least significant byte first.
pub fn get_le(buf: &[u8], pos: usize, n: usize) -> (x: u64)
    requires
        pos + n <= buf@.len(),
        n <= 8,
    ensures
        x == from_le(buf@.subrange(pos as int, pos + n)),
        x < pow256(n as nat),
{
    let ghost all = buf@.subrange(pos as int, pos + n);
    let total: usize = buf.len();
    let mut x: u64 = 0;
    let mut i: usize = n;
    proof {
        lemma_pow256_values();
    }
    while i > 0
        invariant
            total == buf@.len(),
            i <= n <= 8,
            pos + n <= buf@.len(),
            all == buf@.subrange(pos as int, pos + n),
            x == from_le(all.skip(i as int)),
            x < pow256((n - i) as nat),
        decreases i,
    {
        i -= 1;
        proof {
            lemma_pow256_values();
            reveal_with_fuel(pow256, 9);
            assert(all.skip(i as int).drop_first() =~= all.skip(i + 1));
            assert(all.skip(i as int)[0] == buf@[pos + i]);
            assert(pow256((n - i) as nat) == 256 * pow256((n - i - 1) as nat));
            assert(pow256((n - i) as nat) <= pow256(8));
        }
        x = x * 256 + buf[pos + i] as u64;
    }
    assert(all.skip(0) =~= all);
    x
}

/// The byte order is total.
pub proof fn lemma_lex_total(a: Seq<u8>, b: Seq<u8>)
    ensures
        lex_lt(a, b) || lex_lt(b, a) || a == b,
    decreases a.len(),
{
    if a.len() > 0 && b.len() > 0 && a[0] == b[0] {
        lemma_lex_total(a.drop_first(), b.drop_first());
        if a.drop_first() == b.drop_first() {
            assert(a =~= seq![a[0]] + a.drop_first());
            assert(b =~= seq![b[0]] + b.drop_first());
        }
    } else if a.len() == 0 && b.len() == 0 {
        assert(a =~= b);
    }
}

/// The byte order is strict.
pub proof fn lemma_lex_strict(a: Seq<u8>, b: Seq<u8>)
    ensures
        !lex_lt(a, a),
        lex_lt(a, b) ==> !lex_lt(b, a),
    decreases a.len(),
{
    if a.len() > 0 {
        lemma_lex_strict(a.drop_first(), a.drop_first());
        if b.len() > 0 {
            lemma_lex_strict(a.drop_first(), b.drop_first());
        }
    }
}

/// The byte order is transitive.
pub proof fn lemma_lex_transitive(a: Seq<u8>, b: Seq<u8>, c: Seq<u8>)
    ensures
        lex_lt(a, b) && lex_lt(b, c) ==> lex_lt(a, c),
        lex_le(a, b) && lex_lt(b, c) ==> lex_lt(a, c),
        lex_lt(a, b) && lex_le(b, c) ==> lex_lt(a, c),
        lex_le(a, b) && lex_le(b, c) ==> lex_le(a, c),
    decreases a.len(),
{
    lemma_lex_total(a, b);
    lemma_lex_total(b, c);
    lemma_lex_strict(a, b);
    lemma_lex_strict(b, c);
    lemma_lex_strict(a, c);
    if a.len() > 0 && b.len() > 0 && c.len() > 0 {
        lemma_lex_transitive(a.drop_first(), b.drop_first(), c.drop_first());
    }
}

/// Whether `a` comes before `b` in byte order.
pub fn bytes_lt(a: &[u8], b: &[u8]) -> (r: bool)
    ensures
        r == lex_lt(a@, b@),
{
    let na: usize = a.len();
    let nb: usize = b.len();
    let mut i: usize = 0;
    assert(a@.skip(0) =~= a@ && b@.skip(0) =~= b@);
    while i < na && i < nb
        invariant
            na == a@.len(),
            nb == b@.len(),
            i <= na,
            i <= nb,
            lex_lt(a@, b@) == lex_lt(a@.skip(i as int), b@.skip(i as int)),
        decreases na - i,
    {
        assert(a@.skip(i as int).drop_first() =~= a@.skip(i + 1));
        assert(b@.skip(i as int).drop_first() =~= b@.skip(i + 1));
        if a[i] != b[i] {
            return a[i] < b[i];
        }
        i += 1;
    }
    i < nb
}

/// Whether `a` and `b` hold the same bytes.
pub fn bytes_eq(a: &[u8], b: &[u8]) -> (r: bool)
    ensures
        r == (a@ == b@),
{
    if a.len() != b.len() {
        return false;
    }
    let n: usize = a.len();
    let mut i: usize = 0;
    while i < n
        invariant
            n == a@.len(),
            n == b@.len(),
            i <= n,
            forall|j: int| 0 <= j < i ==> a@[j] == b@[j],
        decreases n - i,
    {
        if a[i] != b[i] {
            return false;
        }
        i += 1;
    }
    assert(a@ =~= b@);
    true
}

/// The bytes of `buf` from `start` up to `end`.
pub fn copy_range(buf: &[u8], start: usize, end: usize) -> (r: Vec<u8>)
    requires
        start <= end <= buf@.len(),
    ensures
        r@ == buf@.subrange(start as int, end as int),
{
    vstd::slice::slice_to_vec(vstd::slice::slice_subrange(buf, start, end))
}

pub proof fn lemma_be_len(x: nat, n: nat)
    ensures
        be(x, n).len() == n,
    decreases n,
{
    if n > 0 {
        lemma_be_len(x / 256, (n - 1) as nat);
    }
}

/// Of two byte strings of one length, the last byte decides only where the rest is equal.
proof fn lemma_lex_push(a: Seq<u8>, b: Seq<u8>, x: u8, y: u8)
    requires
        a.len() == b.len(),
    ensures
        lex_lt(a.push(x), b.push(y)) <==> lex_lt(a, b) || (a == b && x < y),
    decreases a.len(),
{
    let a1 = a.push(x);
    let b1 = b.push(y);
    if a.len() == 0 {
        assert(a =~= b);
        reveal_with_fuel(lex_lt, 2);
    } else {
        assert(a1.drop_first() =~= a.drop_first().push(x));
        assert(b1.drop_first() =~= b.drop_first().push(y));
        lemma_lex_push(a.drop_first(), b.drop_first(), x, y);
        if a[0] == b[0] && a.drop_first() == b.drop_first() {
            assert(a =~= seq![a[0]] + a.drop_first());
            assert(b =~= seq![b[0]] + b.drop_first());
        }
        if a == b {
            lemma_lex_strict(a, b);
        }
    }
}

/// Big-endian bytes of one width sort as the numbers do, and differ where the numbers do.
pub proof fn lemma_be_order(x: nat, y: nat, n: nat)
    requires
        x < pow256(n),
        y < pow256(n),
    ensures
        lex_lt(be(x, n), be(y, n)) <==> x < y,
        be(x, n) == be(y, n) <==> x == y,
    decreases n,
{
    if n > 0 {
        let m = (n - 1) as nat;
        assert(x / 256 < pow256(m) && y / 256 < pow256(m)) by (nonlinear_arith)
            requires
                x < 256 * pow256(m),
                y < 256 * pow256(m),
        ;
        lemma_be_order(x / 256, y / 256, m);
        lemma_be_len(x / 256, m);
        lemma_be_len(y / 256, m);
        let bx = (x % 256) as u8;
        let by = (y % 256) as u8;
        lemma_lex_push(be(x / 256, m), be(y / 256, m), bx, by);
        if be(x, n) == be(y, n) {
            assert(be(x, n).drop_last() =~= be(x / 256, m));
            assert(be(y, n).drop_last() =~= be(y / 256, m));
            assert(be(x, n).last() == bx && be(y, n).last() == by);
        }
    }
}

/// Appends the 8 bytes of `x`, most significant byte first.
pub fn put_be(buf: &mut Vec<u8>, x: u64)
    ensures
        final(buf)@ == old(buf)@ + be(x as nat, 8),
{
    let ghost start = buf@;
    let x1: u64 = x / 256;
    let x2: u64 = x1 / 256;
    let x3: u64 = x2 / 256;
    let x4: u64 = x3 / 256;
    let x5: u64 = x4 / 256;
    let x6: u64 = x5 / 256;
    let x7: u64 = x6 / 256;
    proof {
        assert(be((x7 / 256) as nat, 0) =~= seq![]);
        assert(be(x7 as nat, 1) =~= seq![(x7 % 256) as u8]);
        assert(be(x6 as nat, 2) =~= be(x7 as nat, 1).push((x6 % 256) as u8));
        assert(be(x5 as nat, 3) =~= be(x6 as nat, 2).push((x5 % 256) as u8));
        assert(be(x4 as nat, 4) =~= be(x5 as nat, 3).push((x4 % 256) as u8));
        assert(be(x3 as nat, 5) =~= be(x4 as nat, 4).push((x3 % 256) as u8));
        assert(be(x2 as nat, 6) =~= be(x3 as nat, 5).push((x2 % 256) as u8));
        assert(be(x1 as nat, 7) =~= be(x2 as nat, 6).push((x1 % 256) as u8));
        assert(be(x as nat, 8) =~= be(x1 as nat, 7).push((x % 256) as u8));
    }
    buf.push((x7 % 256) as u8);
    buf.push((x6 % 256) as u8);
    buf.push((x5 % 256) as u8);
    buf.push((x4 % 256) as u8);
    buf.push((x3 % 256) as u8);
    buf.push((x2 % 256) as u8);
    buf.push((x1 % 256) as u8);
    buf.push((x % 256) as u8);
    assert(buf@ =~= start + be(x as nat, 8));
}

/// A common beginning does not decide the order.
pub proof fn lemma_lex_common_prefix(p: Seq<u8>, a: Seq<u8>, b: Seq<u8>)
    ensures
        lex_lt(p + a, p + b) <==> lex_lt(a, b),
    decreases p.len(),
{
    if p.len() == 0 {
        assert(p + a =~= a && p + b =~= b);
    } else {
        assert((p + a).drop_first() =~= p.drop_first() + a);
        assert((p + b).drop_first() =~= p.drop_first() + b);
        lemma_lex_common_prefix(p.drop_first(), a, b);
    }
}

/// A terminator of zero does not change the order.
pub proof fn lemma_lex_terminated(a: Seq<u8>, b: Seq<u8>)
    ensures
        lex_lt(a.push(0), b.push(0)) <==> lex_lt(a, b),
    decreases a.len(),
{
    let a1 = a.push(0);
    let b1 = b.push(0);
    if a.len() > 0 && b.len() > 0 {
        assert(a1.drop_first() =~= a.drop_first().push(0));
        assert(b1.drop_first() =~= b.drop_first().push(0));
        lemma_lex_terminated(a.drop_first(), b.drop_first());
    } else {
        reveal_with_fuel(lex_lt, 2);
        assert(a.len() == 0 ==> a1.drop_first().len() == 0);
        assert(b.len() == 0 ==> b1.drop_first().len() == 0);
        assert(b.len() > 0 ==> b1.drop_first().len() > 0);
    }
}

/// Whether `a` is a beginning of `b`.
pub open spec fn is_prefix(a: Seq<u8>, b: Seq<u8>) -> bool {
    a.len() <= b.len() && b.take(a.len() as int) == a
}

/// Where neither of two byte strings begins the other, what follows them does not matter.
pub proof fn lemma_lex_dominates(a: Seq<u8>, b: Seq<u8>, x: Seq<u8>, y: Seq<u8>)
    requires
        !is_prefix(a, b),
    ensures
        lex_lt(a, b) ==> lex_lt(a + x, b + y),
    decreases a.len(),
{
    if a.len() == 0 {
        assert(b.take(0) =~= a);
    } else if b.len() > 0 && a[0] == b[0] {
        let a1 = a.drop_first();
        let b1 = b.drop_first();
        if is_prefix(a1, b1) {
            assert(b.take(a.len() as int) =~= seq![b[0]] + b1.take(a1.len() as int));
            assert(a =~= seq![a[0]] + a1);
        }
        assert((a + x).drop_first() =~= a1 + x);
        assert((b + y).drop_first() =~= b1 + y);
        lemma_lex_dominates(a1, b1, x, y);
    }
}

/// A carry out of the top byte is lost.
pub proof fn lemma_le_carry(x: nat, n: nat)
    ensures
        le(x + pow256(n), n) == le(x, n),
    decreases n,
{
    if n > 0 {
        let p = pow256((n - 1) as nat);
        lemma_le_carry(x / 256, (n - 1) as nat);
        assert((x + 256 * p) % 256 == x % 256 && (x + 256 * p) / 256 == x / 256 + p)
            by (nonlinear_arith);
    }
}

/// Byte strings are ordered by the first byte in which they differ; where there is none, the
/// shorter one comes first.
pub proof fn law_byte_order(a: Seq<u8>, b: Seq<u8>)
    ensures
        lex_lt(a, b) <==> exists|k: int|
            0 <= k <= a.len() && k < b.len() && #[trigger] a.take(k) == b.take(k) && (k == a.len()
                || a[k] < b[k]),
        lex_le(a, b) <==> a == b || lex_lt(a, b),
    decreases a.len(),
{
    lemma_lex_total(a, b);
    lemma_lex_strict(a, b);
    lemma_lex_strict(b, a);
    if b.len() > 0 {
        if a.len() == 0 {
            assert(a.take(0) == b.take(0));
        } else if a[0] != b[0] {
            assert(a.take(0) == b.take(0));
            assert forall|k: int|
                0 < k <= a.len() && k < b.len() && #[trigger] a.take(k) == b.take(
                    k,
                ) implies false by {
                assert(a.take(k)[0] == b.take(k)[0]);
            }
        } else {
            let x = a.drop_first();
            let y = b.drop_first();
            law_byte_order(x, y);
            if lex_lt(a, b) {
                let k = choose|k: int|
                    0 <= k <= x.len() && k < y.len() && #[trigger] x.take(k) == y.take(k) && (k
                        == x.len() || x[k] < y[k]);
                assert(a.take(k + 1) =~= seq![a[0]] + x.take(k));
                assert(b.take(k + 1) =~= seq![b[0]] + y.take(k));
                assert(a.take(k + 1) == b.take(k + 1));
            }
            if exists|k: int|
                0 <= k <= a.len() && k < b.len() && #[trigger] a.take(k) == b.take(k) && (k
                    == a.len() || a[k] < b[k]) {
                let k = choose|k: int|
                    0 <= k <= a.len() && k < b.len() && #[trigger] a.take(k) == b.take(k) && (k
                        == a.len() || a[k] < b[k]);
                assert(x.take(k - 1) =~= a.take(k).drop_first());
                assert(y.take(k - 1) =~= b.take(k).drop_first());
                assert(x.take(k - 1) == y.take(k - 1));
            }
        }
    }
}

/// The bytes of a number, least significant first: the byte at each place is the digit of that
/// place to the base 256, and together they give back the number.
pub proof fn law_le_digits(x: nat, n: nat, i: int)
    requires
        0 <= i < n,
    ensures
        le(x, n).len() == n,
        le(x, n)[i] as nat == (x / pow256(i as nat)) % 256,
        x < pow256(n) ==> from_le(le(x, n)) == x,
    decreases n,
{
    lemma_le_len(x, n);
    if x < pow256(n) {
        lemma_from_le_of_le(x, n);
    }
    lemma_le_len(x / 256, (n - 1) as nat);
    if i > 0 {
        law_le_digits(x / 256, (n - 1) as nat, i - 1);
        let p = pow256((i - 1) as nat);
        lemma_pow256_positive((i - 1) as nat);
        vstd::arithmetic::div_mod::lemma_div_denominator(x as int, 256, p as int);
        assert(pow256(i as nat) == 256 * p);
        assert(le(x, n)[i] == le(x / 256, (n - 1) as nat)[i - 1]);
        assert((x / 256) / p == x / (256 * p));
    } else {
        let one = pow256(0);
        assert(x / one == x) by (nonlinear_arith)
            requires
                one == 1,
        ;
    }
}

} // verus!
