//! Natural numbers of any size.

use vstd::arithmetic::power::pow;
use vstd::prelude::*;

verus! {

/// The base in which numbers are written.
pub open spec fn base() -> int {
    0x1_0000_0000_0000_0000
}

/// The digit at a place, zero beyond the highest.
pub open spec fn digit(digits: Seq<u64>, i: int) -> int {
    if 0 <= i < digits.len() {
        digits[i] as int
    } else {
        0
    }
}

/// What the lowest `n` digits are worth.
pub open spec fn worth(digits: Seq<u64>, n: nat) -> int
    decreases n,
{
    if n == 0 {
        0
    } else {
        worth(digits, (n - 1) as nat) + digit(digits, n - 1) * pow(base(), (n - 1) as nat)
    }
}

proof fn lemma_power_step(n: nat)
    ensures
        pow(base(), 0) == 1,
        pow(base(), n + 1) == base() * pow(base(), n),
        pow(base(), n) >= 1,
    decreases n,
{
    vstd::arithmetic::power::lemma_pow0(base());
    reveal(pow);
    if n > 0 {
        lemma_power_step((n - 1) as nat);
    }
}

proof fn lemma_worth_bound(digits: Seq<u64>, n: nat)
    ensures
        0 <= worth(digits, n) < pow(base(), n),
    decreases n,
{
    lemma_power_step(n);
    if n > 0 {
        let m = (n - 1) as nat;
        lemma_worth_bound(digits, m);
        lemma_power_step(m);
        let w = pow(base(), m);
        let d = digit(digits, n - 1);
        assert(0 <= d * w && d * w + w <= base() * w) by (nonlinear_arith)
            requires
                0 <= d < base(),
                w >= 1,
        ;
    }
}

/// Digits beyond the highest are worth nothing.
proof fn lemma_worth_beyond(digits: Seq<u64>, n: nat)
    requires
        n >= digits.len(),
    ensures
        worth(digits, n) == worth(digits, digits.len()),
    decreases n,
{
    if n > digits.len() {
        lemma_worth_beyond(digits, (n - 1) as nat);
        let w = pow(base(), (n - 1) as nat);
        assert(0 * w == 0);
    }
}

/// The lowest digits do not depend on the others.
proof fn lemma_worth_same(a: Seq<u64>, b: Seq<u64>, n: nat)
    requires
        forall|i: int| 0 <= i < n ==> digit(a, i) == digit(b, i),
    ensures
        worth(a, n) == worth(b, n),
    decreases n,
{
    if n > 0 {
        lemma_worth_same(a, b, (n - 1) as nat);
        assert(digit(a, n - 1) == digit(b, n - 1));
    }
}

/// A natural number, written with its lowest digit first.
pub struct Natural {
    digits: Vec<u64>,
}

impl View for Natural {
    type V = int;

    closed spec fn view(&self) -> int {
        worth(self.digits@, self.digits@.len())
    }
}

impl Natural {
    /// A small number.
    pub fn from_u64(n: u64) -> (r: Self)
        ensures
            r@ == n,
    {
        let mut digits: Vec<u64> = Vec::new();
        digits.push(n);
        proof {
            reveal_with_fuel(worth, 2);
            lemma_power_step(0);
            assert(digit(digits@, 0) * 1 == n);
        }
        Natural { digits }
    }

    /// The digit at a place.
    fn at(&self, i: usize) -> (d: u64)
        ensures
            d == digit(self.digits@, i as int),
    {
        if i < self.digits.len() {
            self.digits[i]
        } else {
            0
        }
    }

    /// This number times a small one.
    pub fn times(&self, m: u64) -> (r: Self)
        ensures
            r@ == self@ * m,
    {
        let n: usize = self.digits.len();
        let mut digits: Vec<u64> = Vec::new();
        let mut carry: u64 = 0;
        let mut i: usize = 0;
        proof {
            lemma_power_step(0);
            assert(0 * m == 0);
        }
        while i < n
            invariant
                n == self.digits@.len(),
                i <= n,
                digits@.len() == i,
                worth(digits@, i as nat) + carry * pow(base(), i as nat) == worth(
                    self.digits@,
                    i as nat,
                ) * m,
            decreases n - i,
        {
            let d: u64 = self.digits[i];
            let ghost before = digits@;
            let ghost w = pow(base(), i as nat);
            let ghost low = worth(self.digits@, i as nat);
            assert(d * m + carry <= u128::MAX) by (nonlinear_arith)
                requires
                    0 <= d <= u64::MAX,
                    0 <= m <= u64::MAX,
                    0 <= carry <= u64::MAX,
            ;
            assert(0 <= d * m <= u128::MAX) by (nonlinear_arith)
                requires
                    0 <= d,
                    0 <= m,
                    d * m + carry <= u128::MAX,
                    0 <= carry,
            ;
            let t: u128 = d as u128 * m as u128 + carry as u128;
            assert(t / 0x1_0000_0000_0000_0000 <= u64::MAX) by (nonlinear_arith)
                requires
                    t == d * m + carry,
                    0 <= d <= u64::MAX,
                    0 <= m <= u64::MAX,
                    0 <= carry <= u64::MAX,
            ;
            let rest: u64 = (t % 0x1_0000_0000_0000_0000) as u64;
            let next: u64 = (t / 0x1_0000_0000_0000_0000) as u64;
            digits.push(rest);
            proof {
                lemma_power_step(i as nat);
                lemma_worth_same(before, digits@, i as nat);
                assert(digit(digits@, i as int) == rest);
                assert(rest * w + next * (base() * w) == (d * m + carry) * w) by (nonlinear_arith)
                    requires
                        d * m + carry == rest + next * base(),
                ;
                assert((d * m + carry) * w == (d * w) * m + carry * w) by (nonlinear_arith);
                assert((low + d * w) * m == low * m + (d * w) * m) by (nonlinear_arith);
            }
            carry = next;
            i += 1;
        }
        let ghost before = digits@;
        digits.push(carry);
        proof {
            lemma_worth_same(before, digits@, n as nat);
            assert(digit(digits@, n as int) == carry);
        }
        Natural { digits }
    }

    /// The sum of two numbers.
    pub fn plus(&self, other: &Natural) -> (r: Self)
        ensures
            r@ == self@ + other@,
    {
        let n: usize = if self.digits.len() < other.digits.len() {
            other.digits.len()
        } else {
            self.digits.len()
        };
        let mut digits: Vec<u64> = Vec::new();
        let mut carry: u64 = 0;
        let mut i: usize = 0;
        proof {
            lemma_power_step(0);
        }
        while i < n
            invariant
                n >= self.digits@.len(),
                n >= other.digits@.len(),
                i <= n,
                carry <= 1,
                digits@.len() == i,
                worth(digits@, i as nat) + carry * pow(base(), i as nat) == worth(
                    self.digits@,
                    i as nat,
                ) + worth(other.digits@, i as nat),
            decreases n - i,
        {
            let a: u64 = self.at(i);
            let b: u64 = other.at(i);
            let ghost before = digits@;
            let ghost w = pow(base(), i as nat);
            let t: u128 = a as u128 + b as u128 + carry as u128;
            let rest: u64 = (t % 0x1_0000_0000_0000_0000) as u64;
            let next: u64 = (t / 0x1_0000_0000_0000_0000) as u64;
            digits.push(rest);
            proof {
                lemma_power_step(i as nat);
                lemma_worth_same(before, digits@, i as nat);
                assert(digit(digits@, i as int) == rest);
                assert(rest * w + next * (base() * w) == a * w + b * w + carry * w)
                    by (nonlinear_arith)
                    requires
                        a + b + carry == rest + next * base(),
                ;
            }
            carry = next;
            i += 1;
        }
        let ghost before = digits@;
        digits.push(carry);
        proof {
            lemma_worth_same(before, digits@, n as nat);
            assert(digit(digits@, n as int) == carry);
            lemma_worth_beyond(self.digits@, n as nat);
            lemma_worth_beyond(other.digits@, n as nat);
        }
        Natural { digits }
    }

    /// Whether this number is less than another.
    pub fn less_than(&self, other: &Natural) -> (r: bool)
        ensures
            r == (self@ < other@),
    {
        let n: usize = if self.digits.len() < other.digits.len() {
            other.digits.len()
        } else {
            self.digits.len()
        };
        let mut less: bool = false;
        let mut i: usize = 0;
        while i < n
            invariant
                n >= self.digits@.len(),
                n >= other.digits@.len(),
                i <= n,
                less == (worth(self.digits@, i as nat) < worth(other.digits@, i as nat)),
            decreases n - i,
        {
            let a: u64 = self.at(i);
            let b: u64 = other.at(i);
            proof {
                let w = pow(base(), i as nat);
                lemma_power_step(i as nat);
                lemma_worth_bound(self.digits@, i as nat);
                lemma_worth_bound(other.digits@, i as nat);
                assert(a < b ==> a * w + w <= b * w) by (nonlinear_arith)
                    requires
                        w >= 1,
                ;
                assert(b < a ==> b * w + w <= a * w) by (nonlinear_arith)
                    requires
                        w >= 1,
                ;
            }
            if a != b {
                less = a < b;
            }
            i += 1;
        }
        proof {
            lemma_worth_beyond(self.digits@, n as nat);
            lemma_worth_beyond(other.digits@, n as nat);
        }
        less
    }
}

} // verus!
