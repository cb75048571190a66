//! Natural numbers of any size, for comparisons that have to be exact.

use vstd::prelude::*;

verus! {

/// The base of the digits.
pub const BASE: u64 = 0x1_0000_0000;

/// What a digit counts at place `i`.
pub open spec fn weight(i: int) -> int
    decreases i,
{
    if i <= 0 {
        1
    } else {
        BASE * weight(i - 1)
    }
}

/// The digit at place `i`, zero beyond the last.
pub open spec fn digit_at(digits: Seq<u32>, i: int) -> int {
    if 0 <= i < digits.len() { digits[i] as int } else { 0 }
}

/// What the lowest `k` digits are worth.
pub open spec fn worth(digits: Seq<u32>, k: int) -> int
    decreases k,
{
    if k <= 0 {
        0
    } else {
        worth(digits, k - 1) + digit_at(digits, k - 1) * weight(k - 1)
    }
}

proof fn lemma_worth_bound(digits: Seq<u32>, k: int)
    requires
        k >= 0,
    ensures
        0 <= worth(digits, k) < weight(k),
    decreases k,
{
    if k > 0 {
        lemma_worth_bound(digits, k - 1);
        let d = digit_at(digits, k - 1);
        let w = weight(k - 1);
        assert(0 <= d * w <= (BASE - 1) * w) by (nonlinear_arith)
            requires
                0 <= d <= BASE - 1,
                w >= 0,
        ;
        assert((BASE - 1) * w == BASE * w - w) by (nonlinear_arith);
    }
}

/// Digits that agree are worth the same.
proof fn lemma_worth_agrees(a: Seq<u32>, b: Seq<u32>, k: int)
    requires
        forall|i: int| 0 <= i < k ==> digit_at(a, i) == #[trigger] digit_at(b, i),
    ensures
        worth(a, k) == worth(b, k),
    decreases k,
{
    if k > 0 {
        lemma_worth_agrees(a, b, k - 1);
        assert(digit_at(a, k - 1) == digit_at(b, k - 1));
    }
}

/// Places beyond the last digit are worth nothing.
proof fn lemma_worth_beyond(digits: Seq<u32>, k: int)
    requires
        k >= digits.len(),
    ensures
        worth(digits, k) == worth(digits, digits.len() as int),
    decreases k,
{
    if k > digits.len() {
        lemma_worth_beyond(digits, k - 1);
        assert(0 * weight(k - 1) == 0);
    }
}

/// A natural number: its digits, lowest first.
pub struct Natural {
    digits: Vec<u32>,
}

impl Natural {
    /// The number.
    pub closed spec fn view(&self) -> int {
        worth(self.digits@, self.digits@.len() as int)
    }

    /// Zero.
    pub fn zero() -> (n: Self)
        ensures
            n@ == 0,
    {
        Natural { digits: Vec::new() }
    }

    /// One.
    pub fn one() -> (n: Self)
        ensures
            n@ == 1,
    {
        let mut digits: Vec<u32> = Vec::new();
        digits.push(1);
        proof {
            assert(worth(digits@, 0) == 0);
            assert(weight(0) == 1);
            assert(digit_at(digits@, 0) == 1);
            assert(worth(digits@, 1) == 1);
        }
        Natural { digits }
    }

    /// The same number once more.
    pub fn copied(&self) -> (n: Self)
        ensures
            n@ == self@,
    {
        let mut digits: Vec<u32> = Vec::with_capacity(self.digits.len());
        let mut i: usize = 0;
        while i < self.digits.len()
            invariant
                i <= self.digits@.len(),
                digits@ == self.digits@.take(i as int),
            decreases self.digits@.len() - i,
        {
            digits.push(self.digits[i]);
            i = i + 1;
        }
        assert(digits@ =~= self.digits@);
        Natural { digits }
    }

    /// Put a digit in front of the highest one.
    fn extend(&mut self, d: u32)
        ensures
            final(self)@ == old(self)@ + d * weight(old(self).digits@.len() as int),
            final(self).digits@ == old(self).digits@.push(d),
    {
        let ghost before = self.digits@;
        self.digits.push(d);
        proof {
            let n = before.len() as int;
            lemma_worth_agrees(before, self.digits@, n);
            assert(digit_at(self.digits@, n) == d);
        }
    }

    /// Multiply by a number.
    pub fn scale(&mut self, m: u64)
        ensures
            final(self)@ == old(self)@ * m,
    {
        let ghost before = self.digits@;
        let n: usize = self.digits.len();
        let mut carry: u64 = 0;
        let mut i: usize = 0;
        proof {
            assert(0 * m == 0);
            assert(0 * weight(0) == 0);
        }
        while i < n
            invariant
                i <= n,
                n == before.len(),
                n == self.digits@.len(),
                worth(self.digits@, i as int) + carry * weight(i as int) == worth(before, i as int)
                    * m,
                forall|j: int| i <= j < n ==> self.digits@[j] == before[j],
            decreases n - i,
        {
            let ghost now = self.digits@;
            let d: u32 = self.digits[i];
            proof {
                assert(0 <= d * m <= 0xffff_ffff * 0xffff_ffff_ffff_ffff) by (nonlinear_arith)
                    requires
                        0 <= d <= 0xffff_ffff,
                        0 <= m <= 0xffff_ffff_ffff_ffff,
                ;
            }
            let product: u128 = d as u128 * m as u128 + carry as u128;
            let low: u32 = (product % BASE as u128) as u32;
            let high: u64 = (product / BASE as u128) as u64;
            self.digits[i] = low;
            proof {
                assert(product <= 0xffff_ffff * 0xffff_ffff_ffff_ffff + 0xffff_ffff_ffff_ffff);
                assert(product / 0x1_0000_0000 <= 0xffff_ffff_ffff_ffff);
                assert(product == low + high * BASE);
                let k = i as int;
                let w = weight(k);
                lemma_worth_agrees(now, self.digits@, k);
                assert(digit_at(self.digits@, k) == low);
                assert(digit_at(before, k) == d);
                assert(weight(k + 1) == BASE * w);
                let a = worth(before, k);
                let b = worth(self.digits@, k);
                assert(b + low * w + high * (BASE * w) == (a + d * w) * m) by (nonlinear_arith)
                    requires
                        b + carry * w == a * m,
                        d * m + carry == low + high * BASE,
                ;
            }
            carry = high;
            i = i + 1;
        }
        proof {
            let low = (carry % BASE) as int;
            let high = (carry / BASE) as int;
            let w = weight(n as int);
            assert(weight(n + 1) == BASE * w);
            assert(low * w + high * (BASE * w) == carry * w) by (nonlinear_arith)
                requires
                    carry == low + high * BASE,
            ;
            if high == 0 {
                assert(high * (BASE * w) == 0) by (nonlinear_arith)
                    requires
                        high == 0,
                ;
            }
            if carry == 0 {
                assert(carry * w == 0) by (nonlinear_arith)
                    requires
                        carry == 0,
                ;
            }
        }
        if carry > 0 {
            self.extend((carry % BASE) as u32);
            if carry >= BASE {
                self.extend((carry / BASE) as u32);
            }
        }
    }

    /// Add another number.
    pub fn increase(&mut self, other: &Natural)
        ensures
            final(self)@ == old(self)@ + other@,
    {
        let ghost before = self@;
        while self.digits.len() < other.digits.len()
            invariant
                self@ == before,
            decreases other.digits@.len() - self.digits@.len(),
        {
            proof {
                assert(0 * weight(self.digits@.len() as int) == 0);
            }
            self.extend(0);
        }
        let ghost start = self.digits@;
        let n: usize = self.digits.len();
        let mut carry: u32 = 0;
        let mut i: usize = 0;
        assert(0 * weight(0) == 0);
        while i < n
            invariant
                i <= n,
                n == start.len(),
                n == self.digits@.len(),
                carry <= 1,
                worth(self.digits@, i as int) + carry * weight(i as int) == worth(start, i as int)
                    + worth(other.digits@, i as int),
                forall|j: int| i <= j < n ==> self.digits@[j] == start[j],
            decreases n - i,
        {
            let ghost now = self.digits@;
            let d: u32 = self.digits[i];
            let e: u32 = if i < other.digits.len() { other.digits[i] } else { 0 };
            let sum: u64 = d as u64 + e as u64 + carry as u64;
            let low: u32 = (sum % BASE) as u32;
            let high: u32 = (sum / BASE) as u32;
            self.digits[i] = low;
            proof {
                let k = i as int;
                let w = weight(k);
                lemma_worth_agrees(now, self.digits@, k);
                assert(digit_at(self.digits@, k) == low);
                assert(digit_at(start, k) == d);
                assert(digit_at(other.digits@, k) == e);
                assert(weight(k + 1) == BASE * w);
                let a = worth(start, k);
                let b = worth(other.digits@, k);
                let c = worth(self.digits@, k);
                assert(c + low * w + high * (BASE * w) == (a + d * w) + (b + e * w))
                    by (nonlinear_arith)
                    requires
                        c + carry * w == a + b,
                        d + e + carry == low + high * BASE,
                ;
            }
            carry = high;
            i = i + 1;
        }
        proof {
            lemma_worth_beyond(other.digits@, n as int);
            if carry == 0 {
                assert(carry * weight(n as int) == 0) by (nonlinear_arith)
                    requires
                        carry == 0,
                ;
            }
        }
        if carry > 0 {
            self.extend(carry);
        }
    }

    /// Whether this number is above another.
    pub fn above(&self, other: &Natural) -> (yes: bool)
        ensures
            yes == (self@ > other@),
    {
        let n: usize = if self.digits.len() > other.digits.len() {
            self.digits.len()
        } else {
            other.digits.len()
        };
        proof {
            lemma_worth_beyond(self.digits@, n as int);
            lemma_worth_beyond(other.digits@, n as int);
        }
        let mut i: usize = n;
        while i > 0
            invariant
                i <= n,
                self@ - worth(self.digits@, i as int) == other@ - worth(
                    other.digits@,
                    i as int,
                ),
            decreases i,
        {
            let k: usize = i - 1;
            let d: u32 = if k < self.digits.len() { self.digits[k] } else { 0 };
            let e: u32 = if k < other.digits.len() { other.digits[k] } else { 0 };
            proof {
                lemma_worth_bound(self.digits@, k as int);
                lemma_worth_bound(other.digits@, k as int);
                assert(digit_at(self.digits@, k as int) == d);
                assert(digit_at(other.digits@, k as int) == e);
                let w = weight(k as int);
                if d > e {
                    assert(d * w >= e * w + w) by (nonlinear_arith)
                        requires
                            d >= e + 1,
                            w >= 0,
                    ;
                } else if d < e {
                    assert(e * w >= d * w + w) by (nonlinear_arith)
                        requires
                            e >= d + 1,
                            w >= 0,
                    ;
                }
            }
            if d != e {
                return d > e;
            }
            i = k;
        }
        false
    }
}

} // verus!
