//! Natural numbers of any size, as far as products and comparisons go.

use vstd::prelude::*;

verus! {

/// The weight of digit `i`: digits are 32 bits wide.
pub open spec fn place(i: nat) -> nat
    decreases i,
{
    if i == 0 {
        1
    } else {
        0x1_0000_0000 * place((i - 1) as nat)
    }
}

/// Digit `i` of a number, zero beyond the last.
pub open spec fn digit(d: Seq<u32>, i: int) -> nat {
    if 0 <= i < d.len() {
        d[i] as nat
    } else {
        0
    }
}

/// The number that the first `n` digits write, the least significant first.
pub open spec fn value(d: Seq<u32>, n: nat) -> nat
    decreases n,
{
    if n == 0 {
        0
    } else {
        value(d, (n - 1) as nat) + digit(d, n - 1) * place((n - 1) as nat)
    }
}

/// A natural number.
pub struct Natural {
    digits: Vec<u32>,
}

impl View for Natural {
    type V = nat;

    closed spec fn view(&self) -> nat {
        value(self.digits@, self.digits@.len())
    }
}

proof fn lemma_value_below(d: Seq<u32>, n: nat)
    ensures
        value(d, n) < place(n),
    decreases n,
{
    if n > 0 {
        lemma_value_below(d, (n - 1) as nat);
        let p = place((n - 1) as nat) as int;
        let x = digit(d, n - 1) as int;
        assert(x * p <= 0xffff_ffff * p) by (nonlinear_arith)
            requires
                0 <= x <= 0xffff_ffff,
                p >= 0,
        ;
    }
}

proof fn lemma_value_prefix(d: Seq<u32>, e: Seq<u32>, n: nat)
    requires
        forall|i: int| 0 <= i < n ==> digit(d, i) == digit(e, i),
    ensures
        value(d, n) == value(e, n),
    decreases n,
{
    if n > 0 {
        lemma_value_prefix(d, e, (n - 1) as nat);
    }
}

proof fn lemma_value_beyond(d: Seq<u32>, n: nat)
    requires
        n >= d.len(),
    ensures
        value(d, n) == value(d, d.len()),
    decreases n,
{
    if n > d.len() {
        lemma_value_beyond(d, (n - 1) as nat);
        assert(0 * place((n - 1) as nat) == 0);
    }
}

/// Numbers with the same digits from `i` on differ as their digits below do.
proof fn lemma_value_difference(d: Seq<u32>, e: Seq<u32>, i: nat, n: nat)
    requires
        i <= n,
        forall|k: int| i <= k < n ==> digit(d, k) == digit(e, k),
    ensures
        value(d, n) - value(e, n) == value(d, i) - value(e, i),
    decreases n,
{
    if i < n {
        lemma_value_difference(d, e, i, (n - 1) as nat);
    }
}

impl Natural {
    /// One.
    pub fn one() -> (r: Natural)
        ensures
            r@ == 1,
    {
        let mut digits: Vec<u32> = Vec::new();
        digits.push(1);
        proof {
            assert(place(0) == 1);
            assert(1 * place(0) == 1);
            assert(value(digits@, 0) == 0);
            assert(value(digits@, 1) == value(digits@, 0) + digit(digits@, 0) * place(0));
        }
        Natural { digits }
    }

    /// The product with a small number.
    pub fn times(&self, m: u32) -> (r: Natural)
        ensures
            r@ == self@ * m,
    {
        let mut digits: Vec<u32> = Vec::with_capacity(self.digits.len());
        let mut carry: u64 = 0;
        let mut i: usize = 0;
        let ghost d = self.digits@;
        assert(0 * place(0) == 0);
        assert(0 * m == 0);
        while i < self.digits.len()
            invariant
                d == self.digits@,
                i <= d.len(),
                digits@.len() == i,
                carry <= 0xffff_ffff,
                value(digits@, i as nat) + carry * place(i as nat) == value(d, i as nat) * m,
            decreases d.len() - i,
        {
            let x: u32 = self.digits[i];
            proof {
                assert(x * m <= 0xffff_ffff * 0xffff_ffff) by (nonlinear_arith)
                    requires
                        0 <= x <= 0xffff_ffff,
                        0 <= m <= 0xffff_ffff,
                ;
            }
            let t: u64 = x as u64 * m as u64 + carry;
            let low: u32 = (t % 0x1_0000_0000) as u32;
            let high: u64 = t / 0x1_0000_0000;
            let ghost before = digits@;
            digits.push(low);
            proof {
                lemma_value_prefix(before, digits@, i as nat);
                let p = place(i as nat) as int;
                let v = value(d, i as nat) as int;
                assert(low * p + high * (0x1_0000_0000 * p) == t * p) by (nonlinear_arith)
                    requires
                        t == low + high * 0x1_0000_0000,
                ;
                assert(t * p == x * m * p + carry * p) by (nonlinear_arith)
                    requires
                        t == x * m + carry,
                ;
                assert((v + x * p) * m == v * m + x * m * p) by (nonlinear_arith);
                assert(value(digits@, (i + 1) as nat) == value(digits@, i as nat) + low * p);
                assert(value(d, (i + 1) as nat) == v + x * p);
                assert(place((i + 1) as nat) == 0x1_0000_0000 * p);
            }
            carry = high;
            i = i + 1;
        }
        if carry > 0 {
            let ghost before = digits@;
            digits.push(carry as u32);
            proof {
                lemma_value_prefix(before, digits@, i as nat);
            }
        } else {
            assert(0 * place(i as nat) == 0);
        }
        Natural { digits }
    }

    fn digit_at(&self, i: usize) -> (r: u32)
        ensures
            r == digit(self.digits@, i as int),
    {
        if i < self.digits.len() {
            self.digits[i]
        } else {
            0
        }
    }

    /// Whether this number is the smaller of two.
    pub fn below(&self, other: &Natural) -> (r: bool)
        ensures
            r == (self@ < other@),
    {
        let ghost d = self.digits@;
        let ghost e = other.digits@;
        let n = if self.digits.len() > other.digits.len() {
            self.digits.len()
        } else {
            other.digits.len()
        };
        proof {
            lemma_value_beyond(d, n as nat);
            lemma_value_beyond(e, n as nat);
        }
        let mut i: usize = n;
        while i > 0
            invariant
                d == self.digits@,
                e == other.digits@,
                i <= n,
                self@ == value(d, n as nat),
                other@ == value(e, n as nat),
                forall|k: int| i <= k < n ==> digit(d, k) == digit(e, k),
            decreases i,
        {
            let x = self.digit_at(i - 1);
            let y = other.digit_at(i - 1);
            if x != y {
                proof {
                    let j = (i - 1) as nat;
                    lemma_value_difference(d, e, i as nat, n as nat);
                    lemma_value_below(d, j);
                    lemma_value_below(e, j);
                    let p = place(j) as int;
                    if x < y {
                        assert(x * p + p <= y * p) by (nonlinear_arith)
                            requires
                                x + 1 <= y,
                                p >= 0,
                        ;
                    } else {
                        assert(y * p + p <= x * p) by (nonlinear_arith)
                            requires
                                y + 1 <= x,
                                p >= 0,
                        ;
                    }
                }
                return x < y;
            }
            i = i - 1;
        }
        proof {
            lemma_value_difference(d, e, 0, n as nat);
        }
        false
    }
}

} // verus!
