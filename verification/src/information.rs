//! The guess that tells the most about the answer.
//!
//! A guess that leaves `c` of `n` candidates with each pattern has an entropy of `log n` less the
//! `n`-th part of the logarithm of the product of all `c` to the power `c`. So the entropy is the
//! largest where that product is the smallest, and products of whole numbers compare exactly.

use vstd::arithmetic::power::*;
use vstd::prelude::*;
use crate::board::Board;
use crate::natural::Natural;
use crate::optimal;
use crate::solver::Solver;

verus! {

/// `c` to the power `k`.
pub open spec fn power(c: nat, k: nat) -> nat
    decreases k,
{
    if k == 0 {
        1
    } else {
        power(c, (k - 1) as nat) * c
    }
}

/// The product, over the patterns below `n`, of the number of candidates that show the pattern
/// to the power of itself.
pub open spec fn spread(b: Board, g: int, s: Seq<u32>, n: nat) -> nat
    decreases n,
{
    if n == 0 {
        1
    } else {
        let c = b.part(g, s, n - 1).len();
        spread(b, g, s, (n - 1) as nat) * power(c, c)
    }
}

/// The product for all patterns of a guess.
pub fn spread_of(solver: &Solver, g: u32, s: &[u32]) -> (r: Natural)
    requires
        solver.wf(),
        solver@.legal(g as int),
        solver@.columns(s@),
        s@.len() <= u32::MAX,
    ensures
        r@ == spread(solver@, g as int, s@, 243),
{
    let counts = solver.counts(g, s);
    let mut r = Natural::one();
    let mut p: usize = 0;
    while p < 243
        invariant
            p <= 243,
            forall|q: int|
                0 <= q < 243 ==> #[trigger] counts@[q] == solver@.part(g as int, s@, q).len(),
            r@ == spread(solver@, g as int, s@, p as nat),
        decreases 243 - p,
    {
        let c: u32 = counts[p];
        let ghost before = r@;
        assert(c == solver@.part(g as int, s@, p as int).len());
        if c > 1 {
            let mut k: u32 = 0;
            assert(before * power(c as nat, 0) == before) by (nonlinear_arith)
                requires
                    power(c as nat, 0) == 1,
            ;
            while k < c
                invariant
                    k <= c,
                    r@ == before * power(c as nat, k as nat),
                decreases c - k,
            {
                r = r.times(c);
                proof {
                    let x = power(c as nat, k as nat);
                    assert(before * x * c == before * (x * c as nat)) by (nonlinear_arith);
                }
                k = k + 1;
            }
        } else {
            proof {
                let x = c as nat;
                assert(power(x, 0) == 1);
                if x == 1 {
                    assert(power(x, 1) == power(x, 0) * x);
                }
                assert(power(x, x) == 1);
                assert(before * 1 == before);
            }
        }
        p = p + 1;
    }
    r
}

impl Solver {
    /// The guess of the largest entropy: of all legal guesses with the smallest product, the
    /// first.
    pub fn entropy_best(&self, s: &[u32]) -> (r: u32)
        requires
            self.wf(),
            self@.columns(s@),
            1 <= s@.len() <= u32::MAX,
        ensures
            self@.legal(r as int),
            forall|g: int|
                self@.legal(g) ==> spread(self@, r as int, s@, 243) <= #[trigger] spread(
                    self@,
                    g,
                    s@,
                    243,
                ),
            forall|g: int|
                0 <= g < r ==> spread(self@, r as int, s@, 243) < #[trigger] spread(
                    self@,
                    g,
                    s@,
                    243,
                ),
    {
        proof {
            optimal::lemma_home(self@, s@[0]);
        }
        let ng = self.guess_count();
        let mut best_g: u32 = 0;
        let mut best = spread_of(self, 0, s);
        let mut g: usize = 1;
        while g < ng
            invariant
                self.wf(),
                self@.columns(s@),
                s@.len() <= u32::MAX,
                ng == self@.guesses.len(),
                ng <= u32::MAX,
                1 <= g <= ng,
                best_g < g,
                best@ == spread(self@, best_g as int, s@, 243),
                forall|k: int|
                    0 <= k < g ==> best@ <= #[trigger] spread(self@, k, s@, 243),
                forall|k: int|
                    0 <= k < best_g ==> best@ < #[trigger] spread(self@, k, s@, 243),
            decreases ng - g,
        {
            let x = spread_of(self, g as u32, s);
            if x.below(&best) {
                best = x;
                best_g = g as u32;
            }
            g = g + 1;
        }
        best_g
    }
}

/// What the product is: for every pattern, the number of candidates that show it to the power of
/// itself.
pub proof fn law_spread(b: Board, g: int, s: Seq<u32>, n: nat)
    ensures
        spread(b, g, s, n) == Seq::new(
            n,
            |p: int|
                {
                    let c = s.filter(|x: u32| b.pattern(g, x as int) == p).len();
                    pow(c as int, c)
                },
        ).fold_left(1int, |a: int, x: int| a * x),
    decreases n,
{
    let f = |p: int|
        {
            let c = s.filter(|x: u32| b.pattern(g, x as int) == p).len();
            pow(c as int, c)
        };
    let all = Seq::new(n, f);
    if n > 0 {
        law_spread(b, g, s, (n - 1) as nat);
        assert(all.drop_last() =~= Seq::new((n - 1) as nat, f));
        let h = |x: u32| b.pattern(g, x as int) == n - 1;
        assert(h =~= crate::parts::labelled(b.label(g), n - 1));
        assert(s.filter(h) == b.part(g, s, n - 1));
        let c = b.part(g, s, n - 1).len();
        lemma_power(c, c);
        assert(all.last() == pow(c as int, c));
    }
}

proof fn lemma_power(c: nat, k: nat)
    ensures
        power(c, k) == pow(c as int, k),
    decreases k,
{
    reveal(pow);
    if k > 0 {
        lemma_power(c, (k - 1) as nat);
        assert(pow(c as int, k) == c * pow(c as int, (k - 1) as nat));
        let x = power(c, (k - 1) as nat);
        assert(x * c == c * x) by (nonlinear_arith);
    }
}

} // verus!
