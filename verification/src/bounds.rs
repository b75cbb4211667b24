//! Perfect guessing trees, and the lower bounds that they give.
//!
//! A guess that solves its word at once and splits the rest over the other 242 patterns is the
//! best there can be. In the tree of such guesses one word is found by the first guess, 242 by
//! the second, 242 * 242 by the third, and so on. Costs are sums over words: the weight of a word
//! times the number of guesses that it takes.

use vstd::prelude::*;
use vstd::arithmetic::power::*;
use crate::sort;

verus! {

/// Patterns other than five greens: the branches of a guess.
pub const BRANCHES: usize = 242;

/// How many words the perfect tree finds with at most `d + 1` guesses.
pub open spec fn room(d: nat) -> nat
    decreases d,
{
    if d == 0 {
        1
    } else {
        1 + 242 * room((d - 1) as nat)
    }
}

/// How many guesses come before the one that finds word `i` of the perfect tree, whose words are
/// numbered level by level: the words below word `k` are those from `242 * k + 1` to
/// `242 * k + 242`.
pub open spec fn level(i: nat) -> nat
    decreases i,
{
    if i == 0 {
        0
    } else {
        1 + level(((i - 1) / 242) as nat)
    }
}

/// How many words level `d` of the perfect tree holds.
pub open spec fn width(d: nat) -> nat
    decreases d,
{
    if d == 0 {
        1
    } else {
        242 * width((d - 1) as nat)
    }
}

/// A level adds its width to the room.
pub proof fn lemma_room_width(d: nat)
    ensures
        room(d + 1) == room(d) + width(d + 1),
    decreases d,
{
    if d > 0 {
        lemma_room_width((d - 1) as nat);
    } else {
        assert(room(1) == 1 + 242 * room(0));
        assert(width(1) == 242 * width(0));
    }
}

/// The sum of a list of weights.
pub open spec fn total(ws: Seq<u64>) -> nat
    decreases ws.len(),
{
    if ws.len() == 0 {
        0
    } else {
        total(ws.drop_last()) + ws.last() as nat
    }
}

/// The cost of the perfect tree that holds the weights in the order given.
pub open spec fn tree_cost(ws: Seq<u64>) -> nat
    decreases ws.len(),
{
    if ws.len() == 0 {
        0
    } else {
        tree_cost(ws.drop_last()) + ws.last() as nat * (1 + level((ws.len() - 1) as nat))
    }
}

/// The weights from the heaviest to the lightest.
pub open spec fn heaviest_first(ws: Seq<u64>) -> Seq<u64> {
    sort::sorted(ws).reverse()
}

/// The cost of the perfect tree that holds the heaviest words at the shallowest depths.
pub open spec fn perfect_cost(ws: Seq<u64>) -> nat {
    tree_cost(heaviest_first(ws))
}

/// The cost for `m` words of weight one when every guess solves one word and spreads the rest
/// evenly over its branches.
pub open spec fn even_cost(m: nat) -> nat
    decreases m,
{
    if m <= 1 {
        m
    } else {
        let q = ((m - 1) / 242) as nat;
        let r = ((m - 1) % 242) as nat;
        m + r * even_cost(q + 1) + ((242 - r) as nat) * even_cost(q)
    }
}

/// The even cost of `m` words is at most `m * m`.
pub proof fn lemma_even_cost_bound(m: nat)
    ensures
        even_cost(m) <= m * m,
    decreases m,
{
    if m > 1 {
        let q = ((m - 1) / 242) as nat;
        let r = ((m - 1) % 242) as nat;
        lemma_even_cost_bound(q + 1);
        lemma_even_cost_bound(q);
        let a = even_cost(q + 1);
        let b = even_cost(q);
        let l = (242 - r) as nat;
        assert(m - 1 == 242 * q + r);
        assert(m + r * a + l * b <= m * m) by (nonlinear_arith)
            requires
                a <= (q + 1) * (q + 1),
                b <= q * q,
                m - 1 == 242 * q + r,
                l + r == 242,
                0 <= r,
                0 <= l,
                0 <= q,
                q + 1 <= m - 1,
        {
            assert(r * a <= r * ((q + 1) * (q + 1)));
            assert(l * b <= l * (q * q));
            assert(l * (q * q) <= l * (q * (q + 1)));
            assert(r * ((q + 1) * (q + 1)) + l * (q * (q + 1)) == (r * (q + 1) + l * q) * (q + 1));
            assert(r * (q + 1) + l * q == 242 * q + r);
            assert((m - 1) * (q + 1) <= (m - 1) * (m - 1));
        }
    } else {
        assert(m * m == m) by (nonlinear_arith)
            requires
                m == 0 || m == 1,
        ;
    }
}

/// Whether a list is the table of even costs for 0 to `n` words.
pub open spec fn is_table(lb: Seq<u64>, n: nat) -> bool {
    &&& lb.len() == n + 1
    &&& forall|m: int| 0 <= m <= n ==> #[trigger] lb[m] == even_cost(m as nat)
}

/// The table of even costs for 0 to `n` words.
pub fn build_lb(n: usize) -> (lb: Vec<u64>)
    requires
        n <= u32::MAX,
        n < usize::MAX,
    ensures
        is_table(lb@, n as nat),
{
    let mut lb: Vec<u64> = Vec::with_capacity(n + 1);
    lb.push(0);
    if n >= 1 {
        lb.push(1);
    }
    let mut m: usize = 2;
    while m <= n
        invariant
            n <= u32::MAX,
            n < usize::MAX,
            2 <= m,
            n >= 1 ==> m <= n + 1,
            lb@.len() == if n == 0 {
                1
            } else {
                m as int
            },
            forall|k: int| 0 <= k < lb@.len() ==> #[trigger] lb@[k] == even_cost(k as nat),
        decreases n + 1 - m,
    {
        let rem: usize = m - 1;
        let q: usize = rem / BRANCHES;
        let r: usize = rem % BRANCHES;
        proof {
            lemma_even_cost_bound(m as nat);
            assert(m * m <= u32::MAX * u32::MAX) by (nonlinear_arith)
                requires
                    0 <= m <= u32::MAX,
            ;
            let a = r as nat * even_cost(q as nat + 1);
            let b = (242 - r) as nat * even_cost(q as nat);
            assert(even_cost(m as nat) == m + a + b);
            assert(0 <= a && 0 <= b) by (nonlinear_arith)
                requires
                    a == r as nat * even_cost(q as nat + 1),
                    b == (242 - r) as nat * even_cost(q as nat),
            ;
            assert(lb@[q + 1] == even_cost(q as nat + 1));
            assert(lb@[q as int] == even_cost(q as nat));
        }
        let s: u64 = m as u64 + r as u64 * lb[q + 1] + (BRANCHES - r) as u64 * lb[q];
        lb.push(s);
        m = m + 1;
    }
    lb
}

/// The words of level `d` are those from `room(d - 1)` up to, but not with, `room(d)`.
pub proof fn lemma_level_room(i: nat, d: nat)
    requires
        d == 0 || room((d - 1) as nat) <= i,
        i < room(d),
    ensures
        level(i) == d,
    decreases d,
{
    if d == 0 {
    } else {
        let k = ((i - 1) / 242) as nat;
        if d > 1 {
            assert(room((d - 2) as nat) <= k);
        }
        lemma_level_room(k, (d - 1) as nat);
    }
}

/// Weights of words, in the order of a list of columns.
pub open spec fn weights_of(w: Seq<u64>, s: Seq<u32>) -> Seq<u64> {
    Seq::new(s.len(), |i: int| w[s[i] as int])
}

/// The largest sum that at most `n` of the weights have.
pub open spec fn top(ws: Seq<u64>, n: nat) -> nat
    decreases ws.len(),
{
    if ws.len() == 0 || n == 0 {
        0
    } else {
        let without = top(ws.drop_last(), n);
        let with = ws.last() as nat + top(ws.drop_last(), (n - 1) as nat);
        if with > without {
            with
        } else {
            without
        }
    }
}

proof fn lemma_top_grows(ws: Seq<u64>, m: nat, n: nat)
    requires
        m <= n,
    ensures
        top(ws, m) <= top(ws, n),
        top(ws, n) <= total(ws),
    decreases ws.len(),
{
    if ws.len() > 0 {
        lemma_top_grows(ws.drop_last(), m, n);
        if m > 0 {
            lemma_top_grows(ws.drop_last(), (m - 1) as nat, (n - 1) as nat);
        } else if n > 0 {
            lemma_top_grows(ws.drop_last(), 0, (n - 1) as nat);
        }
    }
}

/// What a weight adds to the heaviest sums does not depend on where it stands.
proof fn lemma_top_insert(ws: Seq<u64>, k: int, x: u64, n: nat)
    requires
        0 <= k <= ws.len(),
        n > 0,
    ensures
        top(ws.insert(k, x), n) == {
            let with = x as nat + top(ws, (n - 1) as nat);
            let without = top(ws, n);
            if with > without {
                with
            } else {
                without
            }
        },
    decreases ws.len(),
{
    let v = ws.insert(k, x);
    if k == ws.len() {
        assert(v.drop_last() =~= ws);
        assert(v.last() == x);
    } else {
        assert(v.drop_last() =~= ws.drop_last().insert(k, x));
        assert(v.last() == ws.last());
        lemma_top_insert(ws.drop_last(), k, x, n);
        if n > 1 {
            lemma_top_insert(ws.drop_last(), k, x, (n - 1) as nat);
            assert(top(ws, (n - 1) as nat) >= top(ws.drop_last(), (n - 1) as nat));
        } else {
            assert(top(ws.drop_last(), 0) == 0);
            assert(top(ws.drop_last().insert(k, x), 0) == 0);
            assert(top(ws, 0) == 0);
        }
    }
}

/// The heaviest sums and the total do not depend on the order of the weights.
proof fn lemma_top_permuted(a: Seq<u64>, b: Seq<u64>, n: nat)
    requires
        a.to_multiset() == b.to_multiset(),
    ensures
        top(a, n) == top(b, n),
    decreases a.len(),
{
    broadcast use vstd::seq_lib::group_to_multiset_ensures;

    sort::lemma_same_items(a, b);
    if a.len() > 0 && n > 0 {
        let x = a.last();
        assert(a[a.len() - 1] == x);
        assert(a.contains(x));
        let k = choose|k: int| 0 <= k < b.len() && b[k] == x;
        let c = b.remove(k);
        assert(c.insert(k, x) =~= b);
        assert(a.remove(a.len() - 1) =~= a.drop_last());
        assert(a.drop_last().to_multiset() =~= c.to_multiset());
        lemma_top_permuted(a.drop_last(), c, n);
        lemma_top_permuted(a.drop_last(), c, (n - 1) as nat);
        lemma_top_insert(c, k, x, n);
    }
}

/// From the heaviest to the lightest, the first `n` weights have the largest sum of `n`.
proof fn lemma_top_descending(ws: Seq<u64>, n: nat)
    requires
        forall|i: int, j: int| 0 <= i < j < ws.len() ==> ws[i] >= ws[j],
    ensures
        n <= ws.len() ==> top(ws, n) == total(ws.take(n as int)),
        n > ws.len() ==> top(ws, n) == total(ws),
    decreases ws.len(),
{
    if n == 0 {
        assert(ws.take(0).len() == 0);
    } else if ws.len() > 0 {
        let v = ws.drop_last();
        lemma_top_descending(v, n);
        lemma_top_descending(v, (n - 1) as nat);
        if n > v.len() {
            lemma_top_grows(v, v.len(), n);
            lemma_top_descending(v, v.len());
            assert(v.take(v.len() as int) =~= v);
            assert(ws.take(ws.len() as int) =~= ws);
        } else {
            assert(ws.take(n as int).drop_last() =~= v.take(n - 1));
            assert(ws.take(n as int) =~= v.take(n as int));
        }
    }
}

pub proof fn lemma_top_all(ws: Seq<u64>, n: nat)
    requires
        n >= ws.len(),
    ensures
        top(ws, n) == total(ws),
    decreases ws.len(),
{
    lemma_top_grows(ws, n, n);
    if ws.len() > 0 {
        lemma_top_all(ws.drop_last(), (n - 1) as nat);
    }
}

/// The total does not depend on the order of the weights.
pub proof fn lemma_total_permuted(a: Seq<u64>, b: Seq<u64>)
    requires
        a.to_multiset() == b.to_multiset(),
    ensures
        total(a) == total(b),
{
    sort::lemma_same_items(a, b);
    lemma_top_permuted(a, b, a.len());
    lemma_top_all(a, a.len());
    lemma_top_all(b, b.len());
}

/// The order from the heaviest to the lightest is a reordering, and it descends.
pub proof fn lemma_heaviest_first(ws: Seq<u64>)
    ensures
        heaviest_first(ws).to_multiset() == ws.to_multiset(),
        heaviest_first(ws).len() == ws.len(),
        total(heaviest_first(ws)) == total(ws),
        forall|i: int, j: int|
            0 <= i < j < ws.len() ==> heaviest_first(ws)[i] >= heaviest_first(ws)[j],
{
    sort::lemma_sorted(ws);
    let up = sort::sorted(ws);
    up.lemma_reverse_to_multiset();
    lemma_total_permuted(heaviest_first(ws), ws);
    assert forall|i: int, j: int| 0 <= i < j < ws.len() implies heaviest_first(ws)[i]
        >= heaviest_first(ws)[j] by {
        assert(sort::Ordered::leq(up[ws.len() - 1 - j], up[ws.len() - 1 - i]));
    }
}

/// Word `n` stands below level `k` exactly when the first `k + 1` levels have no room for it.
proof fn lemma_room_below_level(n: nat, k: nat)
    ensures
        room(k) <= n <==> k < level(n),
    decreases k,
{
    if k > 0 && n > 0 {
        lemma_room_below_level(((n - 1) / 242) as nat, (k - 1) as nat);
    }
}

/// A level is at most the number of the word.
pub proof fn lemma_level_bound(n: nat)
    ensures
        level(n) <= n,
    decreases n,
{
    if n > 0 {
        lemma_level_bound(((n - 1) / 242) as nat);
    }
}

/// The weight that must lie below each of the first `d` levels, summed over those levels.
pub open spec fn tails(ws: Seq<u64>, d: nat) -> int
    decreases d,
{
    if d == 0 {
        0
    } else {
        tails(ws, (d - 1) as nat) + total(ws) - top(ws, room((d - 1) as nat))
    }
}

proof fn lemma_tails_step(ws: Seq<u64>, d: nat)
    requires
        ws.len() > 0,
        forall|i: int, j: int| 0 <= i < j < ws.len() ==> ws[i] >= ws[j],
    ensures
        tails(ws, d) == tails(ws.drop_last(), d) + ws.last() * if d < level((ws.len() - 1) as nat) {
            d
        } else {
            level((ws.len() - 1) as nat)
        },
    decreases d,
{
    let n = (ws.len() - 1) as nat;
    let x = ws.last() as int;
    if d > 0 {
        let k = (d - 1) as nat;
        lemma_tails_step(ws, k);
        lemma_room_below_level(n, k);
        let r = room(k);
        lemma_top_descending(ws, r);
        lemma_top_descending(ws.drop_last(), r);
        if r <= n {
            assert(ws.take(r as int) =~= ws.drop_last().take(r as int));
            assert(x * (k + 1) == x * k + x) by (nonlinear_arith);
        } else {
            if r == n + 1 {
                assert(ws.take(r as int) =~= ws);
            }
        }
    } else {
        assert(x * 0 == 0);
    }
}

/// Going down a list from the heaviest weight, the cost of the perfect tree is the total and the
/// weight below each level.
proof fn lemma_tree_cost_tails(ws: Seq<u64>, d: nat)
    requires
        forall|i: int, j: int| 0 <= i < j < ws.len() ==> ws[i] >= ws[j],
        d >= ws.len(),
    ensures
        tree_cost(ws) == total(ws) + tails(ws, d),
    decreases ws.len(),
{
    if ws.len() == 0 {
        lemma_tails_empty(ws, d);
    } else {
        let n = (ws.len() - 1) as nat;
        let x = ws.last() as int;
        lemma_tree_cost_tails(ws.drop_last(), d);
        lemma_tails_step(ws, d);
        lemma_level_bound(n);
        assert(x * (1 + level(n)) == x + x * level(n)) by (nonlinear_arith);
    }
}

proof fn lemma_tails_empty(ws: Seq<u64>, d: nat)
    requires
        ws.len() == 0,
    ensures
        tails(ws, d) == 0,
    decreases d,
{
    if d > 0 {
        lemma_tails_empty(ws, (d - 1) as nat);
    }
}

pub proof fn lemma_tails_permuted(a: Seq<u64>, b: Seq<u64>, d: nat)
    requires
        a.to_multiset() == b.to_multiset(),
    ensures
        tails(a, d) == tails(b, d),
    decreases d,
{
    if d > 0 {
        lemma_tails_permuted(a, b, (d - 1) as nat);
        lemma_total_permuted(a, b);
        lemma_top_permuted(a, b, room((d - 1) as nat));
    }
}

/// The cost of the perfect tree with the heaviest words first is the total weight and, for each
/// level, the least weight that can lie below it.
pub proof fn lemma_perfect_cost_tails(ws: Seq<u64>)
    ensures
        perfect_cost(ws) == total(ws) + tails(ws, ws.len()),
{
    lemma_heaviest_first(ws);
    lemma_tree_cost_tails(heaviest_first(ws), ws.len());
    lemma_tails_permuted(heaviest_first(ws), ws, ws.len());
}

/// The cost of the perfect tree of `m` words of weight one.
pub open spec fn level_sum(m: nat) -> nat
    decreases m,
{
    if m == 0 {
        0
    } else {
        level_sum((m - 1) as nat) + 1 + level((m - 1) as nat)
    }
}

/// The perfect tree of `m` words is one word above 242 trees of as even sizes as can be.
proof fn lemma_level_sum_split(m: nat)
    requires
        m >= 1,
    ensures
        ({
            let q = ((m - 1) / 242) as nat;
            let r = ((m - 1) % 242) as nat;
            level_sum(m) == m + r * level_sum(q + 1) + ((242 - r) as nat) * level_sum(q)
        }),
    decreases m,
{
    let q2 = ((m - 1) / 242) as nat;
    let r2 = ((m - 1) % 242) as nat;
    let a2 = level_sum(q2);
    let c2 = level_sum(q2 + 1);
    if m == 1 {
        assert(level_sum(1) == level_sum(0) + 1 + level(0));
        assert(r2 * c2 + ((242 - r2) as nat) * a2 == 0) by (nonlinear_arith)
            requires
                r2 == 0,
                a2 == 0,
        ;
    } else {
        let k = (m - 1) as nat;
        lemma_level_sum_split(k);
        let q = ((k - 1) / 242) as nat;
        let r = ((k - 1) % 242) as nat;
        let a = level_sum(q);
        let c = level_sum(q + 1);
        assert(c == a + 1 + level(q));
        assert(level(k) == 1 + level(q));
        if r < 241 {
            assert(q2 == q && r2 == r + 1);
            assert(r2 * c + ((242 - r2) as nat) * a == r * c + ((242 - r) as nat) * a + (c - a))
                by (nonlinear_arith)
                requires
                    r2 == r + 1,
                    r < 241,
            ;
        } else {
            assert(q2 == q + 1 && r2 == 0);
            assert(r * c + ((242 - r) as nat) * a == 241 * c + a) by (nonlinear_arith)
                requires
                    r == 241,
            ;
            assert(r2 * c2 + ((242 - r2) as nat) * a2 == 242 * a2) by (nonlinear_arith)
                requires
                    r2 == 0,
            ;
        }
    }
}

/// Spreading words evenly builds the perfect tree.
pub proof fn lemma_even_cost_is_level_sum(m: nat)
    ensures
        even_cost(m) == level_sum(m),
    decreases m,
{
    if m <= 1 {
        assert(level_sum(1) == level_sum(0) + 1 + level(0));
    } else {
        lemma_level_sum_split(m);
        lemma_even_cost_is_level_sum((((m - 1) / 242) + 1) as nat);
        lemma_even_cost_is_level_sum(((m - 1) / 242) as nat);
    }
}

/// The perfect tree of equal weights costs the weight times the even cost.
pub proof fn lemma_equal_weights(ws: Seq<u64>, w: u64)
    requires
        forall|i: int| 0 <= i < ws.len() ==> #[trigger] ws[i] == w,
    ensures
        perfect_cost(ws) == w * even_cost(ws.len()),
{
    lemma_heaviest_first(ws);
    let hs = heaviest_first(ws);
    sort::lemma_same_items(hs, ws);
    assert forall|i: int| 0 <= i < hs.len() implies #[trigger] hs[i] == w by {
        assert(hs.contains(hs[i]));
    }
    lemma_equal_tree(hs, w);
    lemma_even_cost_is_level_sum(ws.len());
}

proof fn lemma_equal_tree(ws: Seq<u64>, w: u64)
    requires
        forall|i: int| 0 <= i < ws.len() ==> #[trigger] ws[i] == w,
    ensures
        tree_cost(ws) == w * level_sum(ws.len()),
    decreases ws.len(),
{
    if ws.len() > 0 {
        let v = ws.drop_last();
        assert(forall|i: int| 0 <= i < v.len() ==> #[trigger] v[i] == ws[i]);
        lemma_equal_tree(v, w);
        let a = level_sum(v.len()) as int;
        let l = level(v.len()) as int;
        assert(w * (a + 1 + l) == w * a + w * (1 + l)) by (nonlinear_arith);
    } else {
        assert(w * 0 == 0);
    }
}

/// The cost of a perfect tree is at most the number of words times their weight.
pub proof fn lemma_tree_cost_bound(ws: Seq<u64>)
    ensures
        tree_cost(ws) <= ws.len() * total(ws),
    decreases ws.len(),
{
    if ws.len() > 0 {
        let v = ws.drop_last();
        let n = v.len() as int;
        lemma_tree_cost_bound(v);
        lemma_level_bound(v.len());
        let x = ws.last() as int;
        let t = total(v) as int;
        let l = level(v.len()) as int;
        assert(n * t + x * (1 + l) <= (n + 1) * (t + x)) by (nonlinear_arith)
            requires
                0 <= l <= n,
                0 <= t,
                0 <= x,
        ;
    }
}

proof fn lemma_tails_step_any(ws: Seq<u64>, d: nat)
    requires
        ws.len() > 0,
    ensures
        tails(ws, d) <= tails(ws.drop_last(), d) + ws.last() * if d < level(
            (ws.len() - 1) as nat,
        ) {
            d
        } else {
            level((ws.len() - 1) as nat)
        },
    decreases d,
{
    let n = (ws.len() - 1) as nat;
    let x = ws.last() as int;
    if d > 0 {
        let k = (d - 1) as nat;
        lemma_tails_step_any(ws, k);
        lemma_room_below_level(n, k);
        let r = room(k);
        if r <= n {
            assert(top(ws, r) >= top(ws.drop_last(), r));
            assert(x * (k + 1) == x * k + x) by (nonlinear_arith);
        } else {
            lemma_top_all(ws, r);
            lemma_top_all(ws.drop_last(), r);
        }
    } else {
        assert(x * 0 == 0);
    }
}

proof fn lemma_tree_cost_tails_any(ws: Seq<u64>, d: nat)
    requires
        d >= ws.len(),
    ensures
        tree_cost(ws) >= total(ws) + tails(ws, d),
    decreases ws.len(),
{
    if ws.len() == 0 {
        lemma_tails_empty(ws, d);
    } else {
        let n = (ws.len() - 1) as nat;
        let x = ws.last() as int;
        lemma_tree_cost_tails_any(ws.drop_last(), d);
        lemma_tails_step_any(ws, d);
        lemma_level_bound(n);
        assert(x * (1 + level(n)) == x + x * level(n)) by (nonlinear_arith);
    }
}

/// The heaviest words at the shallowest depths are the cheapest: no other order of the weights
/// in the perfect tree costs less.
pub proof fn law_heaviest_first_cheapest(ws: Seq<u64>)
    ensures
        perfect_cost(ws) <= tree_cost(ws),
{
    lemma_perfect_cost_tails(ws);
    lemma_tree_cost_tails_any(ws, ws.len());
}

/// A table for fewer words is the beginning of a table for more: an entry depends on its own index
/// only.
pub proof fn law_table_prefix(long: Seq<u64>, n: nat, short: Seq<u64>, k: nat)
    requires
        is_table(long, n),
        is_table(short, k),
        k <= n,
    ensures
        long.take(k as int + 1) == short,
{
    assert(long.take(k as int + 1) =~= short);
}

/// A tree costs at least one guess for each word.
pub proof fn lemma_tree_cost_total(ws: Seq<u64>)
    ensures
        tree_cost(ws) >= total(ws),
    decreases ws.len(),
{
    if ws.len() > 0 {
        lemma_tree_cost_total(ws.drop_last());
        let l = level((ws.len() - 1) as nat);
        assert(ws.last() as nat * (1 + l) >= ws.last()) by (nonlinear_arith);
    }
}

/// Where words stand in the perfect tree: 242 to the power of `d + 1` less one, divided by 241, of
/// them are found with at most `d + 1` guesses.
pub proof fn lemma_room_power(d: nat)
    ensures
        241 * room(d) == pow(242, d + 1) - 1,
    decreases d,
{
    reveal(pow);
    if d > 0 {
        lemma_room_power((d - 1) as nat);
        assert(pow(242, d + 1) == 242 * pow(242, d));
    } else {
        assert(pow(242, 0) == 1);
        assert(pow(242, 1) == 242 * pow(242, 0));
    }
}

/// Weights that descend are the heaviest first already.
proof fn lemma_descending(ws: Seq<u64>)
    requires
        forall|i: int, j: int| 0 <= i < j < ws.len() ==> ws[i] >= ws[j],
    ensures
        heaviest_first(ws) == ws,
{
    let up = ws.reverse();
    assert forall|i: int, j: int| 0 <= i < j < up.len() implies #[trigger] sort::Ordered::leq(
        up[i],
        #[trigger] up[j],
    ) by {
        assert(ws[ws.len() - 1 - j] >= ws[ws.len() - 1 - i]);
    }
    ws.lemma_reverse_to_multiset();
    sort::lemma_sorted_unique(ws, up);
    assert(up.reverse() =~= ws);
}

/// What the floor is. It does not depend on the order of the weights; no word costs nothing; and a
/// word that is no heavier than the others costs its weight times `d + 1`, where the others are at
/// least as many as a tree of `d` levels holds and fewer than one of `d + 1` levels: one word, then
/// 242 times as many on each level.
pub proof fn law_floor_grows(ws: Seq<u64>, x: u64, d: nat, other: Seq<u64>)
    requires
        forall|i: int, j: int| 0 <= i < j < ws.len() ==> ws[i] >= ws[j],
        forall|i: int| 0 <= i < ws.len() ==> #[trigger] ws[i] >= x,
        pow(242, d) - 1 <= 241 * ws.len() < pow(242, d + 1) - 1,
        other.to_multiset() == ws.push(x).to_multiset(),
    ensures
        perfect_cost(Seq::empty()) == 0,
        perfect_cost(ws.push(x)) == perfect_cost(ws) + x * (d + 1),
        perfect_cost(other) == perfect_cost(ws.push(x)),
{
    let more = ws.push(x);
    let none = Seq::<u64>::empty();
    lemma_descending(none);
    lemma_descending(ws);
    assert forall|i: int, j: int| 0 <= i < j < more.len() implies more[i] >= more[j] by {
        if j < ws.len() {
            assert(ws[i] >= ws[j]);
        } else {
            assert(ws[i] >= x);
        }
    }
    lemma_descending(more);
    lemma_room_power(d);
    if d > 0 {
        lemma_room_power((d - 1) as nat);
    }
    lemma_level_room(ws.len(), d);
    assert(more.drop_last() =~= ws);
    lemma_perfect_cost_tails(other);
    lemma_perfect_cost_tails(more);
    lemma_total_permuted(other, more);
    sort::lemma_same_items(other, more);
    lemma_tails_permuted(other, more, more.len());
}

/// What the even costs are: none for no word, one for one word, and for `m` words one for each and
/// the even costs of 242 parts of the others, as equal as they can be.
pub proof fn law_even_cost(m: nat, q: nat, r: nat)
    requires
        m >= 2 ==> m - 1 == 242 * q + r && r < 242,
    ensures
        even_cost(0) == 0,
        even_cost(1) == 1,
        m >= 2 ==> even_cost(m) == m + r * even_cost(q + 1) + (242 - r) * even_cost(q),
{
    if m >= 2 {
        assert((m - 1) / 242 == q && (m - 1) % 242 == r);
    }
}

} // verus!
