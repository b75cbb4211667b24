//! What play never exceeds: guessing the candidates one by one, the heaviest first.

use vstd::prelude::*;
use crate::admissible;
use crate::board;
use crate::board::Board;
use crate::bounds;
use crate::optimal;
use crate::parts;
use crate::sort;
use crate::words;

verus! {

/// The cost of guessing words of these weights one by one, in the order given.
pub open spec fn one_by_one(ws: Seq<u64>) -> nat
    decreases ws.len(),
{
    if ws.len() == 0 {
        0
    } else {
        one_by_one(ws.drop_last()) + ws.last() as nat * ws.len()
    }
}

/// The cost of guessing the words of each part one by one, for the labels below `n`.
spec fn parts_one_by_one(w: Seq<u64>, s: Seq<u32>, f: spec_fn(u32) -> int, n: nat) -> nat
    decreases n,
{
    if n == 0 {
        0
    } else {
        parts_one_by_one(w, s, f, (n - 1) as nat) + one_by_one(
            bounds::weights_of(w, s.filter(parts::labelled(f, n - 1))),
        )
    }
}

/// A word comes no later among those of its part than among all.
proof fn lemma_parts_step(w: Seq<u64>, s: Seq<u32>, f: spec_fn(u32) -> int, n: nat)
    requires
        s.len() > 0,
    ensures
        parts_one_by_one(w, s, f, n) <= parts_one_by_one(w, s.drop_last(), f, n) + if 0 <= f(
            s.last(),
        ) < n {
            w[s.last() as int] as nat * s.len()
        } else {
            0
        },
    decreases n,
{
    if n > 0 {
        lemma_parts_step(w, s, f, (n - 1) as nat);
        reveal(Seq::filter);
        let test = parts::labelled(f, n - 1);
        let part = s.drop_last().filter(test);
        if f(s.last()) == n - 1 {
            let now = bounds::weights_of(w, part.push(s.last()));
            assert(now.drop_last() =~= bounds::weights_of(w, part));
            s.drop_last().lemma_filter_len(test);
            let x = w[s.last() as int] as nat;
            let (a, c) = (now.len(), s.len());
            assert(x * a <= x * c) by (nonlinear_arith)
                requires
                    a <= c,
            ;
        }
    }
}

proof fn lemma_parts(w: Seq<u64>, s: Seq<u32>, f: spec_fn(u32) -> int, n: nat)
    ensures
        parts_one_by_one(w, s, f, n) <= one_by_one(bounds::weights_of(w, s)),
    decreases s.len(),
{
    let ws = bounds::weights_of(w, s);
    if s.len() == 0 {
        lemma_parts_none(w, s, f, n);
    } else {
        lemma_parts(w, s.drop_last(), f, n);
        lemma_parts_step(w, s, f, n);
        assert(ws.drop_last() =~= bounds::weights_of(w, s.drop_last()));
    }
}

proof fn lemma_parts_none(w: Seq<u64>, s: Seq<u32>, f: spec_fn(u32) -> int, n: nat)
    requires
        s.len() == 0,
    ensures
        parts_one_by_one(w, s, f, n) == 0,
    decreases n,
{
    if n > 0 {
        lemma_parts_none(w, s, f, (n - 1) as nat);
        reveal(Seq::filter);
        assert(bounds::weights_of(w, s.filter(parts::labelled(f, n - 1))).len() == 0);
    }
}

/// Guessing the first word first puts off all the others by one guess.
proof fn lemma_first(ws: Seq<u64>)
    requires
        ws.len() > 0,
    ensures
        one_by_one(ws) == bounds::total(ws) + one_by_one(ws.drop_first()),
    decreases ws.len(),
{
    let rest = ws.drop_first();
    if ws.len() == 1 {
        assert(ws.drop_last().len() == 0);
        assert(bounds::total(ws.drop_last()) == 0);
        assert(rest.len() == 0);
        assert(one_by_one(ws.drop_last()) == 0);
        assert(ws.last() as nat * ws.len() == ws.last()) by (nonlinear_arith)
            requires
                ws.len() == 1,
        ;
        assert(bounds::total(ws) == ws.last());
        assert(one_by_one(rest) == 0);
    } else {
        lemma_first(ws.drop_last());
        assert(ws.drop_last().drop_first() =~= rest.drop_last());
        let x = ws.last() as nat;
        let n = ws.len() as int;
        assert(rest.last() == ws.last() && rest.len() == n - 1);
        assert(x * n == x + x * (n - 1)) by (nonlinear_arith);
        assert(one_by_one(ws) == one_by_one(ws.drop_last()) + x * n);
        assert(one_by_one(rest) == one_by_one(rest.drop_last()) + x * (n - 1));
    }
}

/// The best cost is at most that of guessing the candidates one by one, in any order `t`.
proof fn lemma_arranged(b: Board, s: Seq<u32>, t: Seq<u32>, root: bool)
    requires
        b.valid(),
        b.columns(s),
        b.distinct(s),
        s.len() >= 1,
        s.to_multiset() == t.to_multiset(),
    ensures
        b.best(s, root).0 matches Some(x) && x <= one_by_one(optimal::weights(b, t)),
    decreases s.len(), 1nat, 0nat,
{
    sort::lemma_same_items(s, t);
    assert(t.contains(t[0]));
    assert(s.contains(t[0]));
    let k = choose|k: int| 0 <= k < s.len() && s[k] == t[0];
    let g = b.home(t[0]) as int;
    let f = b.label(g);
    let rest = t.drop_first();
    optimal::lemma_home(b, t[0]);
    words::lemma_pattern(b.guesses[g]@, b.answers[t[0] as int]@);
    lemma_rest(b, s, t, 243);
    lemma_parts(b.weights, rest, f, 243);
    lemma_first(optimal::weights(b, t));
    assert(optimal::weights(b, t).drop_first() =~= optimal::weights(b, rest));
    parts::lemma_weights_permuted(b.weights, s, t);
    bounds::lemma_total_permuted(optimal::weights(b, s), optimal::weights(b, t));
    admissible::law_search_exact(b, s, root);
    admissible::law_progress(b, s, root);
    let i = if root {
        g
    } else {
        k
    };
    assert(b.universe(s, root)[i] as int == g);
    assert(!board::less(b.cost(b.universe(s, root)[i] as int, s), b.best(s, root).0));
}

/// What the first of the candidates leaves costs at most as much as guessing it one by one.
proof fn lemma_rest(b: Board, s: Seq<u32>, t: Seq<u32>, n: nat)
    requires
        b.valid(),
        b.columns(s),
        b.distinct(s),
        s.len() >= 1,
        s.to_multiset() == t.to_multiset(),
        n <= 243,
    ensures
        b.rest(b.home(t[0]) as int, s, n) matches Some(y) && y <= parts_one_by_one(
            b.weights,
            t.drop_first(),
            b.label(b.home(t[0]) as int),
            n,
        ),
    decreases s.len(), 0nat, n,
{
    if n > 0 {
        lemma_rest(b, s, t, (n - 1) as nat);
        sort::lemma_same_items(s, t);
        assert(t.contains(t[0]));
        assert(s.contains(t[0]));
        let k = choose|k: int| 0 <= k < s.len() && s[k] == t[0];
        let g = b.home(t[0]) as int;
        let p = n - 1;
        let sub = b.bucket(g, s, p);
        optimal::lemma_home(b, t[0]);
        if p != words::GREEN && sub.len() > 0 {
            optimal::lemma_bucket(b, g, s, p);
            admissible::lemma_distinct_bucket(b, g, s, p);
            admissible::lemma_bucket_smaller(b, s, k, p);
            lemma_bucket_arranged(b, s, t, p);
            lemma_arranged(
                b,
                sub,
                t.drop_first().filter(parts::labelled(b.label(g), p)),
                false,
            );
        }
    }
}

/// The buckets of the first of the candidates, in the order of all.
proof fn lemma_bucket_arranged(b: Board, s: Seq<u32>, t: Seq<u32>, p: int)
    requires
        b.valid(),
        t.len() >= 1,
        t[0] < b.answers.len(),
        s.to_multiset() == t.to_multiset(),
        p != words::GREEN,
    ensures
        ({
            let g = b.home(t[0]) as int;
            b.bucket(g, s, p).to_multiset() == t.drop_first().filter(
                parts::labelled(b.label(g), p),
            ).to_multiset()
        }),
{
    let g = b.home(t[0]) as int;
    let test = parts::labelled(b.label(g), p);
    let one = seq![t[0]];
    let rest = t.drop_first();
    optimal::lemma_home(b, t[0]);
    words::lemma_pattern(b.guesses[g]@, b.answers[t[0] as int]@);
    sort::lemma_sorted(s);
    parts::lemma_filter_permuted(sort::sorted(s), t, test);
    assert(t =~= one + rest);
    Seq::filter_distributes_over_add(one, rest, test);
    assert(!test(one[0]));
    optimal::lemma_filter_misses(one, test, 0);
    assert(t.filter(test) =~= rest.filter(test));
}

/// Columns can be put in the order of any order of their weights.
proof fn lemma_arrange(w: Seq<u64>, s: Seq<u32>, ws: Seq<u64>) -> (t: Seq<u32>)
    requires
        ws.to_multiset() == bounds::weights_of(w, s).to_multiset(),
    ensures
        t.to_multiset() == s.to_multiset(),
        bounds::weights_of(w, t) == ws,
    decreases s.len(),
{
    broadcast use vstd::seq_lib::group_to_multiset_ensures;

    let all = bounds::weights_of(w, s);
    sort::lemma_same_items(ws, all);
    if s.len() == 0 {
        assert(all =~= ws);
        s
    } else {
        assert(ws[ws.len() - 1] == ws.last());
        assert(ws.contains(ws.last()));
        let k = choose|k: int| 0 <= k < all.len() && all[k] == ws.last();
        assert(bounds::weights_of(w, s.remove(k)) =~= all.remove(k));
        assert(ws.remove(ws.len() - 1) =~= ws.drop_last());
        assert(ws.drop_last().to_multiset() =~= all.remove(k).to_multiset());
        let u = lemma_arrange(w, s.remove(k), ws.drop_last());
        let t = u.push(s[k]);
        assert(t.to_multiset() =~= s.to_multiset()) by {
            assert(s.to_multiset() =~= s.remove(k).to_multiset().insert(s[k]));
        }
        assert(bounds::weights_of(w, t).drop_last() =~= bounds::weights_of(w, u));
        assert(bounds::weights_of(w, t).last() == all[k]);
        assert(bounds::weights_of(w, t) =~= ws.drop_last().push(ws.last()));
        t
    }
}

/// Where the cost of a set lies: at least at the floor, which is at least one guess for each word,
/// and at most at the cost of guessing the candidates one by one, the heaviest first.
pub proof fn law_best_between(b: Board, s: Seq<u32>, root: bool)
    requires
        b.valid(),
        b.columns(s),
        b.distinct(s),
        s.len() >= 1,
    ensures
        b.wsum(s) <= b.floor(s),
        b.best(s, root).0 matches Some(x) && b.floor(s) <= x <= one_by_one(
            bounds::heaviest_first(optimal::weights(b, s)),
        ),
{
    let ws = optimal::weights(b, s);
    bounds::lemma_heaviest_first(ws);
    let t = lemma_arrange(b.weights, s, bounds::heaviest_first(ws));
    lemma_arranged(b, s, t, root);
    admissible::law_floor_admissible(b, s);
}

/// With equal weights, play takes at most half as many guesses as there are candidates and one.
pub proof fn law_best_at_most_half(b: Board, s: Seq<u32>, w: u64, root: bool)
    requires
        b.valid(),
        b.columns(s),
        b.distinct(s),
        s.len() >= 1,
        forall|i: int| 0 <= i < s.len() ==> b.weights[#[trigger] s[i] as int] == w,
    ensures
        b.best(s, root).0 matches Some(x) && 2 * x <= b.wsum(s) * (s.len() + 1),
{
    lemma_arranged(b, s, s, root);
    lemma_equal(optimal::weights(b, s), w);
}

proof fn lemma_equal(ws: Seq<u64>, w: u64)
    requires
        forall|i: int| 0 <= i < ws.len() ==> #[trigger] ws[i] == w,
    ensures
        bounds::total(ws) == w * ws.len(),
        2 * one_by_one(ws) == bounds::total(ws) * (ws.len() + 1),
    decreases ws.len(),
{
    if ws.len() > 0 {
        let t = ws.drop_last();
        assert forall|i: int| 0 <= i < t.len() implies #[trigger] t[i] == w by {
            assert(t[i] == ws[i]);
        }
        lemma_equal(t, w);
        assert(ws[ws.len() - 1] == w);
        let n = ws.len() as int;
        let x = w as int;
        assert(x * (n - 1) + x == x * n) by (nonlinear_arith);
        assert((x * (n - 1)) * n + 2 * (x * n) == (x * n) * (n + 1)) by (nonlinear_arith);
    } else {
        assert(w * 0 == 0);
    }
}

} // verus!
