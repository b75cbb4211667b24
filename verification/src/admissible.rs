//! No way to play undercuts the perfect tree.

use vstd::prelude::*;
use crate::board::{Board, Rated};
use crate::board;
use crate::bounds;
use crate::optimal;
use crate::parts;
use crate::solver;
use crate::sort;
use crate::sort::Ordered;
use crate::words;

verus! {

/// Over the patterns below `n`: the weight of each part, and what must lie below each of its
/// first `d` levels.
pub open spec fn parts_tails(
    w: Seq<u64>,
    s: Seq<u32>,
    f: spec_fn(u32) -> int,
    d: nat,
    n: nat,
) -> int
    decreases n,
{
    if n == 0 {
        0
    } else {
        let ws = bounds::weights_of(w, s.filter(parts::labelled(f, n - 1)));
        parts_tails(w, s, f, d, (n - 1) as nat) + bounds::total(ws) + bounds::tails(ws, d)
    }
}

proof fn lemma_parts_tails_step(
    w: Seq<u64>,
    s: Seq<u32>,
    f: spec_fn(u32) -> int,
    d: nat,
    caps: spec_fn(int) -> nat,
    n: nat,
)
    requires
        n <= 242,
        forall|p: int| 0 <= p < 242 ==> #[trigger] caps(p) == bounds::room(d),
    ensures
        parts_tails(w, s, f, d + 1, n) == parts_tails(w, s, f, d, n) + parts::parts_total(
            w,
            s,
            f,
            n,
        ) - parts::parts_top(w, s, f, caps, n),
        parts_tails(w, s, f, 0, n) == parts::parts_total(w, s, f, n),
        parts::caps_total(caps, n) == n * bounds::room(d),
    decreases n,
{
    if n > 0 {
        lemma_parts_tails_step(w, s, f, d, caps, (n - 1) as nat);
        assert(caps(n - 1) == bounds::room(d));
        let r = bounds::room(d) as int;
        assert(n * r == (n - 1) * r + r) by (nonlinear_arith);
    } else {
        assert(0 * bounds::room(d) == 0);
    }
}

/// One for five greens, and as many for every other pattern as `d + 1` levels hold.
spec fn level_caps(d: nat) -> spec_fn(int) -> nat {
    |p: int|
        if p == words::GREEN {
            1nat
        } else {
            bounds::room(d)
        }
}

spec fn green_cap() -> spec_fn(int) -> nat {
    |p: int|
        if p == words::GREEN {
            1nat
        } else {
            0nat
        }
}

proof fn lemma_green_cap(w: Seq<u64>, s: Seq<u32>, f: spec_fn(u32) -> int, n: nat)
    requires
        n <= 242,
    ensures
        parts::caps_total(green_cap(), n) == 0,
        parts::parts_top(w, s, f, green_cap(), n) == 0,
    decreases n,
{
    if n > 0 {
        lemma_green_cap(w, s, f, (n - 1) as nat);
    }
}

/// If at most one column is green, what must lie below the levels of the whole lies below the
/// levels of its parts, one level up.
proof fn lemma_tails_split(w: Seq<u64>, s: Seq<u32>, f: spec_fn(u32) -> int, d: nat)
    requires
        forall|i: int| 0 <= i < s.len() ==> 0 <= f(#[trigger] s[i]) < 243,
        s.filter(parts::labelled(f, 242)).len() <= 1,
    ensures
        bounds::tails(bounds::weights_of(w, s), d + 1) <= parts_tails(w, s, f, d, 242),
    decreases d,
{
    let ws = bounds::weights_of(w, s);
    let green = bounds::weights_of(w, s.filter(parts::labelled(f, 242)));
    bounds::lemma_top_all(green, 1);
    parts::lemma_parts(w, s, f, 243);
    assert(parts::parts_total(w, s, f, 243) == parts::parts_total(w, s, f, 242) + bounds::total(
        green,
    ));
    if d == 0 {
        let caps = green_cap();
        lemma_green_cap(w, s, f, 242);
        parts::lemma_parts_top(w, s, f, caps, 243);
        assert(parts::parts_top(w, s, f, caps, 243) == bounds::total(green));
        assert(parts::caps_total(caps, 243) == 1);
        assert(bounds::tails(ws, 1) == bounds::tails(ws, 0) + bounds::total(ws) - bounds::top(
            ws,
            bounds::room(0),
        ));
        lemma_parts_tails_step(w, s, f, 0, level_caps(0), 242);
    } else {
        let e = (d - 1) as nat;
        lemma_tails_split(w, s, f, e);
        let caps = level_caps(e);
        lemma_parts_tails_step(w, s, f, e, caps, 242);
        parts::lemma_parts_top(w, s, f, caps, 243);
        assert(parts::parts_top(w, s, f, caps, 243) == parts::parts_top(w, s, f, caps, 242)
            + bounds::total(green));
        assert(parts::caps_total(caps, 243) == 242 * bounds::room(e) + 1);
        assert(bounds::room(d) == 1 + 242 * bounds::room(e));
        assert(bounds::tails(ws, d + 1) == bounds::tails(ws, d) + bounds::total(ws) - bounds::top(
            ws,
            bounds::room(d),
        ));
    }
}

/// Among different words at most one is five greens after a guess.
pub proof fn lemma_one_green(b: Board, g: int, s: Seq<u32>)
    requires
        b.columns(s),
        b.distinct(s),
    ensures
        b.part(g, s, words::GREEN as int).len() <= 1,
    decreases s.len(),
{
    reveal(Seq::filter);
    if s.len() > 0 {
        let t = s.drop_last();
        let f = parts::labelled(b.label(g), words::GREEN as int);
        assert(b.columns(t)) by {
            assert forall|i: int| 0 <= i < t.len() implies #[trigger] t[i] < b.answers.len() by {
                assert(t[i] == s[i]);
            }
        }
        assert(b.distinct(t)) by {
            assert forall|i: int, j: int| 0 <= i < j < t.len() implies b.answers[
                #[trigger] t[i] as int] != b.answers[#[trigger] t[j] as int] by {
                assert(t[i] == s[i] && t[j] == s[j]);
            }
        }
        lemma_one_green(b, g, t);
        if f(s.last()) && b.part(g, t, words::GREEN as int).len() > 0 {
            let k = b.part(g, t, words::GREEN as int);
            assert(k.contains(k[0]));
            optimal::lemma_filter_members(t, f);
            let i = choose|i: int| 0 <= i < t.len() && t[i] == k[0];
            let j = s.len() - 1;
            let w = b.guesses[g]@;
            words::lemma_pattern(w, b.answers[s[i] as int]@);
            words::lemma_pattern(w, b.answers[s[j] as int]@);
            assert(b.answers[s[i] as int]@ == b.answers[s[j] as int]@);
            assert(b.answers[s[i] as int] == b.answers[s[j] as int]);
        }
    }
}

/// Different words stay different words when they are sorted.
pub proof fn lemma_distinct_sorted(b: Board, s: Seq<u32>)
    requires
        b.distinct(s),
    ensures
        b.distinct(sort::sorted(s)),
{
    let t = sort::sorted(s);
    sort::lemma_sorted(s);
    assert(s.no_duplicates());
    s.lemma_multiset_has_no_duplicates();
    t.lemma_multiset_has_no_duplicates_conv();
    assert forall|i: int, j: int| 0 <= i < j < t.len() implies b.answers[#[trigger] t[i] as int]
        != b.answers[#[trigger] t[j] as int] by {
        assert(t.contains(t[i]) && t.contains(t[j]));
        let k = choose|k: int| 0 <= k < s.len() && s[k] == t[i];
        let l = choose|l: int| 0 <= l < s.len() && s[l] == t[j];
        assert(t[i] != t[j]);
        assert(k != l);
        if k < l {
            assert(b.answers[s[k] as int] != b.answers[s[l] as int]);
        } else {
            assert(b.answers[s[l] as int] != b.answers[s[k] as int]);
        }
    }
}

proof fn lemma_distinct_filter(b: Board, s: Seq<u32>, f: spec_fn(u32) -> bool)
    requires
        b.distinct(s),
    ensures
        b.distinct(s.filter(f)),
    decreases s.len(),
{
    reveal(Seq::filter);
    if s.len() > 0 {
        let t = s.drop_last();
        assert(b.distinct(t)) by {
            assert forall|i: int, j: int| 0 <= i < j < t.len() implies b.answers[
                #[trigger] t[i] as int] != b.answers[#[trigger] t[j] as int] by {
                assert(t[i] == s[i] && t[j] == s[j]);
            }
        }
        lemma_distinct_filter(b, t, f);
        let k = t.filter(f);
        let r = s.filter(f);
        assert forall|i: int, j: int| 0 <= i < j < r.len() implies b.answers[#[trigger] r[i] as int]
            != b.answers[#[trigger] r[j] as int] by {
            if j < k.len() {
                assert(r[i] == k[i] && r[j] == k[j]);
            } else {
                assert(k.contains(k[i]));
                optimal::lemma_filter_members(t, f);
                let l = choose|l: int| 0 <= l < t.len() && t[l] == k[i];
                assert(s[l] == r[i]);
                assert(s[s.len() - 1] == r[j]);
            }
        }
    }
}

/// The candidates of a bucket are different words if all candidates are.
pub proof fn lemma_distinct_bucket(b: Board, g: int, s: Seq<u32>, p: int)
    requires
        b.distinct(s),
    ensures
        b.distinct(b.bucket(g, s, p)),
{
    lemma_distinct_sorted(b, s);
    lemma_distinct_filter(b, sort::sorted(s), parts::labelled(b.label(g), p));
}

proof fn lemma_tails_one(ws: Seq<u64>, d: nat)
    requires
        ws.len() <= 1,
    ensures
        bounds::tails(ws, d) == 0,
    decreases d,
{
    if d > 0 {
        lemma_tails_one(ws, (d - 1) as nat);
        bounds::lemma_top_all(ws, bounds::room((d - 1) as nat));
    }
}

/// Among different words, the cost of play is at least the weight and what must lie below each
/// of the first `d` levels.
pub proof fn lemma_best_tails(b: Board, s: Seq<u32>, root: bool, d: nat)
    requires
        b.valid(),
        b.columns(s),
        b.distinct(s),
        s.len() >= 1,
    ensures
        b.best(s, root).0 matches Some(x) ==> x >= b.wsum(s) + bounds::tails(
            optimal::weights(b, s),
            d,
        ),
    decreases s.len(), 2nat, 0nat,
{
    if s.len() == 1 {
        lemma_tails_one(optimal::weights(b, s), d);
    } else {
        let list = b.universe(s, root);
        let order = b.ranking(s, list);
        if b.best(s, root).0 is Some {
            let k = optimal::lemma_search_found(b, s, order, order.len());
            optimal::lemma_ranking(b, s, list);
            optimal::lemma_universe(b, s, root);
            assert(list.contains(order[k].guess));
            lemma_cost_tails(b, order[k].guess as int, s, d);
        }
    }
}

proof fn lemma_cost_tails(b: Board, g: int, s: Seq<u32>, d: nat)
    requires
        b.valid(),
        b.legal(g),
        b.columns(s),
        b.distinct(s),
        s.len() >= 1,
    ensures
        b.cost(g, s) matches Some(x) ==> x >= b.wsum(s) + bounds::tails(
            optimal::weights(b, s),
            d,
        ),
    decreases s.len(), 1nat, 0nat,
{
    if b.cost(g, s) is Some && d > 0 {
        let t = sort::sorted(s);
        let e = (d - 1) as nat;
        let f = b.label(g);
        sort::lemma_sorted(s);
        lemma_distinct_sorted(b, s);
        assert(b.columns(t)) by {
            assert forall|i: int| 0 <= i < t.len() implies #[trigger] t[i] < b.answers.len() by {
                assert(t.contains(t[i]));
                assert(s.contains(t[i]));
            }
        }
        assert forall|i: int| 0 <= i < t.len() implies 0 <= f(#[trigger] t[i]) < 243 by {
            words::lemma_pattern(b.guesses[g]@, b.answers[t[i] as int]@);
        }
        lemma_one_green(b, g, t);
        lemma_rest_tails(b, g, s, e, 242);
        assert(b.rest(g, s, 243) == b.rest(g, s, 242));
        lemma_tails_split(b.weights, t, f, e);
        parts::lemma_weights_permuted(b.weights, t, s);
        bounds::lemma_tails_permuted(optimal::weights(b, t), optimal::weights(b, s), d);
    }
}

proof fn lemma_rest_tails(b: Board, g: int, s: Seq<u32>, d: nat, n: nat)
    requires
        b.valid(),
        b.legal(g),
        b.columns(s),
        b.distinct(s),
        s.len() >= 1,
        n <= 242,
    ensures
        b.rest(g, s, n) matches Some(y) ==> y >= parts_tails(
            b.weights,
            sort::sorted(s),
            b.label(g),
            d,
            n,
        ),
    decreases s.len(), 0nat, n,
{
    if n > 0 {
        lemma_rest_tails(b, g, s, d, (n - 1) as nat);
        let sub = b.bucket(g, s, n - 1);
        if sub.len() == 0 {
            lemma_tails_one(optimal::weights(b, sub), d);
        } else if sub.len() < s.len() {
            optimal::lemma_bucket(b, g, s, n - 1);
            lemma_distinct_bucket(b, g, s, n - 1);
            lemma_best_tails(b, sub, false, d);
        }
    }
}

/// The floor is admissible: among different words no guess, and so no way to play, costs less
/// than the perfect tree with the heaviest words at the shallowest depths. It is at least one
/// guess for each word.
pub proof fn law_floor_admissible(b: Board, s: Seq<u32>)
    requires
        b.valid(),
        b.columns(s),
        b.distinct(s),
        s.len() >= 1,
    ensures
        b.wsum(s) <= b.floor(s),
        forall|g: int|
            b.legal(g) ==> match #[trigger] b.cost(g, s) {
                Some(x) => b.floor(s) <= x,
                None => true,
            },
        forall|root: bool|
            match #[trigger] b.best(s, root).0 {
                Some(x) => b.floor(s) <= x,
                None => true,
            },
{
    bounds::lemma_heaviest_first(optimal::weights(b, s));
    bounds::lemma_tree_cost_total(bounds::heaviest_first(optimal::weights(b, s)));
    bounds::lemma_perfect_cost_tails(optimal::weights(b, s));
    assert forall|g: int| b.legal(g) implies match #[trigger] b.cost(g, s) {
        Some(x) => b.floor(s) <= x,
        None => true,
    } by {
        lemma_cost_tails(b, g, s, s.len());
    }
    assert forall|root: bool| match #[trigger] b.best(s, root).0 {
        Some(x) => b.floor(s) <= x,
        None => true,
    } by {
        lemma_best_tails(b, s, root, s.len());
    }
}

/// A search whose floor is admissible finds the least cost of the guesses that it went through.
proof fn lemma_search_least(b: Board, s: Seq<u32>, order: Seq<Rated>, n: nat)
    requires
        n <= order.len(),
        forall|k: int|
            0 <= k < order.len() ==> match b.cost((#[trigger] order[k]).guess as int, s) {
                Some(x) => b.floor(s) <= x,
                None => true,
            },
    ensures
        forall|k: int|
            0 <= k < n ==> !board::less(
                b.cost((#[trigger] order[k]).guess as int, s),
                b.search(s, order, n).0,
            ),
    decreases n,
{
    if n > 0 {
        lemma_search_least(b, s, order, (n - 1) as nat);
        assert(match b.cost(order[n - 1].guess as int, s) {
            Some(x) => b.floor(s) <= x,
            None => true,
        });
    }
}

/// A guess that tells no two candidates apart has no bounded cost, unless it solves the only one.
pub proof fn lemma_useless(b: Board, g: int, s: Seq<u32>)
    requires
        b.valid(),
        b.legal(g),
        b.columns(s),
        b.distinct(s),
        s.len() >= 2,
        !b.useful(g, s),
    ensures
        b.cost(g, s) is None,
{
    let p = choose|p: int| 0 <= p < 243 && #[trigger] b.part(g, s, p).len() == s.len();
    lemma_one_green(b, g, s);
    optimal::lemma_bucket(b, g, s, p);
    assert(p != words::GREEN);
    lemma_rest_none(b, g, s, p, 243);
}

/// A bucket that holds all candidates leaves no bounded cost.
pub proof fn lemma_rest_none(b: Board, g: int, s: Seq<u32>, p: int, n: nat)
    requires
        0 <= p < n,
        p != words::GREEN,
        b.bucket(g, s, p).len() >= s.len(),
        s.len() >= 1,
    ensures
        b.rest(g, s, n) is None,
    decreases n,
{
    if p < n - 1 {
        lemma_rest_none(b, g, s, p, (n - 1) as nat);
    }
}

/// The search is exact: among different words its cost is the least over all guesses of the
/// universe, and it is the cost of the guess that it returns.
pub proof fn law_search_exact(b: Board, s: Seq<u32>, root: bool)
    requires
        b.valid(),
        b.columns(s),
        b.distinct(s),
        s.len() >= 1,
    ensures
        forall|i: int|
            0 <= i < b.universe(s, root).len() ==> !board::less(
                b.cost(#[trigger] b.universe(s, root)[i] as int, s),
                b.best(s, root).0,
            ),
        b.best(s, root).0 is Some ==> b.universe(s, root).contains(b.best(s, root).1) && b.cost(
            b.best(s, root).1 as int,
            s,
        ) == b.best(s, root).0,
{
    let list = b.universe(s, root);
    law_floor_admissible(b, s);
    optimal::lemma_universe(b, s, root);
    if s.len() == 1 {
        let g = b.home(s[0]);
        optimal::lemma_home(b, s[0]);
        optimal::lemma_last_guess(b, s, 243);
        assert(list[if root {
            g as int
        } else {
            0
        }] == g);
    } else {
        lemma_search_exact(b, s, root);
    }
}

proof fn lemma_search_exact(b: Board, s: Seq<u32>, root: bool)
    requires
        b.valid(),
        b.columns(s),
        b.distinct(s),
        s.len() >= 2,
    ensures
        forall|i: int|
            0 <= i < b.universe(s, root).len() ==> !board::less(
                b.cost(#[trigger] b.universe(s, root)[i] as int, s),
                b.best(s, root).0,
            ),
        b.best(s, root).0 is Some ==> b.universe(s, root).contains(b.best(s, root).1) && b.cost(
            b.best(s, root).1 as int,
            s,
        ) == b.best(s, root).0,
{
    let list = b.universe(s, root);
    let order = b.ranking(s, list);
    law_floor_admissible(b, s);
    optimal::lemma_universe(b, s, root);
    optimal::lemma_ranking(b, s, list);
    assert forall|k: int| 0 <= k < order.len() implies match b.cost(
        (#[trigger] order[k]).guess as int,
        s,
    ) {
        Some(x) => b.floor(s) <= x,
        None => true,
    } by {
        assert(list.contains(order[k].guess));
    }
    lemma_search_least(b, s, order, order.len());
    assert forall|i: int| 0 <= i < list.len() implies !board::less(
        b.cost(#[trigger] list[i] as int, s),
        b.best(s, root).0,
    ) by {
        if b.useful(list[i] as int, s) {
            assert(order.contains(b.rate(s, list, i)));
            let k = choose|k: int| 0 <= k < order.len() && order[k] == b.rate(s, list, i);
            assert(order[k].guess == list[i]);
        } else {
            lemma_useless(b, list[i] as int, s);
        }
    }
    if b.best(s, root).0 is Some {
        let k = optimal::lemma_search_found(b, s, order, order.len());
        assert(list.contains(order[k].guess));
    }
}

/// Guessing a candidate makes progress: among different words the cost has a bound.
pub proof fn lemma_candidate_finite(b: Board, s: Seq<u32>, i: int)
    requires
        b.valid(),
        b.columns(s),
        b.distinct(s),
        0 <= i < s.len(),
    ensures
        b.cost(b.home(s[i]) as int, s) is Some,
    decreases s.len(), 1nat, 0nat,
{
    lemma_candidate_rest(b, s, i, 243);
}

proof fn lemma_candidate_rest(b: Board, s: Seq<u32>, i: int, n: nat)
    requires
        b.valid(),
        b.columns(s),
        b.distinct(s),
        0 <= i < s.len(),
        n <= 243,
    ensures
        b.rest(b.home(s[i]) as int, s, n) is Some,
    decreases s.len(), 0nat, n,
{
    let g = b.home(s[i]) as int;
    if n > 0 {
        lemma_candidate_rest(b, s, i, (n - 1) as nat);
        let sub = b.bucket(g, s, n - 1);
        if n - 1 != words::GREEN && sub.len() > 0 {
            optimal::lemma_bucket(b, g, s, n - 1);
            lemma_distinct_bucket(b, g, s, n - 1);
            lemma_bucket_smaller(b, s, i, n - 1);
            law_progress(b, sub, false);
        }
    }
}

/// A candidate is not in the other buckets of its own guess.
pub proof fn lemma_bucket_smaller(b: Board, s: Seq<u32>, i: int, p: int)
    requires
        b.valid(),
        b.columns(s),
        0 <= i < s.len(),
        p != words::GREEN,
    ensures
        b.bucket(b.home(s[i]) as int, s, p).len() < s.len(),
        b.part(b.home(s[i]) as int, s, p).len() < s.len(),
{
    let g = b.home(s[i]) as int;
    optimal::lemma_home(b, s[i]);
    words::lemma_pattern(b.guesses[g]@, b.answers[s[i] as int]@);
    assert(b.pattern(g, s[i] as int) == words::GREEN);
    let f = parts::labelled(b.label(g), p);
    optimal::lemma_filter_misses(s, f, i);
    optimal::lemma_bucket(b, g, s, p);
}

/// Play always makes progress: among different words the expected number of guesses has a bound.
pub proof fn law_progress(b: Board, s: Seq<u32>, root: bool)
    requires
        b.valid(),
        b.columns(s),
        b.distinct(s),
        s.len() >= 1,
    ensures
        b.best(s, root).0 is Some,
    decreases s.len(), 2nat, 0nat,
{
    if s.len() >= 2 {
        let g = b.home(s[0]);
        let list = b.universe(s, root);
        lemma_candidate_finite(b, s, 0);
        optimal::lemma_home(b, s[0]);
        law_search_exact(b, s, root);
        let i = if root {
            g as int
        } else {
            0
        };
        assert(list[i] == g);
        assert(!board::less(b.cost(list[i] as int, s), b.best(s, root).0));
    }
}

/// Among different words, what the search returns is optimal.
pub proof fn law_best_is_optimal(b: Board, s: Seq<u32>, root: bool)
    requires
        b.valid(),
        b.columns(s),
        b.distinct(s),
        s.len() >= 1,
    ensures
        b.optimal(s, root, b.best(s, root)),
{
    law_search_exact(b, s, root);
    law_progress(b, s, root);
}

/// Looking through every legal guess is never worse than looking through the candidates only,
/// and no legal guess is better than the one it finds.
pub proof fn law_full_search_no_worse(b: Board, s: Seq<u32>)
    requires
        b.valid(),
        b.columns(s),
        b.distinct(s),
        s.len() >= 1,
    ensures
        !board::less(b.best(s, false).0, b.best(s, true).0),
        forall|g: int| b.legal(g) ==> !board::less(#[trigger] b.cost(g, s), b.best(s, true).0),
{
    law_search_exact(b, s, true);
    law_search_exact(b, s, false);
    law_progress(b, s, false);
    optimal::lemma_universe(b, s, false);
    let all = b.universe(s, true);
    assert forall|g: int| b.legal(g) implies !board::less(
        #[trigger] b.cost(g, s),
        b.best(s, true).0,
    ) by {
        assert(all[g] as int == g);
    }
    let list = b.universe(s, false);
    assert(list.contains(b.best(s, false).1));
    let i = choose|i: int| 0 <= i < list.len() && list[i] == b.best(s, false).1;
    assert(b.legal(list[i] as int));
}

/// The even bound is admissible under a uniform prior: where all candidates are different words
/// of one weight, no way to play them costs less than the weight times the even cost.
pub proof fn law_even_cost_admissible(b: Board, s: Seq<u32>, w: u64, root: bool)
    requires
        b.valid(),
        b.columns(s),
        b.distinct(s),
        s.len() >= 1,
        forall|i: int| 0 <= i < s.len() ==> b.weights[#[trigger] s[i] as int] == w,
    ensures
        b.best(s, root).0 matches Some(x) && w * bounds::even_cost(s.len()) <= x,
{
    law_floor_admissible(b, s);
    law_progress(b, s, root);
    bounds::lemma_equal_weights(optimal::weights(b, s), w);
}

/// The bound that guesses are ranked by is admissible under a uniform prior: where all candidates
/// are different words of one weight, a guess costs at least one for each candidate and the even
/// cost of each bucket, times the weight.
pub proof fn law_guess_bound_admissible(b: Board, g: int, s: Seq<u32>, w: u64)
    requires
        b.valid(),
        b.legal(g),
        b.columns(s),
        b.distinct(s),
        s.len() >= 1,
        forall|i: int| 0 <= i < s.len() ==> b.weights[#[trigger] s[i] as int] == w,
    ensures
        b.cost(g, s) matches Some(x) ==> w * (s.len() + b.even_bound(g, s, 243)) <= x,
{
    lemma_rest_even(b, g, s, w, 243);
    let n = s.len() as int;
    let e = b.even_bound(g, s, 243) as int;
    assert(w * (n + e) == w * n + w * e) by (nonlinear_arith);
    lemma_equal_total(optimal::weights(b, s), w);
}

proof fn lemma_equal_total(ws: Seq<u64>, w: u64)
    requires
        forall|i: int| 0 <= i < ws.len() ==> #[trigger] ws[i] == w,
    ensures
        bounds::total(ws) == w * ws.len(),
    decreases ws.len(),
{
    if ws.len() > 0 {
        let v = ws.drop_last();
        assert(forall|i: int| 0 <= i < v.len() ==> #[trigger] v[i] == ws[i]);
        lemma_equal_total(v, w);
        let n = v.len() as int;
        assert(w * (n + 1) == w * n + w) by (nonlinear_arith);
    } else {
        assert(w * 0 == 0);
    }
}

proof fn lemma_rest_even(b: Board, g: int, s: Seq<u32>, w: u64, n: nat)
    requires
        b.valid(),
        b.legal(g),
        b.columns(s),
        b.distinct(s),
        s.len() >= 1,
        forall|i: int| 0 <= i < s.len() ==> b.weights[#[trigger] s[i] as int] == w,
    ensures
        b.rest(g, s, n) matches Some(y) ==> w * b.even_bound(g, s, n) <= y,
    decreases n,
{
    if n > 0 {
        let m = (n - 1) as nat;
        lemma_rest_even(b, g, s, w, m);
        let sub = b.bucket(g, s, n - 1);
        optimal::lemma_bucket(b, g, s, n - 1);
        if n - 1 != words::GREEN {
            let e = b.even_bound(g, s, m) as int;
            let c = bounds::even_cost(sub.len()) as int;
            assert(w * (e + c) == w * e + w * c) by (nonlinear_arith);
            if sub.len() == 0 {
                assert(w * 0 == 0);
            } else if sub.len() < s.len() {
                lemma_distinct_bucket(b, g, s, n - 1);
                assert forall|i: int| 0 <= i < sub.len() implies b.weights[
                    #[trigger] sub[i] as int] == w by {
                    assert(s.contains(sub[i]));
                }
                law_even_cost_admissible(b, sub, w, false);
            }
        }
    } else {
        assert(w * 0 == 0);
    }
}

/// A search keeps the first guess of the least cost that it comes to.
proof fn lemma_search_first(b: Board, s: Seq<u32>, order: Seq<Rated>, n: nat) -> (k: int)
    requires
        n <= order.len(),
        b.search(s, order, n).0 is Some,
        forall|k: int|
            0 <= k < order.len() ==> match b.cost((#[trigger] order[k]).guess as int, s) {
                Some(x) => b.floor(s) <= x,
                None => true,
            },
    ensures
        0 <= k < n,
        b.search(s, order, n) == (b.cost(order[k].guess as int, s), order[k].guess),
        forall|j: int|
            0 <= j < k ==> board::less(
                b.search(s, order, n).0,
                b.cost((#[trigger] order[j]).guess as int, s),
            ),
    decreases n,
{
    let m = (n - 1) as nat;
    let before = b.search(s, order, m);
    let c = b.cost(order[n - 1].guess as int, s);
    if !board::less(before.0, Some(b.floor(s) + 1)) && board::less(c, before.0) {
        lemma_search_least(b, s, order, m);
        n - 1
    } else {
        lemma_search_first(b, s, order, m)
    }
}

/// Which of several best guesses is returned, among different words: the one of the smallest even
/// bound, and of those the one that comes first among the guesses to choose from.
pub proof fn law_best_is_first(b: Board, s: Seq<u32>, root: bool, i: int) -> (k: int)
    requires
        b.valid(),
        b.columns(s),
        b.distinct(s),
        2 <= s.len() <= u32::MAX,
        0 <= i < b.universe(s, root).len(),
        b.cost(b.universe(s, root)[i] as int, s) == b.best(s, root).0,
    ensures
        0 <= k < b.universe(s, root).len(),
        b.universe(s, root)[k] == b.best(s, root).1,
        ({
            let x = b.even_bound(b.universe(s, root)[k] as int, s, 243);
            let y = b.even_bound(b.universe(s, root)[i] as int, s, 243);
            x < y || (x == y && k <= i)
        }),
{
    let list = b.universe(s, root);
    let order = b.ranking(s, list);
    let rated = b.rated(s, list, list.len());
    law_floor_admissible(b, s);
    law_progress(b, s, root);
    optimal::lemma_universe(b, s, root);
    optimal::lemma_ranking(b, s, list);
    optimal::lemma_rated(b, s, list, list.len());
    sort::lemma_sorted(rated);
    assert forall|k: int| 0 <= k < order.len() implies match b.cost(
        (#[trigger] order[k]).guess as int,
        s,
    ) {
        Some(x) => b.floor(s) <= x,
        None => true,
    } by {
        assert(list.contains(order[k].guess));
    }
    let m = lemma_search_first(b, s, order, order.len());
    let g = list[i] as int;
    assert(b.legal(g));
    if !b.useful(g, s) {
        lemma_useless(b, g, s);
    }
    assert(order.contains(b.rate(s, list, i)));
    let j = choose|j: int| 0 <= j < order.len() && order[j] == b.rate(s, list, i);
    assert(order[j].guess == list[i]);
    assert(j >= m) by {
        if j < m {
            assert(board::less(b.best(s, root).0, b.cost(order[j].guess as int, s)));
        }
    }
    assert(order.contains(order[m]));
    assert(rated.contains(order[m]));
    let k = choose|k: int|
        0 <= k < list.len() && b.useful(list[k] as int, s) && order[m] == #[trigger] b.rate(
            s,
            list,
            k,
        );
    if m < j {
        assert(order[m].leq(order[j]));
    }
    solver::lemma_even_bound_fits(b, list[k] as int, s);
    solver::lemma_even_bound_fits(b, list[i] as int, s);
    k
}

} // verus!
