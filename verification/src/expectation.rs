//! What a cost means: the guesses that it takes to find each candidate, weighted and added up.

use vstd::prelude::*;
use crate::admissible;
use crate::board::{Board, Rated};
use crate::optimal;
use crate::parts;
use crate::solver;
use crate::sort;
use crate::words;
use crate::words::GREEN;

verus! {

/// The number of guesses to find the answer of column `c`, one of the candidates `s`, when `g` is
/// guessed first and then, as long as candidates are left, the best of them.
pub open spec fn guesses_taken(b: Board, g: int, s: Seq<u32>, c: u32) -> nat
    decreases s.len(),
{
    let p = b.pattern(g, c as int);
    let sub = b.bucket(g, s, p);
    if p == GREEN || sub.len() >= s.len() {
        1
    } else {
        1 + guesses_taken(b, b.best(sub, false).1 as int, sub, c)
    }
}

/// The weight of a column times the guesses that it takes.
pub open spec fn weighted_guesses(b: Board, g: int, s: Seq<u32>) -> spec_fn(u32) -> int {
    |c: u32| b.weights[c as int] * guesses_taken(b, g, s, c)
}

/// The cost of a guess is exact: it is the sum over the candidates of the weight times the number
/// of guesses. Over the total weight it is the expected number of guesses.
pub proof fn law_cost_is_expectation(b: Board, g: int, s: Seq<u32>)
    requires
        b.valid(),
        b.legal(g),
        b.columns(s),
        s.len() >= 1,
    ensures
        b.cost(g, s) matches Some(x) ==> x == parts::sum_over(weighted_guesses(b, g, s), s),
    decreases s.len(), 1nat, 0nat,
{
    if b.cost(g, s) is Some {
        let t = sort::sorted(s);
        let f = b.label(g);
        let h = weighted_guesses(b, g, s);
        lemma_rest_is_expectation(b, g, s, 243);
        sort::lemma_sorted(s);
        optimal::lemma_wsum_sorted(b, s);
        assert forall|i: int| 0 <= i < t.len() implies 0 <= f(#[trigger] t[i]) < 243 by {
            assert(t.contains(t[i]));
            assert(s.contains(t[i]));
            words::lemma_pattern(b.guesses[g]@, b.answers[t[i] as int]@);
        }
        parts::lemma_parts_sum(h, t, f, 243);
        parts::lemma_parts(b.weights, t, f, 243);
        parts::lemma_sum_permuted(h, s, t);
    }
}

proof fn lemma_rest_is_expectation(b: Board, g: int, s: Seq<u32>, n: nat)
    requires
        b.valid(),
        b.legal(g),
        b.columns(s),
        s.len() >= 1,
        n <= 243,
    ensures
        b.rest(g, s, n) matches Some(y) ==> parts::parts_sum(
            weighted_guesses(b, g, s),
            sort::sorted(s),
            b.label(g),
            n,
        ) == y + parts::parts_total(b.weights, sort::sorted(s), b.label(g), n),
    decreases s.len(), 0nat, n,
{
    if n > 0 && b.rest(g, s, n) is Some {
        let p = n - 1;
        let h = weighted_guesses(b, g, s);
        lemma_rest_is_expectation(b, g, s, (n - 1) as nat);
        let sub = b.bucket(g, s, p);
        optimal::lemma_bucket(b, g, s, p);
        if p == GREEN {
            parts::lemma_sum_weights(h, b.weights, sub, 1);
        } else if sub.len() > 0 {
            let next = b.best(sub, false).1 as int;
            let k = weighted_guesses(b, next, sub);
            lemma_best_cost(b, sub, false);
            law_cost_is_expectation(b, next, sub);
            assert forall|i: int| 0 <= i < sub.len() implies h(#[trigger] sub[i])
                == b.weights[sub[i] as int] + k(sub[i]) by {
                let w = b.weights[sub[i] as int] as int;
                let m = guesses_taken(b, next, sub, sub[i]) as int;
                assert(b.pattern(g, sub[i] as int) == p);
                assert(guesses_taken(b, g, s, sub[i]) == 1 + m);
                assert(w * (1 + m) == w + w * m) by (nonlinear_arith);
            }
            parts::lemma_sum_plus(h, k, b.weights, sub);
        }
    }
}

/// The best cost is the cost of the best guess, and the guess is legal.
proof fn lemma_best_cost(b: Board, s: Seq<u32>, root: bool)
    requires
        b.valid(),
        b.columns(s),
        s.len() >= 1,
    ensures
        b.best(s, root).0 is Some ==> b.legal(b.best(s, root).1 as int) && b.cost(
            b.best(s, root).1 as int,
            s,
        ) == b.best(s, root).0,
{
    if s.len() == 1 {
        optimal::lemma_home(b, s[0]);
        optimal::lemma_last_guess(b, s, 243);
    } else if b.best(s, root).0 is Some {
        let list = b.universe(s, root);
        let order = b.ranking(s, list);
        let k = optimal::lemma_search_found(b, s, order, order.len());
        optimal::lemma_ranking(b, s, list);
        optimal::lemma_universe(b, s, root);
        assert(list.contains(order[k].guess));
    }
}

/// The best cost of a set is the weighted number of guesses that its best guess leads to.
pub proof fn law_best_is_expectation(b: Board, s: Seq<u32>, root: bool)
    requires
        b.valid(),
        b.columns(s),
        s.len() >= 1,
    ensures
        b.best(s, root).0 matches Some(x) ==> x == parts::sum_over(
            weighted_guesses(b, b.best(s, root).1 as int, s),
            s,
        ),
{
    lemma_best_cost(b, s, root);
    if b.best(s, root).0 is Some {
        law_cost_is_expectation(b, b.best(s, root).1 as int, s);
    }
}

/// The costs of the buckets of a guess, for the patterns below `n` but five greens.
pub open spec fn bucket_costs(b: Board, g: int, s: Seq<u32>, n: nat) -> nat
    decreases n,
{
    if n == 0 {
        0
    } else {
        let sub = b.bucket(g, s, n - 1);
        bucket_costs(b, g, s, (n - 1) as nat) + if n - 1 == GREEN || sub.len() == 0 {
            0
        } else {
            b.best(sub, false).0->0
        }
    }
}

/// The cost of a guess is one guess for each candidate and the best costs of what its patterns
/// leave; five greens leave nothing. Over the total weight, every bucket counts by its weight. A
/// guess without progress has no bounded cost.
pub proof fn law_cost_of_buckets(b: Board, g: int, s: Seq<u32>)
    requires
        b.valid(),
        b.legal(g),
        b.columns(s),
        b.distinct(s),
        s.len() >= 1,
    ensures
        b.cost(g, s) == if solver::no_progress(b, g, s) {
            None
        } else {
            Some(b.wsum(s) + bucket_costs(b, g, s, 243))
        },
        forall|p: int| #[trigger]
            b.bucket(g, s, p).len() > 0 ==> b.best(b.bucket(g, s, p), false).0 is Some,
{
    reveal(solver::no_progress);
    if solver::no_progress(b, g, s) {
        let p = choose|p: int|
            0 <= p < 243 && p != GREEN && #[trigger] b.part(g, s, p).len() == s.len();
        optimal::lemma_bucket(b, g, s, p);
        admissible::lemma_rest_none(b, g, s, p, 243);
    } else {
        lemma_rest_of_buckets(b, g, s, 243);
    }
    assert forall|p: int| #[trigger] b.bucket(g, s, p).len() > 0 implies b.best(
        b.bucket(g, s, p),
        false,
    ).0 is Some by {
        optimal::lemma_bucket(b, g, s, p);
        admissible::lemma_distinct_bucket(b, g, s, p);
        admissible::law_progress(b, b.bucket(g, s, p), false);
    }
}

proof fn lemma_rest_of_buckets(b: Board, g: int, s: Seq<u32>, n: nat)
    requires
        b.valid(),
        b.columns(s),
        b.distinct(s),
        !solver::no_progress(b, g, s),
        n <= 243,
    ensures
        b.rest(g, s, n) == Some(bucket_costs(b, g, s, n)),
    decreases n,
{
    if n > 0 {
        reveal(solver::no_progress);
        let p = n - 1;
        let sub = b.bucket(g, s, p);
        lemma_rest_of_buckets(b, g, s, (n - 1) as nat);
        optimal::lemma_bucket(b, g, s, p);
        if p != GREEN && sub.len() > 0 {
            assert(b.part(g, s, p).len() != s.len());
            admissible::lemma_distinct_bucket(b, g, s, p);
            admissible::law_progress(b, sub, false);
        }
    }
}

/// The cost of a guess for any candidates, also where words repeat: there is one exactly if no
/// bucket but that of five greens is the whole set or has no bounded cost, and it is one guess for
/// each candidate and the best costs of the buckets.
pub proof fn law_cost_in_general(b: Board, g: int, s: Seq<u32>)
    requires
        s.len() >= 1,
    ensures
        b.cost(g, s) is Some <==> forall|p: int|
            0 <= p < 242 && (#[trigger] b.bucket(g, s, p)).len() > 0 ==> b.bucket(g, s, p).len()
                < s.len() && b.best(b.bucket(g, s, p), false).0 is Some,
        b.cost(g, s) matches Some(x) ==> x == b.wsum(s) + bucket_costs(b, g, s, 243),
{
    lemma_rest_in_general(b, g, s, 243);
    if forall|p: int|
        0 <= p < 242 && (#[trigger] b.bucket(g, s, p)).len() > 0 ==> b.bucket(g, s, p).len()
            < s.len() && b.best(b.bucket(g, s, p), false).0 is Some {
        assert forall|p: int|
            0 <= p < 243 && p != GREEN && (#[trigger] b.bucket(g, s, p)).len() > 0 implies b.bucket(
            g,
            s,
            p,
        ).len() < s.len() && b.best(b.bucket(g, s, p), false).0 is Some by {}
    }
}

proof fn lemma_rest_in_general(b: Board, g: int, s: Seq<u32>, n: nat)
    requires
        n <= 243,
    ensures
        b.rest(g, s, n) is Some <==> forall|p: int|
            0 <= p < n && p != GREEN && (#[trigger] b.bucket(g, s, p)).len() > 0 ==> b.bucket(
                g,
                s,
                p,
            ).len() < s.len() && b.best(b.bucket(g, s, p), false).0 is Some,
        b.rest(g, s, n) matches Some(y) ==> y == bucket_costs(b, g, s, n),
    decreases n,
{
    if n > 0 {
        lemma_rest_in_general(b, g, s, (n - 1) as nat);
        let sub = b.bucket(g, s, n - 1);
        if b.rest(g, s, n) is Some {
            assert forall|p: int|
                0 <= p < n && p != GREEN && (#[trigger] b.bucket(g, s, p)).len() > 0 implies
                b.bucket(g, s, p).len() < s.len() && b.best(
                b.bucket(g, s, p),
                false,
            ).0 is Some by {}
        }
    }
}

/// What is returned for any candidates, also where words repeat. For one, its weight and its word.
/// For more, the cost of a useful guess of those to choose from, and no useful guess costs less
/// unless the cost is down at the floor; or no cost and the word of the first, exactly if no useful
/// guess has one.
pub proof fn law_best_in_general(b: Board, s: Seq<u32>, root: bool, i: int)
    requires
        b.valid(),
        b.columns(s),
        s.len() >= 1,
    ensures
        s.len() == 1 ==> b.best(s, root).0 == Some(b.weights[s[0] as int] as nat),
        s.len() == 1 ==> b.guesses[b.best(s, root).1 as int] == b.answers[s[0] as int],
        s.len() >= 2 && b.best(s, root).0 is Some ==> {
            let (c, g) = b.best(s, root);
            &&& b.universe(s, root).contains(g)
            &&& b.useful(g as int, s)
            &&& c == b.cost(g as int, s)
        },
        s.len() >= 2 && b.best(s, root).0 is None ==> b.best(s, root).1 == b.home(s[0]),
        s.len() >= 2 && 0 <= i < b.universe(s, root).len() && b.useful(
            b.universe(s, root)[i] as int,
            s,
        ) ==> match (b.best(s, root).0, b.cost(b.universe(s, root)[i] as int, s)) {
            (Some(x), Some(y)) => x <= y || x <= b.floor(s),
            (None, Some(_)) => false,
            (_, None) => true,
        },
{
    optimal::lemma_home(b, s[0]);
    if s.len() == 1 {
        optimal::law_weight(b, Seq::empty(), s[0]);
        assert(s =~= Seq::<u32>::empty().push(s[0]));
    } else {
        let list = b.universe(s, root);
        let order = b.ranking(s, list);
        optimal::lemma_ranking(b, s, list);
        lemma_search_in_general(b, s, order, order.len());
        if b.best(s, root).0 is Some {
            let k = optimal::lemma_search_found(b, s, order, order.len());
            assert(list.contains(order[k].guess));
        }
        if 0 <= i < list.len() && b.useful(list[i] as int, s) {
            assert(order.contains(b.rate(s, list, i)));
            let k = choose|k: int| 0 <= k < order.len() && order[k] == b.rate(s, list, i);
            assert(order[k].guess == list[i]);
        }
    }
}

proof fn lemma_search_in_general(b: Board, s: Seq<u32>, order: Seq<Rated>, n: nat)
    requires
        n <= order.len(),
    ensures
        b.search(s, order, n).0 is None ==> b.search(s, order, n).1 == b.home(s[0]),
        forall|k: int|
            0 <= k < n ==> match (
                b.search(s, order, n).0,
                b.cost((#[trigger] order[k]).guess as int, s),
            ) {
                (Some(x), Some(y)) => x <= y || x <= b.floor(s),
                (None, Some(_)) => false,
                (_, None) => true,
            },
    decreases n,
{
    if n > 0 {
        lemma_search_in_general(b, s, order, (n - 1) as nat);
    }
}

} // verus!
