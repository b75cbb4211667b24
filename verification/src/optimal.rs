//! The bounds hold and the search is exact.

use vstd::prelude::*;
use crate::board::{Board, Rated};
use crate::bounds;
use crate::index;
use crate::parts;
use crate::sort;
use crate::words;

verus! {

impl Board {
    /// Whether the candidates are all different words.
    pub open spec fn distinct(self, s: Seq<u32>) -> bool {
        forall|i: int, j: int|
            0 <= i < j < s.len() ==> self.answers[#[trigger] s[i] as int] != self.answers[
                #[trigger] s[j] as int]
    }

    /// Whether an index names a guess.
    pub open spec fn legal(self, g: int) -> bool {
        0 <= g < self.guesses.len()
    }
}

/// The weights of the columns of a list.
pub open spec fn weights(b: Board, s: Seq<u32>) -> Seq<u64> {
    bounds::weights_of(b.weights, s)
}

/// The members of a bucket are candidates that show its pattern; there are as many as the guess
/// leaves of the list in any order.
pub proof fn lemma_bucket(b: Board, g: int, s: Seq<u32>, p: int)
    ensures
        b.bucket(g, s, p).len() == b.part(g, s, p).len(),
        b.bucket(g, s, p).len() <= s.len(),
        forall|i: int|
            0 <= i < b.bucket(g, s, p).len() ==> s.contains(#[trigger] b.bucket(g, s, p)[i])
                && b.pattern(g, b.bucket(g, s, p)[i] as int) == p,
        forall|c: u32|
            #[trigger] b.bucket(g, s, p).contains(c) <==> s.contains(c) && b.pattern(g, c as int)
                == p,
        b.columns(s) ==> b.columns(b.bucket(g, s, p)),
        sort::ascending(b.bucket(g, s, p)),
{
    let t = sort::sorted(s);
    let f = parts::labelled(b.label(g), p);
    sort::lemma_sorted(s);
    parts::lemma_filter_len_permuted(t, s, f);
    lemma_filter_members(t, f);
    lemma_filter_ascending(t, f);
    let k = b.bucket(g, s, p);
    t.lemma_filter_len(f);
    assert forall|i: int| 0 <= i < k.len() implies s.contains(#[trigger] k[i]) && b.pattern(
        g,
        k[i] as int,
    ) == p by {
        assert(k.contains(k[i]));
    }
    assert forall|c: u32| #[trigger] k.contains(c) <==> s.contains(c) && b.pattern(g, c as int)
        == p by {}
    if b.columns(s) {
        assert forall|i: int| 0 <= i < k.len() implies #[trigger] k[i] < b.answers.len() by {
            assert(s.contains(k[i]));
        }
    }
}

pub proof fn lemma_filter_members(s: Seq<u32>, f: spec_fn(u32) -> bool)
    ensures
        forall|c: u32| #[trigger] s.filter(f).contains(c) <==> s.contains(c) && f(c),
{
    broadcast use vstd::seq_lib::group_filter_ensures;

    assert forall|c: u32| #[trigger] s.filter(f).contains(c) implies s.contains(c) && f(c) by {
        lemma_filter_from(s, f, c);
    }
    assert forall|c: u32| s.contains(c) && f(c) implies #[trigger] s.filter(f).contains(c) by {
        let i = choose|i: int| 0 <= i < s.len() && s[i] == c;
        s.lemma_filter_contains(f, i);
    }
}

proof fn lemma_filter_from(s: Seq<u32>, f: spec_fn(u32) -> bool, c: u32)
    requires
        s.filter(f).contains(c),
    ensures
        s.contains(c),
        f(c),
    decreases s.len(),
{
    reveal(Seq::filter);
    if s.len() > 0 {
        let t = s.drop_last().filter(f);
        let i = choose|i: int| 0 <= i < s.filter(f).len() && s.filter(f)[i] == c;
        if f(s.last()) && i == t.len() {
            assert(s[s.len() - 1] == c);
        } else {
            assert(t[i] == c);
            lemma_filter_from(s.drop_last(), f, c);
            let j = choose|j: int| 0 <= j < s.drop_last().len() && s.drop_last()[j] == c;
            assert(s[j] == c);
        }
    }
}

proof fn lemma_filter_ascending(s: Seq<u32>, f: spec_fn(u32) -> bool)
    requires
        sort::ascending(s),
    ensures
        sort::ascending(s.filter(f)),
    decreases s.len(),
{
    reveal(Seq::filter);
    if s.len() > 0 {
        let u = s.drop_last();
        assert(sort::ascending(u)) by {
            assert forall|i: int, j: int| 0 <= i < j < u.len() implies sort::Ordered::leq(
                #[trigger] u[i],
                #[trigger] u[j],
            ) by {
                assert(sort::Ordered::leq(s[i], s[j]));
            }
        }
        lemma_filter_ascending(u, f);
        let t = u.filter(f);
        let r = s.filter(f);
        assert forall|i: int, j: int| 0 <= i < j < r.len() implies sort::Ordered::leq(
            #[trigger] r[i],
            #[trigger] r[j],
        ) by {
            if j < t.len() {
                assert(sort::Ordered::leq(t[i], t[j]));
            } else {
                assert(t.contains(t[i]));
                lemma_filter_from(u, f, t[i]);
                let k = choose|k: int| 0 <= k < u.len() && u[k] == t[i];
                assert(sort::Ordered::leq(s[k], s[s.len() - 1]));
            }
        }
    }
}

/// The total weight does not depend on the order of the columns.
pub proof fn lemma_wsum_sorted(b: Board, s: Seq<u32>)
    ensures
        b.wsum(sort::sorted(s)) == b.wsum(s),
{
    sort::lemma_sorted(s);
    parts::lemma_weights_permuted(b.weights, sort::sorted(s), s);
    bounds::lemma_total_permuted(weights(b, sort::sorted(s)), weights(b, s));
}

/// What a search has found is the cost of one of the guesses that it went through.
pub proof fn lemma_search_found(b: Board, s: Seq<u32>, order: Seq<Rated>, n: nat) -> (k: int)
    requires
        n <= order.len(),
        b.search(s, order, n).0 is Some,
    ensures
        0 <= k < n,
        b.search(s, order, n) == (b.cost(order[k].guess as int, s), order[k].guess),
    decreases n,
{
    let found = b.search(s, order, (n - 1) as nat);
    if b.search(s, order, n) == found {
        if n >= 2 && found.0 is Some {
            lemma_search_found(b, s, order, (n - 1) as nat)
        } else {
            n - 1
        }
    } else {
        n - 1
    }
}

/// The cost of play, where it has a bound, is at most the number of candidates times their weight.
pub proof fn lemma_best_bound(b: Board, s: Seq<u32>, root: bool)
    requires
        s.len() >= 1,
    ensures
        b.best(s, root).0 matches Some(x) ==> x <= s.len() * b.wsum(s),
    decreases s.len(), 2nat, 0nat,
{
    if s.len() == 1 {
        assert(s.len() * b.wsum(s) == b.wsum(s)) by (nonlinear_arith)
            requires
                s.len() == 1,
        ;
    } else {
        let order = b.ranking(s, b.universe(s, root));
        if b.best(s, root).0 is Some {
            let k = lemma_search_found(b, s, order, order.len());
            lemma_cost_bound(b, order[k].guess as int, s);
        }
    }
}

/// The cost of a guess, where it has a bound, is at most the number of candidates times their
/// weight.
pub proof fn lemma_cost_bound(b: Board, g: int, s: Seq<u32>)
    requires
        s.len() >= 1,
    ensures
        b.cost(g, s) matches Some(x) ==> x <= s.len() * b.wsum(s),
    decreases s.len(), 1nat, 0nat,
{
    let t = sort::sorted(s);
    lemma_rest_bound(b, g, s, 243);
    lemma_wsum_sorted(b, s);
    parts::lemma_parts(b.weights, t, b.label(g), 243);
    let l = s.len() as int;
    let w = b.wsum(s) as int;
    let v = parts::parts_total(b.weights, t, b.label(g), 243) as int;
    assert(w + (l - 1) * v <= l * w) by (nonlinear_arith)
        requires
            0 <= v <= w,
            l >= 1,
    ;
}

/// What is left after a guess costs at most one less than the number of candidates times the
/// weight of the buckets.
pub proof fn lemma_rest_bound(b: Board, g: int, s: Seq<u32>, n: nat)
    requires
        s.len() >= 1,
    ensures
        b.rest(g, s, n) matches Some(y) ==> y <= (s.len() - 1) * parts::parts_total(
            b.weights,
            sort::sorted(s),
            b.label(g),
            n,
        ),
    decreases s.len(), 0nat, n,
{
    let l = s.len() as int;
    if n > 0 {
        lemma_rest_bound(b, g, s, (n - 1) as nat);
        let sub = b.bucket(g, s, n - 1);
        let v = parts::parts_total(b.weights, sort::sorted(s), b.label(g), (n - 1) as nat) as int;
        let w = b.wsum(sub) as int;
        assert((l - 1) * (v + w) == (l - 1) * v + (l - 1) * w) by (nonlinear_arith);
        assert(0 <= (l - 1) * w) by (nonlinear_arith)
            requires
                l >= 1,
                w >= 0,
        ;
        if n - 1 != words::GREEN && 0 < sub.len() < s.len() {
            lemma_best_bound(b, sub, false);
            let m = sub.len() as int;
            assert(m * w <= (l - 1) * w) by (nonlinear_arith)
                requires
                    m <= l - 1,
                    w >= 0,
            ;
        }
    } else {
        assert((l - 1) * 0 == 0);
    }
}

/// The home of a column is a legal guess, and the word of the column.
pub proof fn lemma_home(b: Board, c: u32)
    requires
        b.valid(),
        c < b.answers.len(),
    ensures
        b.legal(b.home(c) as int),
        b.guesses[b.home(c) as int] == b.answers[c as int],
{
    let w = b.answers[c as int];
    assert(index::last_place(b.guesses, w) is Some);
    index::lemma_last_place(b.guesses, w);
}

/// The guesses to choose from are legal.
pub proof fn lemma_universe(b: Board, s: Seq<u32>, root: bool)
    requires
        b.valid(),
        b.columns(s),
    ensures
        forall|i: int|
            0 <= i < b.universe(s, root).len() ==> b.legal(
                #[trigger] b.universe(s, root)[i] as int,
            ),
{
    assert forall|i: int| 0 <= i < b.universe(s, root).len() implies b.legal(
        #[trigger] b.universe(s, root)[i] as int,
    ) by {
        if !root {
            lemma_home(b, s[i]);
        }
    }
}

/// The rated guesses are those of the list that are useful.
pub proof fn lemma_rated(b: Board, s: Seq<u32>, list: Seq<u32>, n: nat)
    requires
        n <= list.len(),
    ensures
        b.rated(s, list, n).len() <= n,
        forall|r: Rated| #[trigger]
            b.rated(s, list, n).contains(r) <==> exists|i: int|
                0 <= i < n && b.useful(list[i] as int, s) && r == #[trigger] b.rate(s, list, i),
    decreases n,
{
    if n > 0 {
        let m = (n - 1) as nat;
        lemma_rated(b, s, list, m);
        let before = b.rated(s, list, m);
        let now = b.rated(s, list, n);
        assert forall|r: Rated| #[trigger] now.contains(r) implies exists|i: int|
            0 <= i < n && b.useful(list[i] as int, s) && r == #[trigger] b.rate(s, list, i) by {
            if b.useful(list[n - 1] as int, s) && r == b.rate(s, list, n - 1) {
            } else {
                let j = choose|j: int| 0 <= j < now.len() && now[j] == r;
                assert(before[j] == r);
                assert(before.contains(r));
            }
        }
        assert forall|r: Rated|
            (exists|i: int|
                0 <= i < n && b.useful(list[i] as int, s) && r == #[trigger] b.rate(
                    s,
                    list,
                    i,
                )) implies #[trigger] now.contains(r) by {
            let i = choose|i: int|
                0 <= i < n && b.useful(list[i] as int, s) && r == #[trigger] b.rate(s, list, i);
            if i == n - 1 {
                assert(now[now.len() - 1] == r);
            } else {
                assert(before.contains(r));
                let j = choose|j: int| 0 <= j < before.len() && before[j] == r;
                assert(now[j] == r);
            }
        }
    }
}

/// The guesses of a ranking are the useful ones of the list.
pub proof fn lemma_ranking(b: Board, s: Seq<u32>, list: Seq<u32>)
    ensures
        forall|k: int|
            0 <= k < b.ranking(s, list).len() ==> b.useful(
                (#[trigger] b.ranking(s, list)[k]).guess as int,
                s,
            ) && list.contains(b.ranking(s, list)[k].guess),
        forall|i: int|
            0 <= i < list.len() && b.useful(#[trigger] list[i] as int, s) ==> b.ranking(
                s,
                list,
            ).contains(b.rate(s, list, i)),
{
    let all = b.rated(s, list, list.len());
    let order = b.ranking(s, list);
    sort::lemma_sorted(all);
    lemma_rated(b, s, list, list.len());
    assert forall|k: int| 0 <= k < order.len() implies b.useful(
        (#[trigger] order[k]).guess as int,
        s,
    ) && list.contains(order[k].guess) by {
        assert(order.contains(order[k]));
        assert(all.contains(order[k]));
    }
    assert forall|i: int| 0 <= i < list.len() && b.useful(#[trigger] list[i] as int, s) implies
        order.contains(b.rate(s, list, i)) by {
        assert(all.contains(b.rate(s, list, i)));
    }
}

/// A column that fails the test leaves the filtered list shorter.
pub proof fn lemma_filter_misses(s: Seq<u32>, f: spec_fn(u32) -> bool, i: int)
    requires
        0 <= i < s.len(),
        !f(s[i]),
    ensures
        s.filter(f).len() < s.len(),
{
    let a = s.take(i);
    let c = s.skip(i + 1);
    let one = seq![s[i]];
    assert(s =~= (a + one) + c);
    Seq::filter_distributes_over_add(a + one, c, f);
    Seq::filter_distributes_over_add(a, one, f);
    a.lemma_filter_len(f);
    c.lemma_filter_len(f);
    assert(one.filter(f).len() == 0) by {
        reveal(Seq::filter);
        assert(one.drop_last().len() == 0);
        assert(one.last() == s[i]);
        assert(one.drop_last().filter(f).len() == 0);
    }
}

/// A test that every column passes keeps all of them.
pub proof fn lemma_filter_all(s: Seq<u32>, f: spec_fn(u32) -> bool)
    requires
        forall|i: int| 0 <= i < s.len() ==> f(#[trigger] s[i]),
    ensures
        s.filter(f) == s,
    decreases s.len(),
{
    reveal(Seq::filter);
    if s.len() > 0 {
        let t = s.drop_last();
        assert forall|i: int| 0 <= i < t.len() implies f(#[trigger] t[i]) by {
            assert(t[i] == s[i]);
        }
        lemma_filter_all(t, f);
        assert(f(s[s.len() - 1]));
        assert(s =~= t.push(s.last()));
    }
}

/// A guess sorts the candidates: each is in the bucket of the pattern that it shows and in no
/// other, and the sizes of the buckets add up to the number of candidates.
pub proof fn law_buckets_partition(b: Board, g: int, s: Seq<u32>)
    requires
        b.valid(),
        b.legal(g),
        b.columns(s),
    ensures
        forall|c: u32, p: int|
            s.contains(c) ==> (#[trigger] b.bucket(g, s, p).contains(c) <==> p == b.pattern(
                g,
                c as int,
            )),
        parts::parts_len(s, b.label(g), 243) == s.len(),
        forall|p: int| #[trigger] b.bucket(g, s, p).len() == b.part(g, s, p).len(),
{
    assert forall|c: u32, p: int| s.contains(c) implies (#[trigger] b.bucket(g, s, p).contains(c)
        <==> p == b.pattern(g, c as int)) by {
        lemma_bucket(b, g, s, p);
    }
    assert forall|p: int| #[trigger] b.bucket(g, s, p).len() == b.part(g, s, p).len() by {
        lemma_bucket(b, g, s, p);
    }
    assert forall|i: int| 0 <= i < s.len() implies 0 <= b.label(g)(#[trigger] s[i]) < 243 by {
        words::lemma_pattern(b.guesses[g]@, b.answers[s[i] as int]@);
    }
    parts::lemma_parts(b.weights, s, b.label(g), 243);
}

/// Nothing is left after the only candidate is guessed.
pub proof fn lemma_last_guess(b: Board, s: Seq<u32>, n: nat)
    requires
        b.valid(),
        b.columns(s),
        s.len() == 1,
    ensures
        b.rest(b.home(s[0]) as int, s, n) == Some(0nat),
    decreases n,
{
    if n > 0 {
        let g = b.home(s[0]) as int;
        lemma_last_guess(b, s, (n - 1) as nat);
        lemma_home(b, s[0]);
        words::lemma_pattern(b.guesses[g]@, b.answers[s[0] as int]@);
        let sub = b.bucket(g, s, n - 1);
        lemma_bucket(b, g, s, n - 1);
        if sub.len() > 0 {
            assert(s.contains(sub[0]));
            assert(b.pattern(g, sub[0] as int) == n - 1);
        }
    }
}

/// The weight of a set is that of its columns, added up.
pub proof fn law_weight(b: Board, s: Seq<u32>, c: u32)
    ensures
        b.wsum(Seq::empty()) == 0,
        b.wsum(s.push(c)) == b.wsum(s) + b.weights[c as int],
{
    let ws = weights(b, s.push(c));
    assert(ws.drop_last() =~= weights(b, s));
    assert(weights(b, Seq::empty()).len() == 0);
}

/// A guess is useful exactly if two of the candidates answer it differently.
pub proof fn law_useful(b: Board, g: int, s: Seq<u32>)
    requires
        b.valid(),
        b.legal(g),
        b.columns(s),
        s.len() >= 1,
    ensures
        b.useful(g, s) <==> exists|i: int, j: int|
            0 <= i < s.len() && 0 <= j < s.len() && #[trigger] b.pattern(g, s[i] as int)
                != #[trigger] b.pattern(g, s[j] as int),
{
    let p = b.pattern(g, s[0] as int);
    words::lemma_pattern(b.guesses[g]@, b.answers[s[0] as int]@);
    if b.useful(g, s) {
        assert(b.part(g, s, p).len() != s.len());
        if forall|j: int| 0 <= j < s.len() ==> #[trigger] b.pattern(g, s[j] as int) == p {
            let f = parts::labelled(b.label(g), p);
            assert forall|i: int| 0 <= i < s.len() implies f(#[trigger] s[i]) by {
                assert(b.pattern(g, s[i] as int) == p);
            }
            lemma_filter_all(s, f);
        }
        let j = choose|j: int| 0 <= j < s.len() && #[trigger] b.pattern(g, s[j] as int) != p;
        assert(b.pattern(g, s[j] as int) != b.pattern(g, s[0] as int));
    }
    if exists|i: int, j: int|
        0 <= i < s.len() && 0 <= j < s.len() && #[trigger] b.pattern(g, s[i] as int)
            != #[trigger] b.pattern(g, s[j] as int) {
        let (i, j) = choose|i: int, j: int|
            0 <= i < s.len() && 0 <= j < s.len() && #[trigger] b.pattern(g, s[i] as int)
                != #[trigger] b.pattern(g, s[j] as int);
        assert forall|q: int| 0 <= q < 243 implies #[trigger] b.part(g, s, q).len() != s.len() by {
            let f = parts::labelled(b.label(g), q);
            if b.pattern(g, s[i] as int) != q {
                lemma_filter_misses(s, f, i);
            } else {
                lemma_filter_misses(s, f, j);
            }
        }
    }
}

/// What there is to choose from: at the root every legal guess in order, and further on, for each
/// candidate, the last guess that is its word.
pub proof fn law_universe(b: Board, s: Seq<u32>, i: int)
    requires
        b.valid(),
        b.columns(s),
    ensures
        b.universe(s, true).len() == b.guesses.len(),
        b.legal(i) ==> b.universe(s, true)[i] == i,
        b.universe(s, false).len() == s.len(),
        0 <= i < s.len() ==> {
            let g = b.universe(s, false)[i] as int;
            &&& b.legal(g)
            &&& b.guesses[g] == b.answers[s[i] as int]
            &&& forall|k: int| g < k < b.guesses.len() ==> b.guesses[k] != b.answers[s[i] as int]
        },
{
    if 0 <= i < s.len() {
        lemma_home(b, s[i]);
        index::law_last_place(b.guesses, b.answers[s[i] as int]);
    }
}

/// What the bound of a guess is: the even costs of the numbers of candidates that show each pattern
/// but five greens, added up.
pub proof fn law_even_bound(b: Board, g: int, s: Seq<u32>)
    ensures
        b.even_bound(g, s, 243) == Seq::new(
            242,
            |p: int|
                bounds::even_cost(s.filter(|x: u32| b.pattern(g, x as int) == p).len()) as int,
        ).fold_left(0int, |a: int, x: int| a + x),
{
    lemma_even_bound_sum(b, g, s, 242);
}

proof fn lemma_even_bound_sum(b: Board, g: int, s: Seq<u32>, n: nat)
    requires
        n <= 242,
    ensures
        b.even_bound(g, s, n) == Seq::new(
            n,
            |p: int|
                bounds::even_cost(s.filter(|x: u32| b.pattern(g, x as int) == p).len()) as int,
        ).fold_left(0int, |a: int, x: int| a + x),
    decreases n,
{
    let f = |p: int|
        bounds::even_cost(s.filter(|x: u32| b.pattern(g, x as int) == p).len()) as int;
    let all = Seq::new(n, f);
    if n > 0 {
        lemma_even_bound_sum(b, g, s, (n - 1) as nat);
        assert(all.drop_last() =~= Seq::new((n - 1) as nat, f));
        let h = |x: u32| b.pattern(g, x as int) == n - 1;
        assert(h =~= parts::labelled(b.label(g), n - 1));
        assert(s.filter(h) == b.part(g, s, n - 1));
    }
}

/// Which candidates a bucket holds: those that show its pattern, in ascending order.
pub proof fn law_bucket(b: Board, g: int, s: Seq<u32>, p: int)
    ensures
        b.bucket(g, s, p).to_multiset() == s.filter(
            |x: u32| b.pattern(g, x as int) == p,
        ).to_multiset(),
        forall|i: int, j: int|
            0 <= i < j < b.bucket(g, s, p).len() ==> #[trigger] b.bucket(g, s, p)[i]
                <= #[trigger] b.bucket(g, s, p)[j],
{
    let h = |x: u32| b.pattern(g, x as int) == p;
    assert(h =~= parts::labelled(b.label(g), p));
    lemma_bucket(b, g, s, p);
    sort::lemma_sorted(s);
    parts::lemma_filter_permuted(sort::sorted(s), s, h);
    let k = b.bucket(g, s, p);
    assert forall|i: int, j: int| 0 <= i < j < k.len() implies #[trigger] k[i]
        <= #[trigger] k[j] by {
        assert(sort::Ordered::leq(k[i], k[j]));
    }
}

/// What remains of some candidates, in their order: those that show the pattern.
pub proof fn law_part(b: Board, g: int, s: Seq<u32>, p: int)
    ensures
        b.part(g, s, p) == s.filter(
            |x: u32| words::pattern(b.guesses[g]@, b.answers[x as int]@) == p,
        ),
{
    let h = |x: u32| words::pattern(b.guesses[g]@, b.answers[x as int]@) == p;
    assert(h =~= parts::labelled(b.label(g), p));
}

/// When candidates are different words, guesses legal, and lists made of columns.
pub proof fn law_terms(b: Board, s: Seq<u32>, g: int)
    ensures
        b.distinct(s) <==> forall|i: int, j: int|
            0 <= i < j < s.len() ==> b.answers[#[trigger] s[i] as int] != b.answers[
                #[trigger] s[j] as int],
        b.legal(g) <==> 0 <= g < b.guesses.len(),
        b.columns(s) <==> forall|i: int| 0 <= i < s.len() ==> #[trigger] s[i] < b.answers.len(),
{
}

} // verus!
