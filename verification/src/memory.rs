//! What a solver remembers: the exact trace that searches leave.

use vstd::prelude::*;
use crate::board;
use crate::board::{Board, Rated};
use crate::solver;
use crate::solver::MEMO_MAX;
use crate::words::GREEN;

verus! {

/// The results of sets of candidates at the root and beyond it, and the number of searches.
pub struct Store {
    pub root: Map<Seq<u32>, (Option<u128>, u32)>,
    pub beyond: Map<Seq<u32>, (Option<u128>, u32)>,
    pub count: nat,
}

/// A cost of the model as it is stored.
pub open spec fn stored(c: Option<nat>) -> Option<u128> {
    match c {
        Some(x) => Some(x as u128),
        None => None,
    }
}

impl Store {
    /// Whether the result of a set is remembered.
    pub open spec fn holds(self, s: Seq<u32>, root: bool) -> bool {
        if root {
            self.root.contains_key(s)
        } else {
            self.beyond.contains_key(s)
        }
    }

    /// With one more search; the count ends at the largest 64-bit number.
    pub open spec fn counted(self) -> Store {
        Store {
            root: self.root,
            beyond: self.beyond,
            count: if self.count < u64::MAX {
                self.count + 1
            } else {
                self.count
            },
        }
    }

    /// With the result of a set, unless it is beyond the root and too long.
    pub open spec fn with(self, s: Seq<u32>, root: bool, found: (Option<nat>, u32)) -> Store {
        let v = (stored(found.0), found.1);
        if root {
            Store { root: self.root.insert(s, v), beyond: self.beyond, count: self.count }
        } else if s.len() <= MEMO_MAX {
            Store { root: self.root, beyond: self.beyond.insert(s, v), count: self.count }
        } else {
            self
        }
    }
}

/// After a search of a set. A single candidate needs none, nor does a set that is remembered. For
/// any other a search is counted, its guesses are tried, and its result is remembered.
#[verifier::opaque]
pub open spec fn after_search(b: Board, m: Store, s: Seq<u32>, root: bool) -> Store
    decreases s.len(), 3nat, 0nat,
{
    if s.len() == 1 || m.holds(s, root) {
        m
    } else {
        let order = b.ranking(s, b.universe(s, root));
        after_tries(b, m.counted(), s, order, order.len()).with(s, root, b.best(s, root))
    }
}

/// After the first `n` guesses of a ranking have been tried, each against the best cost so far;
/// none is tried once that cost is down at the floor.
pub open spec fn after_tries(b: Board, m: Store, s: Seq<u32>, order: Seq<Rated>, n: nat) -> Store
    decreases s.len(), 2nat, n,
{
    if n == 0 {
        m
    } else {
        let before = after_tries(b, m, s, order, (n - 1) as nat);
        let best = b.search(s, order, (n - 1) as nat).0;
        if board::less(best, Some(b.floor(s) + 1)) {
            before
        } else {
            after_guess(b, before, order[n - 1].guess as int, s, best)
        }
    }
}

/// After the evaluation of a guess against a bound.
pub open spec fn after_guess(
    b: Board,
    m: Store,
    g: int,
    s: Seq<u32>,
    bound: Option<nat>,
) -> Store
    decreases s.len(), 1nat, 0nat,
{
    after_buckets(b, m, g, s, bound, 243)
}

/// Whether the evaluation of a guess goes on to pattern `n`: no bucket so far has come to nothing,
/// and the cost so far, if there was a bucket, is below the bound.
pub open spec fn goes_on(b: Board, g: int, s: Seq<u32>, bound: Option<nat>, n: nat) -> bool {
    b.rest(g, s, n) matches Some(y) && (!has_bucket(b, g, s, n) || board::less(
        Some(b.wsum(s) + y),
        bound,
    ))
}

/// Whether some candidates show a pattern below `n` that is not five greens.
pub open spec fn has_bucket(b: Board, g: int, s: Seq<u32>, n: nat) -> bool {
    exists|q: int| 0 <= q < n && q != GREEN && (#[trigger] b.bucket(g, s, q)).len() > 0
}

/// After the buckets of the patterns below `n` have been searched, as far as the evaluation goes
/// on. A bucket that is the whole set is not searched.
pub open spec fn after_buckets(
    b: Board,
    m: Store,
    g: int,
    s: Seq<u32>,
    bound: Option<nat>,
    n: nat,
) -> Store
    decreases s.len(), 0nat, n,
{
    if n == 0 {
        m
    } else {
        let before = after_buckets(b, m, g, s, bound, (n - 1) as nat);
        let sub = b.bucket(g, s, n - 1);
        if n - 1 != GREEN && 0 < sub.len() < s.len() && goes_on(b, g, s, bound, (n - 1) as nat) {
            after_search(b, before, sub, false)
        } else {
            before
        }
    }
}

/// After the first `n` candidates have been evaluated as guesses, each against the best cost so
/// far.
pub open spec fn after_candidates(b: Board, m: Store, s: Seq<u32>, n: nat) -> Store
    decreases n,
{
    if n == 0 {
        m
    } else {
        after_guess(
            b,
            after_candidates(b, m, s, (n - 1) as nat),
            b.home(s[n - 1]) as int,
            s,
            solver::cheapest(b, s, (n - 1) as nat).0,
        )
    }
}

/// What is left after a guess does not shrink as patterns are added, and stays unbounded.
pub proof fn lemma_rest_monotone(b: Board, g: int, s: Seq<u32>, m: nat, n: nat)
    requires
        m <= n,
    ensures
        b.rest(g, s, n) is Some ==> b.rest(g, s, m) is Some && b.rest(g, s, m)->0 <= b.rest(
            g,
            s,
            n,
        )->0,
    decreases n,
{
    if m < n {
        lemma_rest_monotone(b, g, s, m, (n - 1) as nat);
    }
}

/// An evaluation that goes on searches the next bucket.
pub proof fn lemma_bucket_step(
    b: Board,
    m: Store,
    g: int,
    s: Seq<u32>,
    bound: Option<nat>,
    p: nat,
)
    requires
        p != GREEN,
        0 < b.bucket(g, s, p as int).len() < s.len(),
        goes_on(b, g, s, bound, p),
    ensures
        after_buckets(b, m, g, s, bound, p + 1) == after_search(
            b,
            after_buckets(b, m, g, s, bound, p),
            b.bucket(g, s, p as int),
            false,
        ),
{
    reveal(after_search);
}

/// An evaluation that has ended searches nothing more.
pub proof fn lemma_buckets_end(
    b: Board,
    m: Store,
    g: int,
    s: Seq<u32>,
    bound: Option<nat>,
    k: nat,
    n: nat,
)
    requires
        k <= n,
        !goes_on(b, g, s, bound, k),
    ensures
        after_buckets(b, m, g, s, bound, n) == after_buckets(b, m, g, s, bound, k),
    decreases n,
{
    if k < n {
        lemma_buckets_end(b, m, g, s, bound, k, (n - 1) as nat);
        lemma_rest_monotone(b, g, s, k, (n - 1) as nat);
        if has_bucket(b, g, s, k) {
            let q = choose|q: int|
                0 <= q < k && q != GREEN && (#[trigger] b.bucket(g, s, q)).len() > 0;
            assert(has_bucket(b, g, s, (n - 1) as nat));
        }
    }
}

/// Once the best cost is down at the floor, nothing more is tried.
pub proof fn lemma_tries_end(b: Board, m: Store, s: Seq<u32>, order: Seq<Rated>, k: nat, n: nat)
    requires
        k <= n,
        board::less(b.search(s, order, k).0, Some(b.floor(s) + 1)),
    ensures
        after_tries(b, m, s, order, n) == after_tries(b, m, s, order, k),
    decreases n,
{
    if k < n {
        lemma_tries_end(b, m, s, order, k, (n - 1) as nat);
        solver::lemma_search_stops(b, s, order, k, (n - 1) as nat);
    }
}

/// What searches of sets of fewer than `len` candidates beyond the root add: results of such sets,
/// of two to 160 candidates, and, as long as all of them are remembered, one search for each.
spec fn grown(m: Store, n: Store, len: nat) -> bool {
    &&& n.root == m.root
    &&& m.beyond.submap_of(n.beyond)
    &&& forall|k: Seq<u32>| #[trigger]
        n.beyond.contains_key(k) ==> m.beyond.contains_key(k) || (2 <= k.len() < len && k.len()
            <= 160)
    &&& m.beyond.dom().finite() ==> n.beyond.dom().finite()
    &&& n.count >= m.count
    &&& m.beyond.dom().finite() && n.count < u64::MAX ==> n.count - m.count >= n.beyond.dom().len()
        - m.beyond.dom().len()
    &&& m.beyond.dom().finite() && n.count < u64::MAX && len <= 161 ==> n.count - m.count
        == n.beyond.dom().len() - m.beyond.dom().len()
}

proof fn lemma_submaps(
    x: Map<Seq<u32>, (Option<u128>, u32)>,
    y: Map<Seq<u32>, (Option<u128>, u32)>,
    z: Map<Seq<u32>, (Option<u128>, u32)>,
)
    requires
        x.submap_of(y),
        y.submap_of(z),
    ensures
        x.submap_of(z),
{
    assert forall|k: Seq<u32>| #[trigger] x.dom().contains(k) implies z.dom().contains(k) && x[k]
        == z[k] by {
        assert(y.dom().contains(k));
        assert(y[k] == x[k]);
        assert(z.dom().contains(k));
        assert(z[k] == y[k]);
    }
}

proof fn lemma_grown_twice(m: Store, n: Store, o: Store, len: nat, more: nat)
    requires
        grown(m, n, more),
        grown(n, o, len),
        len <= more,
    ensures
        grown(m, o, more),
{
    lemma_submaps(m.beyond, n.beyond, o.beyond);
    assert forall|k: Seq<u32>| #[trigger] o.beyond.contains_key(k) implies m.beyond.contains_key(k)
        || (2 <= k.len() < more && k.len() <= 160) by {
        assert(n.beyond.contains_key(k) || k.len() < len);
    }
}

proof fn lemma_search_grown(b: Board, m: Store, s: Seq<u32>)
    requires
        s.len() >= 1,
    ensures
        grown(m, after_search(b, m, s, false), s.len() + 1),
    decreases s.len(), 3nat, 0nat,
{
    reveal(after_search);
    if !(s.len() == 1 || m.holds(s, false)) {
        let order = b.ranking(s, b.universe(s, false));
        let c = m.counted();
        let t = after_tries(b, c, s, order, order.len());
        lemma_tries_grown(b, c, s, order, order.len());
        assert(!t.beyond.contains_key(s));
        let n = t.with(s, false, b.best(s, false));
        assert(m.beyond.submap_of(n.beyond)) by {
            assert forall|k: Seq<u32>| #[trigger] m.beyond.dom().contains(k) implies
                n.beyond.dom().contains(k) && m.beyond[k] == n.beyond[k] by {
                assert(c.beyond.dom().contains(k));
                assert(t.beyond.dom().contains(k));
            }
        }
        assert forall|k: Seq<u32>| #[trigger] n.beyond.contains_key(k) implies
            m.beyond.contains_key(k) || (2 <= k.len() < s.len() + 1 && k.len() <= 160) by {
            if k != s {
                assert(t.beyond.contains_key(k));
            }
        }
    }
}

proof fn lemma_tries_grown(b: Board, m: Store, s: Seq<u32>, order: Seq<Rated>, n: nat)
    ensures
        grown(m, after_tries(b, m, s, order, n), s.len()),
    decreases s.len(), 2nat, n,
{
    if n > 0 {
        let before = after_tries(b, m, s, order, (n - 1) as nat);
        lemma_tries_grown(b, m, s, order, (n - 1) as nat);
        let best = b.search(s, order, (n - 1) as nat).0;
        if !board::less(best, Some(b.floor(s) + 1)) {
            let g = order[n - 1].guess as int;
            lemma_buckets_grown(b, before, g, s, best, 243);
            lemma_grown_twice(m, before, after_guess(b, before, g, s, best), s.len(), s.len());
        }
    }
}

proof fn lemma_buckets_grown(
    b: Board,
    m: Store,
    g: int,
    s: Seq<u32>,
    bound: Option<nat>,
    n: nat,
)
    ensures
        grown(m, after_buckets(b, m, g, s, bound, n), s.len()),
    decreases s.len(), 0nat, n,
{
    if n > 0 {
        let p = (n - 1) as nat;
        let before = after_buckets(b, m, g, s, bound, p);
        let sub = b.bucket(g, s, p as int);
        lemma_buckets_grown(b, m, g, s, bound, p);
        if p != GREEN && 0 < sub.len() < s.len() && goes_on(b, g, s, bound, p) {
            lemma_bucket_step(b, m, g, s, bound, p);
            lemma_search_grown(b, before, sub);
            let now = after_search(b, before, sub, false);
            lemma_grown_twice(m, before, now, sub.len() + 1, s.len());
        }
    }
}

/// What a search adds. A set of one candidate, and one that is remembered, add nothing. Any other
/// is remembered with its best cost and guess, at the root always and beyond it up to 160
/// candidates. Nothing is forgotten, nothing else is added at the root, and what is added beyond
/// it has at least two candidates and at most 160, and fewer than the set if it is another one.
/// And as long as no set is too long to be remembered, there are as many searches as there are new
/// results.
pub proof fn law_search_adds(b: Board, m: Store, s: Seq<u32>, root: bool)
    requires
        s.len() >= 1,
        m.root.dom().finite(),
        m.beyond.dom().finite(),
    ensures
        ({
            let n = after_search(b, m, s, root);
            let v = (stored(b.best(s, root).0), b.best(s, root).1);
            let known = s.len() == 1 || (if root {
                m.root.contains_key(s)
            } else {
                m.beyond.contains_key(s)
            });
            &&& known ==> n == m
            &&& !known && root ==> n.root == m.root.insert(s, v)
            &&& !root ==> n.root == m.root
            &&& !known && !root && s.len() <= 160 ==> n.beyond.contains_key(s) && n.beyond[s] == v
            &&& !root && s.len() > 160 && !known ==> !n.beyond.contains_key(s)
            &&& m.beyond.submap_of(n.beyond)
            &&& forall|k: Seq<u32>| #[trigger]
                n.beyond.contains_key(k) ==> m.beyond.contains_key(k) || (2 <= k.len() <= 160 && (
                k.len() < s.len() || (!root && k == s)))
            &&& !known && m.count < u64::MAX ==> n.count > m.count
            &&& n.count < u64::MAX && (s.len() <= 160 || (root && s.len() == 161)) ==> n.count
                - m.count == (n.root.dom().len() - m.root.dom().len()) + (n.beyond.dom().len()
                - m.beyond.dom().len())
            &&& n.count < u64::MAX ==> n.count - m.count >= (n.root.dom().len()
                - m.root.dom().len()) + (n.beyond.dom().len() - m.beyond.dom().len())
        }),
{
    reveal(after_search);
    let n = after_search(b, m, s, root);
    if !(s.len() == 1 || m.holds(s, root)) {
        let order = b.ranking(s, b.universe(s, root));
        let c = m.counted();
        let t = after_tries(b, c, s, order, order.len());
        lemma_tries_grown(b, c, s, order, order.len());
        assert(root || !t.beyond.contains_key(s));
        assert(m.beyond.submap_of(n.beyond)) by {
            assert forall|k: Seq<u32>| #[trigger] m.beyond.dom().contains(k) implies
                n.beyond.dom().contains(k) && m.beyond[k] == n.beyond[k] by {
                assert(c.beyond.dom().contains(k));
                assert(t.beyond.dom().contains(k));
            }
        }
        assert forall|k: Seq<u32>| #[trigger] n.beyond.contains_key(k) implies
            m.beyond.contains_key(k) || (2 <= k.len() <= 160 && (k.len() < s.len() || (!root && k
            == s))) by {
            if root || k != s {
                assert(t.beyond.contains_key(k));
            }
        }
    } else {
        assert forall|k: Seq<u32>| #[trigger] m.beyond.dom().contains(k) implies
            n.beyond.dom().contains(k) && m.beyond[k] == n.beyond[k] by {}
    }
}

/// What the evaluation of a guess adds: nothing at the root; beyond it results of smaller sets; and
/// as many searches as results, as long as all are remembered.
pub proof fn law_guess_adds(b: Board, m: Store, g: int, s: Seq<u32>, bound: Option<nat>)
    requires
        s.len() >= 1,
        m.beyond.dom().finite(),
    ensures
        ({
            let n = after_guess(b, m, g, s, bound);
            &&& n.root == m.root
            &&& m.beyond.submap_of(n.beyond)
            &&& forall|k: Seq<u32>| #[trigger]
                n.beyond.contains_key(k) ==> m.beyond.contains_key(k) || (2 <= k.len() <= 160
                    && k.len() < s.len())
            &&& n.count >= m.count
            &&& n.count < u64::MAX && s.len() <= 161 ==> n.count - m.count == n.beyond.dom().len()
                - m.beyond.dom().len()
        }),
{
    lemma_buckets_grown(b, m, g, s, bound, 243);
}

/// An evaluation ends as soon as it reaches its bound: if what the patterns below `n` leave brings
/// the cost to the bound, nothing that later patterns leave is searched.
pub proof fn law_guess_ends(
    b: Board,
    m: Store,
    g: int,
    s: Seq<u32>,
    bound: nat,
    n: nat,
    q: int,
)
    requires
        n <= 243,
        0 <= q < n,
        q != 242,
        b.bucket(g, s, q).len() > 0,
        b.rest(g, s, n) matches Some(y) ==> b.wsum(s) + y >= bound,
    ensures
        after_guess(b, m, g, s, Some(bound)) == after_buckets(b, m, g, s, Some(bound), n),
{
    assert(has_bucket(b, g, s, n));
    lemma_buckets_end(b, m, g, s, Some(bound), n, 243);
}

/// A search ends as soon as it is down at the floor: if one of the first `k` guesses of the ranking
/// has no larger cost, no later one is tried.
pub proof fn law_search_ends(b: Board, m: Store, s: Seq<u32>, order: Seq<Rated>, k: nat, n: nat)
    requires
        k <= n,
        b.search(s, order, k).0 is Some && b.search(s, order, k).0->0 <= b.floor(s),
    ensures
        after_tries(b, m, s, order, n) == after_tries(b, m, s, order, k),
{
    lemma_tries_end(b, m, s, order, k, n);
}

/// An evaluation without a bound, or whose cost stays below it, searches all that the guess leaves:
/// every bucket of two to 160 candidates is remembered afterwards.
pub proof fn law_guess_remembers(
    b: Board,
    m: Store,
    g: int,
    s: Seq<u32>,
    bound: Option<nat>,
    p: int,
)
    requires
        s.len() >= 1,
        board::less(b.cost(g, s), bound),
        0 <= p < 242,
        2 <= b.bucket(g, s, p).len() <= 160,
    ensures
        after_guess(b, m, g, s, bound).beyond.contains_key(b.bucket(g, s, p)),
{
    lemma_buckets_remember(b, m, g, s, bound, p, 243);
}

proof fn lemma_buckets_remember(
    b: Board,
    m: Store,
    g: int,
    s: Seq<u32>,
    bound: Option<nat>,
    p: int,
    n: nat,
)
    requires
        s.len() >= 1,
        board::less(b.cost(g, s), bound),
        0 <= p < n <= 243,
        p < 242,
        2 <= b.bucket(g, s, p).len() <= 160,
    ensures
        after_buckets(b, m, g, s, bound, n).beyond.contains_key(b.bucket(g, s, p)),
    decreases n,
{
    let last = (n - 1) as nat;
    let sub = b.bucket(g, s, last as int);
    let before = after_buckets(b, m, g, s, bound, last);
    lemma_rest_monotone(b, g, s, last, 243);
    lemma_rest_monotone(b, g, s, n, 243);
    if p == last {
        lemma_bucket_step(b, m, g, s, bound, last);
        reveal(after_search);
    } else {
        lemma_buckets_remember(b, m, g, s, bound, p, last);
        if last != GREEN && 0 < sub.len() < s.len() && goes_on(b, g, s, bound, last) {
            lemma_bucket_step(b, m, g, s, bound, last);
            lemma_search_grown(b, before, sub);
            assert(before.beyond.dom().contains(b.bucket(g, s, p)));
        }
    }
}

/// Whether nothing is forgotten from one store to another, and no search uncounted.
pub open spec fn extends(m: Store, n: Store) -> bool {
    &&& m.root.submap_of(n.root)
    &&& m.beyond.submap_of(n.beyond)
    &&& m.count <= n.count
}

pub proof fn lemma_extends_twice(m: Store, n: Store, o: Store)
    requires
        extends(m, n),
        extends(n, o),
    ensures
        extends(m, o),
{
    lemma_submaps(m.root, n.root, o.root);
    lemma_submaps(m.beyond, n.beyond, o.beyond);
}

pub proof fn lemma_extends_itself(m: Store)
    ensures
        extends(m, m),
{
}

/// The evaluation of a guess forgets nothing.
pub proof fn lemma_guess_extends(b: Board, m: Store, g: int, s: Seq<u32>, bound: Option<nat>)
    ensures
        extends(m, after_guess(b, m, g, s, bound)),
        after_guess(b, m, g, s, bound).root == m.root,
{
    lemma_buckets_grown(b, m, g, s, bound, 243);
}

/// A search at the root forgets nothing, and remembers the set unless it is a single candidate.
pub proof fn lemma_search_extends(b: Board, m: Store, s: Seq<u32>)
    ensures
        extends(m, after_search(b, m, s, true)),
        s.len() != 1 ==> after_search(b, m, s, true).root.contains_key(s),
{
    reveal(after_search);
    if !(s.len() == 1 || m.holds(s, true)) {
        let order = b.ranking(s, b.universe(s, true));
        let c = m.counted();
        let n = after_search(b, m, s, true);
        lemma_tries_grown(b, c, s, order, order.len());
        assert forall|k: Seq<u32>| #[trigger] m.root.dom().contains(k) implies
            n.root.dom().contains(k) && m.root[k] == n.root[k] by {}
        lemma_submaps(m.beyond, c.beyond, n.beyond);
    }
}

/// What comparing the candidates as guesses adds: nothing at the root, and nothing is forgotten.
pub proof fn lemma_candidates_extend(b: Board, m: Store, s: Seq<u32>, n: nat)
    ensures
        extends(m, after_candidates(b, m, s, n)),
        after_candidates(b, m, s, n).root == m.root,
    decreases n,
{
    if n > 0 {
        let before = after_candidates(b, m, s, (n - 1) as nat);
        let g = b.home(s[n - 1]) as int;
        let bound = solver::cheapest(b, s, (n - 1) as nat).0;
        lemma_candidates_extend(b, m, s, (n - 1) as nat);
        lemma_guess_extends(b, before, g, s, bound);
        lemma_extends_twice(m, before, after_guess(b, before, g, s, bound));
    }
}

/// Comparing the candidates as guesses searches all that a candidate leaves which costs less than
/// every one before it: its buckets of two to 160 candidates are remembered afterwards.
pub proof fn law_candidates_remember(b: Board, m: Store, s: Seq<u32>, n: nat, i: int, p: int)
    requires
        0 <= i < n <= s.len(),
        b.cost(b.home(s[i]) as int, s) is Some,
        forall|j: int|
            0 <= j < i ==> board::less(
                b.cost(b.home(s[i]) as int, s),
                b.cost(b.home(#[trigger] s[j]) as int, s),
            ),
        0 <= p < 242,
        2 <= b.bucket(b.home(s[i]) as int, s, p).len() <= 160,
    ensures
        after_candidates(b, m, s, n).beyond.contains_key(b.bucket(b.home(s[i]) as int, s, p)),
    decreases n,
{
    let sub = b.bucket(b.home(s[i]) as int, s, p);
    let before = after_candidates(b, m, s, (n - 1) as nat);
    let bound = solver::cheapest(b, s, (n - 1) as nat).0;
    let g = b.home(s[n - 1]) as int;
    if i == n - 1 {
        solver::lemma_cheapest(b, s, i as nat);
        if bound is Some {
            let j = choose|j: int|
                0 <= j < i && solver::cheapest(b, s, i as nat).1 == b.home(#[trigger] s[j])
                    && solver::cheapest(b, s, i as nat).0 == b.cost(b.home(s[j]) as int, s);
            assert(board::less(b.cost(g, s), b.cost(b.home(s[j]) as int, s)));
        }
        law_guess_remembers(b, before, g, s, bound, p);
    } else {
        law_candidates_remember(b, m, s, (n - 1) as nat, i, p);
        lemma_guess_extends(b, before, g, s, bound);
        assert(before.beyond.dom().contains(sub));
    }
}

/// Comparing the candidates as guesses stops at a candidate as soon as what it leaves brings it up
/// to the cost of an earlier one: nothing that its later patterns leave is searched.
pub proof fn law_candidates_end(
    b: Board,
    m: Store,
    s: Seq<u32>,
    i: int,
    j: int,
    n: nat,
    q: int,
    p: int,
)
    requires
        0 <= j < i < s.len(),
        n <= 243,
        0 <= q < n,
        q != 242,
        b.bucket(b.home(s[i]) as int, s, q).len() > 0,
        b.cost(b.home(s[j]) as int, s) is Some,
        b.rest(b.home(s[i]) as int, s, n) matches Some(y) ==> b.wsum(s) + y >= b.cost(
            b.home(s[j]) as int,
            s,
        )->0,
        n <= p < 243,
    ensures
        ({
            let before = after_candidates(b, m, s, i as nat);
            let least = solver::cheapest(b, s, i as nat).0;
            after_candidates(b, m, s, i as nat + 1) == after_buckets(
                b,
                before,
                b.home(s[i]) as int,
                s,
                least,
                p as nat,
            )
        }),
{
    let g = b.home(s[i]) as int;
    let least = solver::cheapest(b, s, i as nat).0;
    let before = after_candidates(b, m, s, i as nat);
    solver::lemma_cheapest(b, s, i as nat);
    assert(!board::less(b.cost(b.home(s[j]) as int, s), least));
    assert(has_bucket(b, g, s, n));
    lemma_buckets_end(b, before, g, s, least, n, 243);
    lemma_buckets_end(b, before, g, s, least, n, p as nat);
}

pub proof fn lemma_search_at_root(b: Board, m: Store, s: Seq<u32>)
    ensures
        ({
            let n = after_search(b, m, s, true);
            if s.len() == 1 || m.root.contains_key(s) {
                n == m
            } else {
                n.root == m.root.insert(s, (stored(b.best(s, true).0), b.best(s, true).1))
            }
        }),
{
    reveal(after_search);
    let order = b.ranking(s, b.universe(s, true));
    lemma_tries_grown(b, m.counted(), s, order, order.len());
}

} // verus!
