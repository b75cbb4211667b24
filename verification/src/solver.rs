//! Exact expectimax over the words of a board.

use vstd::prelude::*;
use vstd::slice::slice_to_vec;
use crate::admissible;
use crate::board;
use crate::board::{Board, Rated};
use crate::bounds;
use crate::bounds::build_lb;
use crate::index;
use crate::index::WordIndex;
use crate::memo::Memo;
use crate::memory;
use crate::memory::Store;
use crate::optimal;
use crate::parts;
use crate::sort;
use crate::words;
use crate::words::{feedback, Word, GREEN};

verus! {

/// Sets of more candidates than this are not remembered beyond the root.
pub const MEMO_MAX: usize = 160;

/// A board with its tables, and what has been found out about it so far.
pub struct Solver {
    answers: Vec<Word>,
    guesses: Vec<Word>,
    /// One row of patterns for each guess, one pattern for each column.
    pat: Vec<u8>,
    /// The guess that is the answer of a column.
    a2g: Vec<u32>,
    /// The column whose answer a guess is.
    g2a: Vec<Option<u32>>,
    w: Vec<u64>,
    lb: Vec<u64>,
    /// Results beyond the root, where the candidates are the guesses.
    memo: Memo,
    /// Results at the root, where every legal guess is tried.
    memo0: Memo,
    nodes: u64,
}

/// A cost as a number of the model.
pub open spec fn amount(c: Option<u128>) -> Option<nat> {
    match c {
        Some(x) => Some(x as nat),
        None => None,
    }
}

/// The last column among the first `n` whose answer is guess `g`.
pub open spec fn column_of(b: Board, g: int, n: nat) -> Option<u32>
    decreases n,
{
    if n == 0 {
        None
    } else if b.home((n - 1) as u32) == g {
        Some((n - 1) as u32)
    } else {
        column_of(b, g, (n - 1) as nat)
    }
}

/// The cost of a guess as a search with an upper bound sees it: unless the guess solves every
/// candidate, a cost that is not below the bound counts as unbounded.
pub open spec fn cost_below(b: Board, g: int, s: Seq<u32>, bound: Option<nat>) -> Option<nat> {
    if b.part(g, s, GREEN as int).len() == s.len() || board::less(b.cost(g, s), bound) {
        b.cost(g, s)
    } else {
        None
    }
}

impl View for Solver {
    type V = Board;

    closed spec fn view(&self) -> Board {
        Board { answers: self.answers@, guesses: self.guesses@, weights: self.w@ }
    }
}

/// Whether the remembered results are those of the model.
pub open spec fn remembers(b: Board, m: Map<Seq<u32>, (Option<u128>, u32)>, root: bool) -> bool {
    forall|k: Seq<u32>| #[trigger]
        m.contains_key(k) ==> (amount(m[k].0), m[k].1) == b.best(k, root)
}

/// Whether all candidates answer a guess alike, but not by five greens.
#[verifier::opaque]
pub open spec fn no_progress(b: Board, g: int, s: Seq<u32>) -> bool {
    exists|p: int| 0 <= p < 243 && p != GREEN && #[trigger] b.part(g, s, p).len() == s.len()
}

/// What every call keeps: the board, and all that is remembered. The count of searches does not
/// go down.
#[verifier::opaque]
pub open spec fn keeps(before: Solver, after: Solver) -> bool {
    &&& after@ == before@
    &&& after.searched() >= before.searched()
    &&& before.memory(true).submap_of(after.memory(true))
    &&& before.memory(false).submap_of(after.memory(false))
}

/// Whether a list holds some, but not all, of the items of another one.
pub open spec fn part_of(k: Seq<u32>, s: Seq<u32>) -> bool {
    k.len() < s.len() && k.to_multiset().subset_of(s.to_multiset())
}

/// What the evaluation of guesses on a list does to the solver: nothing changes at the root, and
/// what is new beyond it are parts of the list.
#[verifier::opaque]
pub open spec fn explored(before: Solver, after: Solver, s: Seq<u32>) -> bool {
    &&& keeps(before, after)
    &&& after.memory(true) == before.memory(true)
    &&& forall|k: Seq<u32>| #[trigger]
        after.remembered(k, false) ==> before.remembered(k, false) || (2 <= k.len() <= MEMO_MAX
            && part_of(k, s))
}

/// What a search of a list does: the result is the best cost and guess. A single candidate, and a
/// list that is remembered, leave the solver as it was. Otherwise at least one more search is
/// counted, at the root the result is remembered and nothing else there changes, and beyond the
/// root the result, if the list is short enough, and parts of the list are remembered.
#[verifier::opaque]
pub open spec fn searched_for(
    before: Solver,
    s: Seq<u32>,
    root: bool,
    r: (Option<u128>, u32),
    after: Solver,
) -> bool {
    &&& (amount(r.0), r.1) == before@.best(s, root)
    &&& if s.len() == 1 || before.remembered(s, root) {
        after == before
    } else {
        &&& keeps(before, after)
        &&& before.searched() < u64::MAX ==> after.searched() > before.searched()
        &&& after.memory(true) == if root {
            before.memory(true).insert(s, r)
        } else {
            before.memory(true)
        }
        &&& !root && s.len() <= MEMO_MAX ==> after.remembered(s, false) && after.memory(false)[s]
            == r
        &&& forall|k: Seq<u32>| #[trigger]
            after.remembered(k, false) ==> before.remembered(k, false) || (2 <= k.len()
                <= MEMO_MAX && (part_of(k, s) || (!root && k == s)))
    }
}

impl Solver {
    /// The tables are those of the board, and what is remembered is true.
    #[verifier::opaque]
    pub closed spec fn tables(&self) -> bool {
        let b = self@;
        let a = b.answers.len() as int;
        &&& b.guesses.len() * a <= usize::MAX
        &&& self.pat@.len() == b.guesses.len() * a
        &&& forall|g: int, c: int|
            #![trigger b.pattern(g, c)]
            b.legal(g) && 0 <= c < a ==> self.pat@[g * a + c] == b.pattern(g, c)
        &&& self.a2g@.len() == a
        &&& forall|c: int| 0 <= c < a ==> #[trigger] self.a2g@[c] == b.home(c as u32)
        &&& self.g2a@.len() == b.guesses.len()
        &&& forall|g: int| b.legal(g) ==> #[trigger] self.g2a@[g] == column_of(b, g, a as nat)
        &&& self.lb@.len() == a + 1
        &&& forall|m: int| 0 <= m <= a ==> #[trigger] self.lb@[m] == bounds::even_cost(m as nat)
        &&& self.memo.wf()
        &&& self.memo0.wf()
        &&& remembers(b, self.memo@, false)
        &&& remembers(b, self.memo0@, true)
        &&& forall|k: Seq<u32>| #[trigger]
            self.memo@.contains_key(k) ==> 2 <= k.len() <= MEMO_MAX
        &&& forall|k: Seq<u32>| #[trigger] self.memo0@.contains_key(k) ==> 2 <= k.len()
    }

    /// The board is valid, and all that is kept of it holds.
    pub open spec fn wf(&self) -> bool {
        self@.valid() && self.tables()
    }

    /// Whether a list is one that the solver works on: some of the columns.
    pub open spec fn candidates(self, s: Seq<u32>) -> bool {
        1 <= s.len() <= self@.answers.len() && self@.columns(s)
    }

    /// How many sets of candidates have been searched.
    pub closed spec fn searched(self) -> nat {
        self.nodes as nat
    }

    /// The results that are remembered: those at the root, or those beyond it.
    pub closed spec fn memory(self, root: bool) -> Map<Seq<u32>, (Option<u128>, u32)> {
        if root {
            self.memo0@
        } else {
            self.memo@
        }
    }

    /// Whether the result of a set of candidates is remembered.
    pub open spec fn remembered(self, s: Seq<u32>, root: bool) -> bool {
        self.memory(root).contains_key(s)
    }

    /// All that is remembered, and the number of searches.
    pub open spec fn store(self) -> Store {
        Store { root: self.memory(true), beyond: self.memory(false), count: self.searched() }
    }

    /// Sets up the tables of a board. The guess of an answer is the last one that is its word. If
    /// an answer is not a legal guess, the first column of which that holds is returned.
    pub fn new(answers: Vec<Word>, guesses: Vec<Word>, weights: Vec<u64>) -> (r: Result<
        Solver,
        usize,
    >)
        requires
            weights@.len() == answers@.len(),
            answers@.len() <= u32::MAX,
            answers@.len() < usize::MAX,
            guesses@.len() <= u32::MAX,
            guesses@.len() * answers@.len() <= usize::MAX,
            forall|g: int, c: int|
                0 <= g < guesses@.len() && 0 <= c < answers@.len() ==> words::scorable(
                    #[trigger] guesses@[g]@,
                    #[trigger] answers@[c]@,
                ),
            forall|c: int| 0 <= c < weights@.len() ==> #[trigger] weights@[c] > 0,
        ensures
            match r {
                Ok(solver) => {
                    &&& solver.wf()
                    &&& solver@ == (Board {
                        answers: answers@,
                        guesses: guesses@,
                        weights: weights@,
                    })
                    &&& solver.searched() == 0
                    &&& forall|root: bool| #[trigger] solver.memory(root) == Map::<
                        Seq<u32>,
                        (Option<u128>, u32),
                    >::empty()
                },
                Err(c) => {
                    &&& c < answers@.len()
                    &&& index::last_place(guesses@, answers@[c as int]) is None
                    &&& forall|k: int|
                        0 <= k < c ==> index::last_place(
                            guesses@,
                            #[trigger] answers@[k],
                        ) is Some
                },
            },
    {
        let ghost b = Board { answers: answers@, guesses: guesses@, weights: weights@ };
        let a = answers.len();
        let ng = guesses.len();
        let places = WordIndex::of(&guesses);
        let mut a2g: Vec<u32> = Vec::with_capacity(a);
        let mut g2a: Vec<Option<u32>> = Vec::with_capacity(ng);
        let mut g: usize = 0;
        while g < ng
            invariant
                g <= ng,
                g2a@.len() == g,
                forall|k: int| 0 <= k < g ==> #[trigger] g2a@[k] == None::<u32>,
            decreases ng - g,
        {
            g2a.push(None);
            g = g + 1;
        }
        let mut c: usize = 0;
        while c < a
            invariant
                a == answers@.len(),
                a <= u32::MAX,
                ng == guesses@.len(),
                ng <= u32::MAX,
                b == (Board { answers: answers@, guesses: guesses@, weights: weights@ }),
                places.wf(),
                places@ == guesses@,
                c <= a,
                a2g@.len() == c,
                forall|k: int|
                    0 <= k < c ==> index::last_place(guesses@, #[trigger] answers@[k]) is Some,
                forall|k: int| 0 <= k < c ==> #[trigger] a2g@[k] == b.home(k as u32),
                g2a@.len() == ng,
                forall|k: int|
                    0 <= k < ng ==> #[trigger] g2a@[k] == column_of(b, k, c as nat),
            decreases a - c,
        {
            match places.get(&answers[c]) {
                Some(k) => {
                    proof {
                        index::lemma_last_place(guesses@, answers@[c as int]);
                        assert(b.home(c as u32) == k);
                    }
                    a2g.push(k as u32);
                    g2a[k] = Some(c as u32);
                },
                None => {
                    return Err(c);
                },
            }
            c = c + 1;
        }
        let mut pat: Vec<u8> = Vec::with_capacity(ng * a);
        g = 0;
        while g < ng
            invariant
                a == answers@.len(),
                ng == guesses@.len(),
                b == (Board { answers: answers@, guesses: guesses@, weights: weights@ }),
                forall|g: int, c: int|
                    0 <= g < guesses@.len() && 0 <= c < answers@.len() ==> words::scorable(
                        #[trigger] guesses@[g]@,
                        #[trigger] answers@[c]@,
                    ),
                g <= ng,
                pat@.len() == g * a,
                forall|k: int, l: int|
                    #![trigger b.pattern(k, l)]
                    0 <= k < g && 0 <= l < a ==> pat@[k * a + l] == b.pattern(k, l),
            decreases ng - g,
        {
            let mut l: usize = 0;
            assert(g * a + 0 == g * a);
            while l < a
                invariant
                    a == answers@.len(),
                    ng == guesses@.len(),
                    b == (Board { answers: answers@, guesses: guesses@, weights: weights@ }),
                    forall|g: int, c: int|
                        0 <= g < guesses@.len() && 0 <= c < answers@.len() ==> words::scorable(
                            #[trigger] guesses@[g]@,
                            #[trigger] answers@[c]@,
                        ),
                    g < ng,
                    l <= a,
                    pat@.len() == g * a + l,
                    forall|k: int, m: int|
                        #![trigger b.pattern(k, m)]
                        0 <= k < g && 0 <= m < a ==> pat@[k * a + m] == b.pattern(k, m),
                    forall|m: int|
                        #![trigger b.pattern(g as int, m)]
                        0 <= m < l ==> pat@[g * a + m] == b.pattern(g as int, m),
                decreases a - l,
            {
                assert(words::scorable(guesses@[g as int]@, answers@[l as int]@));
                let ghost before = pat@;
                pat.push(feedback(&guesses[g], &answers[l]));
                proof {
                    assert forall|k: int, m: int|
                        #![trigger b.pattern(k, m)]
                        0 <= k < g && 0 <= m < a implies pat@[k * a + m] == b.pattern(k, m) by {
                        assert(0 <= k * a + m < g * a) by (nonlinear_arith)
                            requires
                                0 <= k < g,
                                0 <= m < a,
                        ;
                        assert(before[k * a + m] == b.pattern(k, m));
                    }
                }
                l = l + 1;
            }
            proof {
                assert((g + 1) * a == g * a + a) by (nonlinear_arith);
            }
            g = g + 1;
        }
        let lb = build_lb(a);
        proof {
            reveal(Solver::tables);
        }
        Ok(
            Solver {
                answers,
                guesses,
                pat,
                a2g,
                g2a,
                w: weights,
                lb,
                memo: Memo::new(),
                memo0: Memo::new(),
                nodes: 0,
            },
        )
    }

    /// The number of answers.
    pub fn answer_count(&self) -> (r: usize)
        ensures
            r == self@.answers.len(),
    {
        self.answers.len()
    }

    /// The number of legal guesses.
    pub fn guess_count(&self) -> (r: usize)
        ensures
            r == self@.guesses.len(),
    {
        self.guesses.len()
    }

    /// The answer of a column.
    pub fn answer(&self, c: u32) -> (r: Word)
        requires
            c < self@.answers.len(),
        ensures
            r == self@.answers[c as int],
    {
        self.answers[c as usize]
    }

    /// The word of a guess.
    pub fn guess(&self, g: u32) -> (r: Word)
        requires
            self@.legal(g as int),
        ensures
            r == self@.guesses[g as int],
    {
        self.guesses[g as usize]
    }

    /// The weight of a column.
    pub fn weight(&self, c: u32) -> (r: u64)
        requires
            self.wf(),
            c < self@.answers.len(),
        ensures
            r == self@.weights[c as int],
    {
        self.w[c as usize]
    }

    /// The guess that is the answer of a column.
    pub fn home(&self, c: u32) -> (r: u32)
        requires
            self.wf(),
            c < self@.answers.len(),
        ensures
            r == self@.home(c),
            self@.legal(r as int),
    {
        proof {
            reveal(Solver::tables);
            optimal::lemma_home(self@, c);
        }
        self.a2g[c as usize]
    }

    /// The column whose answer a guess is; nothing for a guess that is no answer.
    pub fn column(&self, g: u32) -> (r: Option<u32>)
        requires
            self.wf(),
            self@.legal(g as int),
        ensures
            r == column_of(self@, g as int, self@.answers.len()),
    {
        proof {
            reveal(Solver::tables);
        }
        self.g2a[g as usize]
    }

    /// How many sets of candidates have been searched.
    pub fn nodes(&self) -> (r: u64)
        ensures
            r == self.searched(),
    {
        self.nodes
    }

    /// The pattern of a guess against the answer of a column.
    pub fn pat(&self, g: u32, a: u32) -> (p: u8)
        requires
            self.wf(),
            self@.legal(g as int),
            a < self@.answers.len(),
        ensures
            p == self@.pattern(g as int, a as int),
            p < 243,
    {
        proof {
            reveal(Solver::tables);
            let n = self@.answers.len() as int;
            let m = self@.guesses.len() as int;
            assert(self@.pattern(g as int, a as int) == self.pat@[g * n + a]);
            assert(g * n + a < m * n && 0 <= g * n) by (nonlinear_arith)
                requires
                    0 <= g < m,
                    0 <= a < n,
            ;
            words::lemma_pattern(self@.guesses[g as int]@, self@.answers[a as int]@);
        }
        self.pat[g as usize * self.answers.len() + a as usize]
    }

    /// The total weight of some columns.
    pub fn wsum(&self, s: &[u32]) -> (r: u128)
        requires
            self.wf(),
            self@.columns(s@),
            s@.len() <= u32::MAX,
        ensures
            r == self@.wsum(s@),
            r <= s@.len() * u64::MAX,
    {
        let mut r: u128 = 0;
        let mut i: usize = 0;
        let ghost ws = optimal::weights(self@, s@);
        assert(ws.take(0).len() == 0);
        while i < s.len()
            invariant
                self.wf(),
                self@.columns(s@),
                s@.len() <= u32::MAX,
                i <= s@.len(),
                ws == optimal::weights(self@, s@),
                r == bounds::total(ws.take(i as int)),
                r <= i * u64::MAX,
            decreases s@.len() - i,
        {
            assert(ws.take(i + 1).drop_last() =~= ws.take(i as int));
            assert(ws.take(i + 1).last() == self.w@[s@[i as int] as int]);
            r = r + self.w[s[i] as usize] as u128;
            i = i + 1;
        }
        assert(ws.take(i as int) =~= ws);
        r
    }

    /// The cost of the perfect tree that holds the candidates, the heaviest at the shallowest
    /// depths: no way to play undercuts it.
    pub fn global_lb(&self, s: &[u32]) -> (r: u128)
        requires
            self.wf(),
            self@.columns(s@),
            s@.len() <= u32::MAX,
        ensures
            r == self@.floor(s@),
    {
        let ghost ws = optimal::weights(self@, s@);
        let mut unsorted: Vec<u64> = Vec::with_capacity(s.len());
        let mut k: usize = 0;
        while k < s.len()
            invariant
                self.wf(),
                self@.columns(s@),
                ws == optimal::weights(self@, s@),
                k <= s@.len(),
                unsorted@ == ws.take(k as int),
            decreases s@.len() - k,
        {
            unsorted.push(self.w[s[k] as usize]);
            assert(ws.take(k + 1) =~= unsorted@);
            k = k + 1;
        }
        assert(ws.take(k as int) =~= ws);
        let up = sort::sort(&unsorted);
        let ghost hs = bounds::heaviest_first(ws);
        let n = up.len();
        proof {
            bounds::lemma_heaviest_first(ws);
        }
        let mut r: u128 = 0;
        let mut depth: u32 = 0;
        let mut capacity: usize = 1;
        let mut filled: usize = 0;
        let mut i: usize = 0;
        assert(hs.take(0).len() == 0);
        while i < n
            invariant
                n == up@.len(),
                n == hs.len(),
                n <= u32::MAX,
                hs == up@.reverse(),
                i <= n,
                depth <= i,
                r == bounds::tree_cost(hs.take(i as int)),
                i == filled + if depth == 0 {
                    0
                } else {
                    bounds::room((depth - 1) as nat)
                },
                filled <= bounds::width(depth as nat),
                filled <= capacity,
                capacity <= bounds::width(depth as nat),
                capacity < bounds::width(depth as nat) ==> capacity == usize::MAX,
            decreases n - i,
        {
            proof {
                if depth > 0 {
                    bounds::lemma_room_width((depth - 1) as nat);
                    assert(bounds::room((depth - 1) as nat) >= 1);
                }
                bounds::lemma_room_width(depth as nat);
            }
            if filled == capacity {
                depth = depth + 1;
                capacity = match capacity.checked_mul(242) {
                    Some(c) => c,
                    None => usize::MAX,
                };
                filled = 0;
            }
            proof {
                bounds::lemma_level_room(i as nat, depth as nat);
                assert(hs.take(i + 1).drop_last() =~= hs.take(i as int));
                assert(hs.take(i + 1).last() == up@[n - 1 - i]);
                bounds::lemma_tree_cost_bound(hs.take(i + 1));
                lemma_total_bound(hs.take(i + 1));
                let t = bounds::total(hs.take(i + 1)) as int;
                assert((i + 1) * t <= (i + 1) * ((i + 1) * u64::MAX)) by (nonlinear_arith)
                    requires
                        0 <= t <= (i + 1) * u64::MAX,
                        0 <= i,
                ;
                assert((i + 1) * ((i + 1) * u64::MAX) <= u32::MAX * (u32::MAX * u64::MAX))
                    by (nonlinear_arith)
                    requires
                        0 <= i < u32::MAX,
                ;
            }
            let wv: u64 = up[n - 1 - i];
            let places: u128 = depth as u128 + 1;
            proof {
                assert(wv as nat * (1 + depth) <= u64::MAX * (1 + u32::MAX)) by (nonlinear_arith)
                    requires
                        wv <= u64::MAX,
                        depth <= u32::MAX,
                ;
                assert(wv as nat * (1 + bounds::level(i as nat)) == wv as int * places);
            }
            r = r + wv as u128 * places;
            filled = filled + 1;
            i = i + 1;
        }
        assert(hs.take(i as int) =~= hs);
        r
    }

    /// How many candidates show each pattern after a guess.
    pub fn counts(&self, g: u32, s: &[u32]) -> (counts: [u32; 243])
        requires
            self.wf(),
            self@.legal(g as int),
            self@.columns(s@),
            s@.len() <= u32::MAX,
        ensures
            forall|p: int|
                0 <= p < 243 ==> #[trigger] counts@[p] == self@.part(g as int, s@, p).len(),
    {
        let mut counts: [u32; 243] = [0u32; 243];
        let mut i: usize = 0;
        proof {
            assert forall|p: int| 0 <= p < 243 implies #[trigger] counts@[p] == self@.part(
                g as int,
                s@.take(0),
                p,
            ).len() by {
                reveal(Seq::filter);
            }
        }
        while i < s.len()
            invariant
                self.wf(),
                self@.legal(g as int),
                self@.columns(s@),
                s@.len() <= u32::MAX,
                i <= s@.len(),
                forall|p: int|
                    0 <= p < 243 ==> #[trigger] counts@[p] == self@.part(
                        g as int,
                        s@.take(i as int),
                        p,
                    ).len(),
            decreases s@.len() - i,
        {
            let c: usize = self.pat(g, s[i]) as usize;
            proof {
                let t = s@.take(i + 1);
                assert(t.drop_last() =~= s@.take(i as int));
                assert forall|p: int| 0 <= p < 243 implies #[trigger] self@.part(
                    g as int,
                    t,
                    p,
                ).len() == self@.part(g as int, s@.take(i as int), p).len() + if p == c {
                    1int
                } else {
                    0int
                } by {
                    reveal(Seq::filter);
                }
                assert(counts@[c as int] <= i) by {
                    s@.take(i as int).lemma_filter_len(
                        parts::labelled(self@.label(g as int), c as int),
                    );
                }
            }
            counts[c] = counts[c] + 1;
            i = i + 1;
        }
        assert(s@.take(i as int) =~= s@);
        counts
    }

    /// The bound that the pattern counts of a guess give, if it tells two candidates apart.
    fn rate_guess(&self, g: u32, s: &[u32]) -> (r: Option<u64>)
        requires
            self.wf(),
            self@.legal(g as int),
            self.candidates(s@),
        ensures
            match r {
                Some(key) => self@.useful(g as int, s@) && key == self@.even_bound(
                    g as int,
                    s@,
                    243,
                ),
                None => !self@.useful(g as int, s@),
            },
    {
        let counts = self.counts(g, s);
        let nb = s.len();
        let mut p: usize = 0;
        while p < 243
            invariant
                nb == s@.len(),
                p <= 243,
                forall|q: int|
                    0 <= q < 243 ==> #[trigger] counts@[q] == self@.part(g as int, s@, q).len(),
                forall|q: int| 0 <= q < p ==> #[trigger] self@.part(g as int, s@, q).len() != nb,
            decreases 243 - p,
        {
            assert(counts@[p as int] == self@.part(g as int, s@, p as int).len());
            if counts[p] as usize == nb {
                return None;
            }
            p = p + 1;
        }
        Some(self.even_bound(g, s, &counts))
    }

    /// The sum of the even costs of what a guess leaves, but for five greens, given the pattern
    /// counts of the guess.
    pub fn even_bound(&self, g: u32, s: &[u32], counts: &[u32; 243]) -> (r: u64)
        requires
            self.wf(),
            self@.legal(g as int),
            self.candidates(s@),
            forall|p: int|
                0 <= p < 243 ==> #[trigger] counts@[p] == self@.part(g as int, s@, p).len(),
        ensures
            r == self@.even_bound(g as int, s@, 243),
    {
        let mut r: u64 = 0;
        let mut p: usize = 0;
        while p < 243
            invariant
                self.wf(),
                self.candidates(s@),
                p <= 243,
                forall|q: int|
                    0 <= q < 243 ==> #[trigger] counts@[q] == self@.part(g as int, s@, q).len(),
                r == self@.even_bound(g as int, s@, p as nat),
            decreases 243 - p,
        {
            let c: u32 = counts[p];
            proof {
                s@.lemma_filter_len(parts::labelled(self@.label(g as int), p as int));
                lemma_even_bound(self@, g as int, s@, p as nat + 1);
                let l = s@.len() as int;
                assert(l * l <= u32::MAX * u32::MAX) by (nonlinear_arith)
                    requires
                        0 <= l <= u32::MAX,
                ;
                assert(c == self@.part(g as int, s@, p as int).len());
                reveal(Solver::tables);
            }
            if p != GREEN as usize {
                r = r + self.lb[c as usize];
            }
            p = p + 1;
        }
        r
    }

    /// The useful guesses of a list in the order in which they are tried.
    fn rank(&self, s: &[u32], list: &Vec<u32>) -> (r: Vec<Rated>)
        requires
            self.wf(),
            self.candidates(s@),
            list@.len() <= u32::MAX,
            forall|i: int| 0 <= i < list@.len() ==> self@.legal(#[trigger] list@[i] as int),
        ensures
            r@ == self@.ranking(s@, list@),
    {
        let mut all: Vec<Rated> = Vec::with_capacity(list.len());
        let mut i: usize = 0;
        while i < list.len()
            invariant
                self.wf(),
                self.candidates(s@),
                list@.len() <= u32::MAX,
                forall|k: int| 0 <= k < list@.len() ==> self@.legal(#[trigger] list@[k] as int),
                i <= list@.len(),
                all@ == self@.rated(s@, list@, i as nat),
            decreases list@.len() - i,
        {
            let g = list[i];
            assert(self@.legal(list@[i as int] as int));
            match self.rate_guess(g, s) {
                Some(key) => {
                    all.push(Rated { key, pos: i as u32, guess: g });
                },
                None => {},
            }
            i = i + 1;
        }
        sort::sort(&all)
    }

    /// The guesses to choose from.
    fn universe(&self, s: &[u32], root: bool) -> (r: Vec<u32>)
        requires
            self.wf(),
            self.candidates(s@),
        ensures
            r@ == self@.universe(s@, root),
    {
        let n = if root {
            self.guesses.len()
        } else {
            s.len()
        };
        let mut r: Vec<u32> = Vec::with_capacity(n);
        let mut i: usize = 0;
        while i < n
            invariant
                self.wf(),
                self.candidates(s@),
                n == self@.universe(s@, root).len(),
                i <= n,
                r@ == self@.universe(s@, root).take(i as int),
            decreases n - i,
        {
            if root {
                r.push(i as u32);
            } else {
                r.push(self.home(s[i]));
            }
            assert(self@.universe(s@, root).take(i + 1) =~= r@);
            i = i + 1;
        }
        assert(self@.universe(s@, root).take(i as int) =~= self@.universe(s@, root));
        r
    }

    /// The candidates that show each pattern after a guess.
    fn split(&self, g: u32, s: &Vec<u32>) -> (r: Vec<Vec<u32>>)
        requires
            self.wf(),
            self@.legal(g as int),
            self@.columns(s@),
        ensures
            r@.len() == 243,
            forall|p: int|
                0 <= p < 243 ==> (#[trigger] r@[p])@ == self@.part(g as int, s@, p),
    {
        let mut r: Vec<Vec<u32>> = Vec::with_capacity(243);
        let mut k: usize = 0;
        while k < 243
            invariant
                k <= 243,
                r@.len() == k,
                forall|p: int| 0 <= p < k ==> (#[trigger] r@[p])@ == Seq::<u32>::empty(),
            decreases 243 - k,
        {
            r.push(Vec::new());
            k = k + 1;
        }
        let mut i: usize = 0;
        proof {
            assert forall|p: int| 0 <= p < 243 implies (#[trigger] r@[p])@ == self@.part(
                g as int,
                s@.take(0),
                p,
            ) by {
                reveal(Seq::filter);
                assert(s@.take(0) =~= Seq::empty());
            }
        }
        while i < s.len()
            invariant
                self.wf(),
                self@.legal(g as int),
                self@.columns(s@),
                i <= s@.len(),
                r@.len() == 243,
                forall|p: int|
                    0 <= p < 243 ==> (#[trigger] r@[p])@ == self@.part(
                        g as int,
                        s@.take(i as int),
                        p,
                    ),
            decreases s@.len() - i,
        {
            let c: usize = self.pat(g, s[i]) as usize;
            let ghost before = r@;
            r[c].push(s[i]);
            proof {
                let t = s@.take(i + 1);
                assert(t.drop_last() =~= s@.take(i as int));
                assert forall|p: int| 0 <= p < 243 implies (#[trigger] r@[p])@ == self@.part(
                    g as int,
                    t,
                    p,
                ) by {
                    reveal(Seq::filter);
                    assert(before[p]@ == self@.part(g as int, s@.take(i as int), p));
                }
            }
            i = i + 1;
        }
        assert(s@.take(i as int) =~= s@);
        r
    }

    /// What is remembered of a set of candidates.
    fn recall(&self, s: &[u32], root: bool) -> (r: Option<(Option<u128>, u32)>)
        requires
            self.wf(),
        ensures
            r is Some <==> self.remembered(s@, root),
            r matches Some(v) ==> (amount(v.0), v.1) == self@.best(s@, root),
    {
        proof {
            reveal(Solver::tables);
        }
        if root {
            self.memo0.get(s)
        } else if s.len() <= MEMO_MAX {
            self.memo.get(s)
        } else {
            None
        }
    }

    /// Remembers the result of a set of candidates.
    fn remember(&mut self, s: &[u32], root: bool, cost: Option<u128>, guess: u32)
        requires
            old(self).wf(),
            (amount(cost), guess) == old(self)@.best(s@, root),
            s@.len() >= 2,
        ensures
            final(self).wf(),
            final(self)@ == old(self)@,
            final(self).searched() == old(self).searched(),
            final(self).memory(root) == if root || s@.len() <= MEMO_MAX {
                old(self).memory(root).insert(s@, (cost, guess))
            } else {
                old(self).memory(root)
            },
            final(self).memory(!root) == old(self).memory(!root),
    {
        proof {
            reveal(Solver::tables);
        }
        if root {
            self.memo0.insert(s, cost, guess);
        } else if s.len() <= MEMO_MAX {
            self.memo.insert(s, cost, guess);
        }
    }

    /// Counts one more set of candidates.
    fn count_node(&mut self)
        requires
            old(self).wf(),
        ensures
            final(self).wf(),
            final(self)@ == old(self)@,
            final(self).searched() == if old(self).searched() < u64::MAX {
                old(self).searched() + 1
            } else {
                old(self).searched()
            },
            final(self).memory(true) == old(self).memory(true),
            final(self).memory(false) == old(self).memory(false),
    {
        proof {
            reveal(Solver::tables);
        }
        if self.nodes < u64::MAX {
            self.nodes = self.nodes + 1;
        }
    }

    /// The cost of a set of candidates and the guess to play: at depth 0 the best of all legal
    /// guesses, deeper the best of the candidates. The cost over the weight of the set is the
    /// expected number of guesses.
    pub fn solve(&mut self, s: &[u32], depth: u32) -> (r: (Option<u128>, u32))
        requires
            old(self).wf(),
            old(self).candidates(s@),
        ensures
            final(self).wf(),
            final(self)@ == old(self)@,
            keeps(*old(self), *final(self)),
            (amount(r.0), r.1) == old(self)@.best(s@, depth == 0),
            old(self)@.distinct(s@) ==> old(self)@.optimal(s@, depth == 0, (amount(r.0), r.1)),
            searched_for(*old(self), s@, depth == 0, r, *final(self)),
            final(self).store() == memory::after_search(
                old(self)@,
                old(self).store(),
                s@,
                depth == 0,
            ),
        decreases s@.len(), 1nat,
    {
        let ghost start = *self;
        let ghost b = self@;
        proof {
            reveal(searched_for);
            reveal(memory::after_search);
            lemma_explored_none(start, s@);
            if b.distinct(s@) {
                admissible::law_best_is_optimal(b, s@, depth == 0);
            }
        }
        let nb = s.len();
        let root = depth == 0;
        if nb == 1 {
            return (Some(self.wsum(s)), self.home(s[0]));
        }
        if let Some(r) = self.recall(s, root) {
            return r;
        }
        self.count_node();
        let list = self.universe(s, root);
        proof {
            optimal::lemma_universe(b, s@, root);
            optimal::lemma_ranking(b, s@, list@);
        }
        let order = self.rank(s, &list);
        let glb = self.global_lb(s);
        let mut best: Option<u128> = None;
        let mut best_g: u32 = self.home(s[0]);
        let ghost counted = *self;
        proof {
            lemma_explored_none(counted, s@);
        }
        let mut k: usize = 0;
        while k < order.len()
            invariant
                self.wf(),
                self@ == b,
                explored(counted, *self, s@),
                self.store() == memory::after_tries(b, counted.store(), s@, order@, k as nat),
                self.candidates(s@),
                order@ == b.ranking(s@, list@),
                forall|i: int|
                    0 <= i < order@.len() ==> b.legal((#[trigger] order@[i]).guess as int),
                glb == b.floor(s@),
                k <= order@.len(),
                (amount(best), best_g) == b.search(s@, order@, k as nat),
            ensures
                (amount(best), best_g) == b.search(s@, order@, order@.len()),
                self.store() == memory::after_tries(b, counted.store(), s@, order@, order@.len()),
            decreases order@.len() - k,
        {
            let stop = match best {
                Some(x) => glb >= x,
                None => false,
            };
            if stop {
                proof {
                    lemma_search_stops(b, s@, order@, k as nat, order@.len());
                    memory::lemma_tries_end(
                        b,
                        counted.store(),
                        s@,
                        order@,
                        k as nat,
                        order@.len(),
                    );
                }
                break;
            }
            let g = order[k].guess;
            let ghost before = *self;
            let c = self.cost_of_guess(g, s, best, depth);
            proof {
                lemma_explored_twice(counted, before, *self, s@);
            }
            let better = match (c, best) {
                (Some(x), Some(y)) => x < y,
                (Some(_), None) => true,
                (None, _) => false,
            };
            if better {
                best = c;
                best_g = g;
            }
            k = k + 1;
        }
        let ghost done = *self;
        self.remember(s, root, best, best_g);
        proof {
            lemma_searched_for(start, counted, done, *self, s@, root, (best, best_g));
            assert(counted.store() == start.store().counted());
            assert(self.store() == done.store().with(s@, root, b.best(s@, root)));
        }
        (best, best_g)
    }

    /// The cost of guessing `g` on a set of candidates, or nothing if it is not below the bound. A
    /// guess that all candidates answer alike, but not by five greens, makes no progress: nothing
    /// is searched.
    pub fn cost_of_guess(&mut self, g: u32, s: &[u32], bound: Option<u128>, depth: u32) -> (r:
        Option<u128>)
        requires
            old(self).wf(),
            old(self)@.legal(g as int),
            old(self).candidates(s@),
        ensures
            final(self).wf(),
            amount(r) == cost_below(old(self)@, g as int, s@, amount(bound)),
            final(self)@ == old(self)@,
            keeps(*old(self), *final(self)),
            explored(*old(self), *final(self), s@),
            no_progress(old(self)@, g as int, s@) ==> *final(self) == *old(self),
            final(self).store() == memory::after_guess(
                old(self)@,
                old(self).store(),
                g as int,
                s@,
                amount(bound),
            ),
        decreases s@.len(), 0nat,
    {
        let ghost b = self@;
        let ghost start = *self;
        let nb = s.len();
        let wtot = self.wsum(s);
        let t = sort::sort(&slice_to_vec(s));
        proof {
            sort::lemma_sorted(s@);
            assert forall|i: int| 0 <= i < t@.len() implies #[trigger] t@[i] < b.answers.len() by {
                assert(t@.contains(t@[i]));
                assert(s@.contains(t@[i]));
            }
            lemma_explored_none(start, s@);
        }
        let buckets = self.split(g, &t);
        let mut sum: u128 = 0;
        let mut p: usize = 0;
        while p < 243
            invariant
                self.wf(),
                self@ == b,
                start == *old(self),
                b == start@,
                b.legal(g as int),
                explored(start, *self, s@),
                no_progress(b, g as int, s@) ==> *self == start,
                self.store() == memory::after_buckets(
                    b,
                    start.store(),
                    g as int,
                    s@,
                    amount(bound),
                    p as nat,
                ),
                self.candidates(s@),
                nb == s@.len(),
                wtot == b.wsum(s@),
                p <= 243,
                buckets@.len() == 243,
                forall|q: int|
                    0 <= q < 243 ==> (#[trigger] buckets@[q])@ == b.bucket(g as int, s@, q),
                b.rest(g as int, s@, p as nat) == Some(sum as nat),
                memory::has_bucket(b, g as int, s@, p as nat) ==> board::less(
                    Some((wtot + sum) as nat),
                    amount(bound),
                ),
            decreases 243 - p,
        {
            proof {
                optimal::lemma_bucket(b, g as int, s@, p as int);
                assert(buckets@[p as int]@ == b.bucket(g as int, s@, p as int));
                lemma_explored_keeps(start, *self, s@);
            }
            if p != GREEN as usize && buckets[p].len() > 0 {
                let sub = buckets[p].as_slice();
                proof {
                    memory::lemma_rest_monotone(b, g as int, s@, p as nat + 1, 243);
                    lemma_not_all_green(b, g as int, s@, p as int);
                }
                if sub.len() == nb {
                    proof {
                        memory::lemma_buckets_end(
                            b,
                            start.store(),
                            g as int,
                            s@,
                            amount(bound),
                            p as nat + 1,
                            243,
                        );
                    }
                    return None;
                }
                let ghost before = *self;
                let found = self.solve(sub, deeper(depth));
                proof {
                    lemma_bucket_searched(start, before, *self, g as int, s@, p as int, found);
                    assert(b.bucket(g as int, s@, p as int).len() > 0);
                    assert(memory::has_bucket(b, g as int, s@, p as nat + 1));
                    assert(memory::goes_on(b, g as int, s@, amount(bound), p as nat));
                    memory::lemma_bucket_step(
                        b,
                        start.store(),
                        g as int,
                        s@,
                        amount(bound),
                        p as nat,
                    );
                    assert(self.store() == memory::after_buckets(
                        b,
                        start.store(),
                        g as int,
                        s@,
                        amount(bound),
                        p as nat + 1,
                    ));
                    if !memory::goes_on(b, g as int, s@, amount(bound), p as nat + 1) {
                        memory::lemma_buckets_end(
                            b,
                            start.store(),
                            g as int,
                            s@,
                            amount(bound),
                            p as nat + 1,
                            243,
                        );
                    }
                }
                match found.0 {
                    Some(c) => {
                        proof {
                            lemma_rest_fits(b, g as int, s@, p as nat + 1);
                        }
                        sum = sum + c;
                        if let Some(x) = bound {
                            if wtot + sum >= x {
                                return None;
                            }
                        }
                    },
                    None => {
                        return None;
                    },
                }
            }
            p = p + 1;
        }
        proof {
            lemma_rest_fits(b, g as int, s@, 243);
            lemma_all_green(b, g as int, s@);
            lemma_explored_keeps(start, *self, s@);
        }
        Some(wtot + sum)
    }

    /// The cost of a guess, however large.
    pub fn cost_exact(&mut self, g: u32, s: &[u32]) -> (r: Option<u128>)
        requires
            old(self).wf(),
            old(self)@.legal(g as int),
            old(self).candidates(s@),
        ensures
            final(self).wf(),
            amount(r) == old(self)@.cost(g as int, s@),
            final(self)@ == old(self)@,
            keeps(*old(self), *final(self)),
            explored(*old(self), *final(self), s@),
            no_progress(old(self)@, g as int, s@) ==> *final(self) == *old(self),
            final(self).store() == memory::after_guess(
                old(self)@,
                old(self).store(),
                g as int,
                s@,
                None,
            ),
    {
        self.cost_of_guess(g, s, None, 0)
    }

    /// The best guess among the candidates: of those with the least cost, the first.
    pub fn best_candidate(&mut self, s: &[u32]) -> (r: (Option<u128>, u32))
        requires
            old(self).wf(),
            old(self).candidates(s@),
        ensures
            final(self).wf(),
            (amount(r.0), r.1) == cheapest(old(self)@, s@, s@.len()),
            final(self)@ == old(self)@,
            keeps(*old(self), *final(self)),
            explored(*old(self), *final(self), s@),
            final(self).store() == memory::after_candidates(
                old(self)@,
                old(self).store(),
                s@,
                s@.len(),
            ),
    {
        let ghost b = self@;
        let ghost start = *self;
        let mut best: Option<u128> = None;
        let mut best_g: u32 = self.home(s[0]);
        let mut k: usize = 0;
        proof {
            lemma_explored_none(start, s@);
        }
        while k < s.len()
            invariant
                self.wf(),
                self@ == b,
                explored(start, *self, s@),
                self.store() == memory::after_candidates(b, start.store(), s@, k as nat),
                self.candidates(s@),
                k <= s@.len(),
                (amount(best), best_g) == cheapest(b, s@, k as nat),
            decreases s@.len() - k,
        {
            let g = self.home(s[k]);
            let ghost before = *self;
            let c = self.cost_of_guess(g, s, best, 0);
            proof {
                lemma_explored_twice(start, before, *self, s@);
            }
            let better = match (c, best) {
                (Some(x), Some(y)) => x < y,
                (Some(_), None) => true,
                (None, _) => false,
            };
            if better {
                best = c;
                best_g = g;
            }
            k = k + 1;
        }
        proof {
            lemma_explored_keeps(start, *self, s@);
        }
        (best, best_g)
    }
}

/// One deeper; the deepest there is stays.
fn deeper(depth: u32) -> (r: u32)
    ensures
        r > 0,
{
    if depth < u32::MAX {
        depth + 1
    } else {
        depth
    }
}

/// What two calls keep one after the other.
pub proof fn lemma_keeps_twice(a: Solver, c: Solver, e: Solver)
    requires
        keeps(a, c),
        keeps(c, e),
    ensures
        keeps(a, e),
        e@ == a@,
        e.searched() >= a.searched(),
{
    reveal(keeps);
    assert forall|root: bool| a.memory(root).submap_of(#[trigger] e.memory(root)) by {
        let (x, y, z) = (a.memory(root), c.memory(root), e.memory(root));
        assert(x.submap_of(y) && y.submap_of(z));
        assert forall|k: Seq<u32>| #[trigger] x.dom().contains(k) implies z.dom().contains(k)
            && x[k] == z[k] by {
            assert(y.dom().contains(k));
        }
    }
    assert(a.memory(true).submap_of(e.memory(true)));
    assert(a.memory(false).submap_of(e.memory(false)));
}

/// A solver keeps what it has.
pub proof fn lemma_keeps_same(a: Solver)
    ensures
        keeps(a, a),
{
    reveal(keeps);
}

proof fn lemma_explored_none(a: Solver, s: Seq<u32>)
    ensures
        explored(a, a, s),
        keeps(a, a),
{
    reveal(keeps);
    reveal(explored);
}

/// What has been explored keeps what was remembered.
pub proof fn lemma_explored_keeps(a: Solver, c: Solver, s: Seq<u32>)
    requires
        explored(a, c, s),
    ensures
        keeps(a, c),
        c@ == a@,
{
    reveal(keeps);
    reveal(explored);
}

proof fn lemma_explored_twice(a: Solver, c: Solver, e: Solver, s: Seq<u32>)
    requires
        explored(a, c, s),
        explored(c, e, s),
    ensures
        explored(a, e, s),
{
    reveal(explored);
    assert forall|k: Seq<u32>| #[trigger] e.remembered(k, false) implies a.remembered(k, false) || (
    2 <= k.len() <= MEMO_MAX && part_of(k, s)) by {
        assert(c.remembered(k, false) || part_of(k, s));
    }
    lemma_keeps_twice(a, c, e);
}

/// Searching a part of a list explores the list.
proof fn lemma_explored_part(
    a: Solver,
    sub: Seq<u32>,
    r: (Option<u128>, u32),
    c: Solver,
    s: Seq<u32>,
)
    requires
        part_of(sub, s),
        sub.len() >= 1,
        searched_for(a, sub, false, r, c),
    ensures
        explored(a, c, s),
{
    reveal(keeps);
    reveal(explored);
    reveal(searched_for);
    assert forall|k: Seq<u32>| #[trigger] c.remembered(k, false) implies a.remembered(k, false) || (
    2 <= k.len() <= MEMO_MAX && part_of(k, s)) by {}
}

/// A bucket that is not the whole list is a part of it.
proof fn lemma_bucket_part(b: Board, g: int, s: Seq<u32>, p: int)
    requires
        b.bucket(g, s, p).len() < s.len(),
    ensures
        part_of(b.bucket(g, s, p), s),
{
    sort::lemma_sorted(s);
    parts::lemma_filter_within(sort::sorted(s), parts::labelled(b.label(g), p));
}

proof fn lemma_bucket_searched(
    start: Solver,
    before: Solver,
    after: Solver,
    g: int,
    s: Seq<u32>,
    p: int,
    r: (Option<u128>, u32),
)
    requires
        explored(start, before, s),
        0 < start@.bucket(g, s, p).len() < s.len(),
        searched_for(before, start@.bucket(g, s, p), false, r, after),
    ensures
        explored(start, after, s),
        keeps(start, after),
        !no_progress(start@, g, s),
{
    reveal(no_progress);
    lemma_bucket_part(start@, g, s, p);
    lemma_explored_part(before, start@.bucket(g, s, p), r, after, s);
    lemma_explored_twice(start, before, after, s);
    lemma_explored_keeps(start, after, s);
    lemma_progress_buckets(start@, g, s, p);
}

/// If a bucket holds some of the candidates, but not all, no bucket holds all.
proof fn lemma_progress_buckets(b: Board, g: int, s: Seq<u32>, p: int)
    requires
        0 < b.bucket(g, s, p).len() < s.len(),
    ensures
        forall|q: int| #[trigger] b.part(g, s, q).len() != s.len(),
{
    optimal::lemma_bucket(b, g, s, p);
    let x = b.bucket(g, s, p)[0];
    assert(s.contains(x));
    let i = choose|i: int| 0 <= i < s.len() && s[i] == x;
    assert forall|q: int| #[trigger] b.part(g, s, q).len() != s.len() by {
        if q != p {
            optimal::lemma_filter_misses(s, parts::labelled(b.label(g), q), i);
        }
    }
}

/// Counting a search, exploring the list and remembering its result is a search.
proof fn lemma_searched_for(
    start: Solver,
    counted: Solver,
    done: Solver,
    end: Solver,
    s: Seq<u32>,
    root: bool,
    r: (Option<u128>, u32),
)
    requires
        s.len() >= 2,
        !start.remembered(s, root),
        (amount(r.0), r.1) == start@.best(s, root),
        counted@ == start@,
        counted.searched() >= start.searched(),
        start.searched() < u64::MAX ==> counted.searched() > start.searched(),
        counted.memory(true) == start.memory(true),
        counted.memory(false) == start.memory(false),
        explored(counted, done, s),
        end@ == done@,
        end.searched() == done.searched(),
        end.memory(root) == if root || s.len() <= MEMO_MAX {
            done.memory(root).insert(s, r)
        } else {
            done.memory(root)
        },
        end.memory(!root) == done.memory(!root),
    ensures
        searched_for(start, s, root, r, end),
        keeps(start, end),
{
    reveal(keeps);
    reveal(explored);
    reveal(searched_for);
    assert(!done.remembered(s, root));
    assert forall|k: Seq<u32>| #[trigger] end.remembered(k, false) implies start.remembered(
        k,
        false,
    ) || (2 <= k.len() <= MEMO_MAX && (part_of(k, s) || (!root && k == s))) by {
        if !(!root && k == s) {
            assert(done.remembered(k, false));
        }
    }
}

/// A list that has been searched, at the root or short enough, is not searched again: the result
/// is the same, and nothing changes.
pub proof fn law_search_once(
    a: Solver,
    s: Seq<u32>,
    root: bool,
    r: (Option<u128>, u32),
    c: Solver,
    q: (Option<u128>, u32),
    e: Solver,
)
    requires
        s.len() >= 1,
        root || s.len() <= MEMO_MAX,
        searched_for(a, s, root, r, c),
        searched_for(c, s, root, q, e),
    ensures
        q == r,
        e == c,
{
    reveal(keeps);
    reveal(searched_for);
}

/// The bound decides only whether a cost is reported: unless the guess solves every candidate, a
/// cost below the bound is exact, and any other is reported as unbounded. Without a bound the cost
/// is exact.
pub proof fn law_bound(b: Board, g: int, s: Seq<u32>, bound: Option<nat>)
    ensures
        (exists|i: int| 0 <= i < s.len() && #[trigger] b.pattern(g, s[i] as int) != GREEN)
            ==> cost_below(b, g, s, bound) == if board::less(b.cost(g, s), bound) {
            b.cost(g, s)
        } else {
            None
        },
        cost_below(b, g, s, None) == b.cost(g, s),
{
    if exists|i: int| 0 <= i < s.len() && #[trigger] b.pattern(g, s[i] as int) != GREEN {
        let i = choose|i: int| 0 <= i < s.len() && #[trigger] b.pattern(g, s[i] as int) != GREEN;
        optimal::lemma_filter_misses(s, parts::labelled(b.label(g), GREEN as int), i);
    }
}

/// The first guess of least cost among the first `n` candidates, and its cost.
pub open spec fn cheapest(b: Board, s: Seq<u32>, n: nat) -> (Option<nat>, u32)
    decreases n,
{
    if n == 0 {
        (None, b.home(s[0]))
    } else {
        let found = cheapest(b, s, (n - 1) as nat);
        let g = b.home(s[n - 1]);
        let c = b.cost(g as int, s);
        if board::less(c, found.0) {
            (c, g)
        } else {
            found
        }
    }
}

/// No candidate among the first `n` costs less than the cheapest one.
pub proof fn lemma_cheapest(b: Board, s: Seq<u32>, n: nat)
    requires
        n <= s.len(),
    ensures
        forall|i: int|
            0 <= i < n ==> !board::less(
                b.cost(b.home(#[trigger] s[i]) as int, s),
                cheapest(b, s, n).0,
            ),
        cheapest(b, s, n).0 is Some ==> exists|i: int|
            0 <= i < n && cheapest(b, s, n).1 == b.home(#[trigger] s[i]) && cheapest(b, s, n).0
                == b.cost(b.home(s[i]) as int, s),
    decreases n,
{
    if n > 0 {
        lemma_cheapest(b, s, (n - 1) as nat);
        assert(s[n - 1] == s[n - 1]);
    }
}

/// A candidate with another pattern is not green.
proof fn lemma_not_all_green(b: Board, g: int, s: Seq<u32>, p: int)
    requires
        p != GREEN,
        b.bucket(g, s, p).len() > 0,
    ensures
        b.part(g, s, GREEN as int).len() < s.len(),
{
    optimal::lemma_bucket(b, g, s, p);
    let c = b.bucket(g, s, p)[0];
    assert(s.contains(c));
    let i = choose|i: int| 0 <= i < s.len() && s[i] == c;
    optimal::lemma_filter_misses(s, parts::labelled(b.label(g), GREEN as int), i);
}

/// The weight and what is left after a guess fit in 128 bits.
pub proof fn lemma_rest_fits(b: Board, g: int, s: Seq<u32>, n: nat)
    requires
        1 <= s.len() <= u32::MAX,
    ensures
        b.rest(g, s, n) matches Some(y) ==> b.wsum(s) + y <= u128::MAX,
{
    let t = sort::sorted(s);
    optimal::lemma_rest_bound(b, g, s, n);
    optimal::lemma_wsum_sorted(b, s);
    parts::lemma_parts(b.weights, t, b.label(g), n);
    lemma_total_bound(optimal::weights(b, s));
    let l = s.len() as int;
    let w = b.wsum(s) as int;
    let v = parts::parts_total(b.weights, t, b.label(g), n) as int;
    assert(w + (l - 1) * v <= l * w) by (nonlinear_arith)
        requires
            0 <= v <= w,
            l >= 1,
    ;
    assert(l * w <= u32::MAX * (u32::MAX * u64::MAX)) by (nonlinear_arith)
        requires
            1 <= l <= u32::MAX,
            0 <= w <= l * u64::MAX,
    ;
}

/// If the only bucket is that of five greens, all candidates are green.
proof fn lemma_all_green(b: Board, g: int, s: Seq<u32>)
    requires
        b.valid(),
        b.legal(g),
        b.columns(s),
    ensures
        b.part(g, s, GREEN as int).len() == s.len() || memory::has_bucket(b, g, s, 243),
{
    if !memory::has_bucket(b, g, s, 243) {
        let f = parts::labelled(b.label(g), GREEN as int);
        assert forall|i: int| 0 <= i < s.len() implies f(#[trigger] s[i]) by {
            words::lemma_pattern(b.guesses[g]@, b.answers[s[i] as int]@);
            let q = b.pattern(g, s[i] as int);
            optimal::lemma_bucket(b, g, s, q);
            assert(s.contains(s[i]));
            assert(b.bucket(g, s, q).contains(s[i]));
            assert(q == GREEN || b.bucket(g, s, q).len() == 0);
        }
        optimal::lemma_filter_all(s, f);
    }
}

/// A search that is down at the floor stays as it is.
pub proof fn lemma_search_stops(b: Board, s: Seq<u32>, order: Seq<Rated>, m: nat, n: nat)
    requires
        m <= n,
        board::less(b.search(s, order, m).0, Some(b.floor(s) + 1)),
    ensures
        b.search(s, order, n) == b.search(s, order, m),
    decreases n,
{
    if m < n {
        lemma_search_stops(b, s, order, m, (n - 1) as nat);
    }
}

/// The bound of a guess is at most the square of the number of candidates.
proof fn lemma_even_bound(b: Board, g: int, s: Seq<u32>, n: nat)
    ensures
        b.even_bound(g, s, n) <= s.len() * s.len(),
{
    lemma_even_bound_parts(b, g, s, n);
    parts::lemma_parts(b.weights, s, b.label(g), n);
    let k = parts::parts_len(s, b.label(g), n) as int;
    let l = s.len() as int;
    assert(k * l <= l * l) by (nonlinear_arith)
        requires
            0 <= k <= l,
    ;
}

/// The bound of a guess fits where it is kept.
pub proof fn lemma_even_bound_fits(b: Board, g: int, s: Seq<u32>)
    requires
        s.len() <= u32::MAX,
    ensures
        b.even_bound(g, s, 243) as u64 == b.even_bound(g, s, 243),
{
    lemma_even_bound(b, g, s, 243);
    let l = s.len() as int;
    assert(l * l <= u32::MAX * u32::MAX) by (nonlinear_arith)
        requires
            0 <= l <= u32::MAX,
    ;
}

proof fn lemma_even_bound_parts(b: Board, g: int, s: Seq<u32>, n: nat)
    ensures
        b.even_bound(g, s, n) <= parts::parts_len(s, b.label(g), n) * s.len(),
    decreases n,
{
    if n > 0 {
        lemma_even_bound_parts(b, g, s, (n - 1) as nat);
        let c = b.part(g, s, n - 1).len() as int;
        s.lemma_filter_len(parts::labelled(b.label(g), n - 1));
        bounds::lemma_even_cost_bound(c as nat);
        let k = parts::parts_len(s, b.label(g), (n - 1) as nat) as int;
        let l = s.len() as int;
        assert((k + c) * l == k * l + c * l) by (nonlinear_arith);
        assert(0 <= c * c <= c * l) by (nonlinear_arith)
            requires
                0 <= c <= l,
        ;
    }
}

/// A sum of weights is at most their number times the largest weight there can be.
pub proof fn lemma_total_bound(ws: Seq<u64>)
    ensures
        bounds::total(ws) <= ws.len() * u64::MAX,
    decreases ws.len(),
{
    if ws.len() > 0 {
        lemma_total_bound(ws.drop_last());
    }
}

/// Which column a guess is the word of: the last one whose guess it is, and none exactly if it is
/// the guess of no column.
pub proof fn law_column(b: Board, g: int, n: nat)
    requires
        n <= u32::MAX,
    ensures
        column_of(b, g, n) matches Some(c) ==> c < n && b.home(c) == g && forall|k: u32|
            c < k < n ==> #[trigger] b.home(k) != g,
        column_of(b, g, n) is None ==> forall|k: u32| k < n ==> #[trigger] b.home(k) != g,
    decreases n,
{
    if n > 0 {
        law_column(b, g, (n - 1) as nat);
    }
}

/// The best candidate is the first of least cost.
pub proof fn law_cheapest_first(b: Board, s: Seq<u32>, i: int)
    requires
        0 <= i < s.len(),
    ensures
        !board::less(b.cost(b.home(s[i]) as int, s), cheapest(b, s, s.len()).0),
        cheapest(b, s, s.len()).0 matches Some(x) ==> exists|k: int|
            {
                &&& 0 <= k < s.len()
                &&& cheapest(b, s, s.len()).1 == b.home(#[trigger] s[k])
                &&& b.cost(b.home(s[k]) as int, s) == Some(x)
                &&& forall|m: int|
                    0 <= m < k ==> board::less(Some(x), b.cost(b.home(#[trigger] s[m]) as int, s))
            },
        cheapest(b, s, s.len()).0 is None ==> cheapest(b, s, s.len()).1 == b.home(s[0]),
{
    lemma_cheapest(b, s, s.len());
    lemma_cheapest_first(b, s, s.len());
}

proof fn lemma_cheapest_first(b: Board, s: Seq<u32>, n: nat)
    requires
        n <= s.len(),
    ensures
        cheapest(b, s, n).0 matches Some(x) ==> exists|k: int|
            {
                &&& 0 <= k < n
                &&& cheapest(b, s, n).1 == b.home(#[trigger] s[k])
                &&& b.cost(b.home(s[k]) as int, s) == Some(x)
                &&& forall|m: int|
                    0 <= m < k ==> board::less(Some(x), b.cost(b.home(#[trigger] s[m]) as int, s))
            },
        cheapest(b, s, n).0 is None ==> cheapest(b, s, n).1 == b.home(s[0]),
    decreases n,
{
    if n > 0 {
        let m = (n - 1) as nat;
        lemma_cheapest_first(b, s, m);
        lemma_cheapest(b, s, m);
        let before = cheapest(b, s, m);
        let c = b.cost(b.home(s[n - 1]) as int, s);
        if board::less(c, before.0) {
            assert(s[n - 1] == s[n - 1]);
            assert forall|j: int| 0 <= j < n - 1 implies board::less(
                c,
                b.cost(b.home(#[trigger] s[j]) as int, s),
            ) by {
                assert(!board::less(b.cost(b.home(s[j]) as int, s), before.0));
            }
        }
    }
}

/// A guess makes no progress exactly if all candidates answer it by the same pattern, and that is
/// not five greens.
pub proof fn law_no_progress(b: Board, g: int, s: Seq<u32>)
    requires
        b.valid(),
        b.legal(g),
        b.columns(s),
        s.len() >= 1,
    ensures
        no_progress(b, g, s) <==> b.pattern(g, s[0] as int) != 242 && forall|i: int|
            0 <= i < s.len() ==> #[trigger] b.pattern(g, s[i] as int) == b.pattern(g, s[0] as int),
{
    reveal(no_progress);
    let p = b.pattern(g, s[0] as int);
    words::lemma_pattern(b.guesses[g]@, b.answers[s[0] as int]@);
    if no_progress(b, g, s) {
        let q = choose|q: int|
            0 <= q < 243 && q != GREEN && #[trigger] b.part(g, s, q).len() == s.len();
        assert forall|i: int| 0 <= i < s.len() implies #[trigger] b.pattern(g, s[i] as int)
            == q by {
            if b.pattern(g, s[i] as int) != q {
                optimal::lemma_filter_misses(s, parts::labelled(b.label(g), q), i);
            }
        }
        assert(b.pattern(g, s[0] as int) == q);
    }
    if p != 242 && forall|i: int|
        0 <= i < s.len() ==> #[trigger] b.pattern(g, s[i] as int) == p {
        let f = parts::labelled(b.label(g), p);
        assert forall|i: int| 0 <= i < s.len() implies f(#[trigger] s[i]) by {
            assert(b.pattern(g, s[i] as int) == p);
        }
        optimal::lemma_filter_all(s, f);
        assert(b.part(g, s, p).len() == s.len());
    }
}

/// A guess that solves every candidate costs one guess for each, whatever the bound.
pub proof fn law_bound_all_solved(b: Board, g: int, s: Seq<u32>, bound: Option<nat>)
    requires
        s.len() >= 1,
        forall|i: int| 0 <= i < s.len() ==> #[trigger] b.pattern(g, s[i] as int) == 242,
    ensures
        cost_below(b, g, s, bound) == Some(b.wsum(s)),
{
    let f = parts::labelled(b.label(g), GREEN as int);
    assert forall|i: int| 0 <= i < s.len() implies f(#[trigger] s[i]) by {
        assert(b.pattern(g, s[i] as int) == 242);
    }
    optimal::lemma_filter_all(s, f);
    lemma_all_solved(b, g, s, 243);
}

proof fn lemma_all_solved(b: Board, g: int, s: Seq<u32>, n: nat)
    requires
        forall|i: int| 0 <= i < s.len() ==> #[trigger] b.pattern(g, s[i] as int) == 242,
    ensures
        b.rest(g, s, n) == Some(0nat),
    decreases n,
{
    if n > 0 {
        lemma_all_solved(b, g, s, (n - 1) as nat);
        let sub = b.bucket(g, s, n - 1);
        optimal::lemma_bucket(b, g, s, n - 1);
        if sub.len() > 0 && n - 1 != GREEN {
            assert(s.contains(sub[0]));
            let i = choose|i: int| 0 <= i < s.len() && s[i] == sub[0];
            assert(b.pattern(g, s[i] as int) == 242);
        }
    }
}

} // verus!
