//! The search for the best opening guess.

use vstd::prelude::*;
use crate::admissible;
use crate::board;
use crate::board::{Board, Rated};
use crate::index;
use crate::memory;
use crate::memory::Store;
use crate::optimal;
use crate::parts;
use crate::play;
use crate::play::every_column;
use crate::solver;
use crate::solver::Solver;
use crate::sort;
use crate::sort::Ordered;
use crate::text;
use crate::words::{Word, GREEN};

verus! {

/// The guess that games open with: "alert".
pub const OPENER: Word = [97, 108, 101, 114, 116];

/// How many guesses a search evaluates beyond the known strong ones.
pub const MAX_SWEEP: usize = 500;

/// How many of the best openings a search is for.
pub const TOP: usize = 10;

/// An opening guess and its cost, with its place among the results.
#[derive(Clone, Copy)]
pub struct Opening {
    pub cost: Option<u128>,
    pub pos: u32,
    pub guess: u32,
}

impl Ordered for Opening {
    /// By cost, then by place.
    open spec fn leq(self, other: Opening) -> bool {
        match (self.cost, other.cost) {
            (Some(x), Some(y)) => x < y || (x == y && (self.pos < other.pos || (self.pos
                == other.pos && self.guess <= other.guess))),
            (Some(_), None) => true,
            (None, Some(_)) => false,
            (None, None) => self.pos < other.pos || (self.pos == other.pos && self.guess
                <= other.guess),
        }
    }

    proof fn order_is_total(a: Opening, b: Opening, c: Opening) {
    }

    fn le_than(&self, other: &Opening) -> (r: bool) {
        match (self.cost, other.cost) {
            (Some(x), Some(y)) => x < y || (x == y && (self.pos < other.pos || (self.pos
                == other.pos && self.guess <= other.guess))),
            (Some(_), None) => true,
            (None, Some(_)) => false,
            (None, None) => self.pos < other.pos || (self.pos == other.pos && self.guess
                <= other.guess),
        }
    }
}

/// Openers that are known to be strong: alert, soare, raise, crane, trace, crate, slate.
pub open spec fn strong_openers() -> Seq<Word> {
    seq![
        [97u8, 108u8, 101u8, 114u8, 116u8],
        [115u8, 111u8, 97u8, 114u8, 101u8],
        [114u8, 97u8, 105u8, 115u8, 101u8],
        [99u8, 114u8, 97u8, 110u8, 101u8],
        [116u8, 114u8, 97u8, 99u8, 101u8],
        [99u8, 114u8, 97u8, 116u8, 101u8],
        [115u8, 108u8, 97u8, 116u8, 101u8],
    ]
}

/// Lists the strong openers.
pub fn seed_words() -> (r: Vec<Word>)
    ensures
        r@ == strong_openers(),
{
    let mut r: Vec<Word> = Vec::with_capacity(7);
    r.push([97u8, 108u8, 101u8, 114u8, 116u8]);
    r.push([115u8, 111u8, 97u8, 114u8, 101u8]);
    r.push([114u8, 97u8, 105u8, 115u8, 101u8]);
    r.push([99u8, 114u8, 97u8, 110u8, 101u8]);
    r.push([116u8, 114u8, 97u8, 99u8, 101u8]);
    r.push([99u8, 114u8, 97u8, 116u8, 101u8]);
    r.push([115u8, 108u8, 97u8, 116u8, 101u8]);
    assert(r@ =~= strong_openers());
    r
}

/// The first place at which a word stands in a list.
pub open spec fn first_place(list: Seq<Word>, w: Word) -> Option<nat>
    decreases list.len(),
{
    if list.len() == 0 {
        None
    } else {
        match first_place(list.drop_last(), w) {
            Some(k) => Some(k),
            None => if list.last() == w {
                Some((list.len() - 1) as nat)
            } else {
                None
            },
        }
    }
}

/// The results of a search from the least cost to the largest.
pub open spec fn ranked(results: Seq<Opening>) -> Seq<Opening> {
    sort::sorted(results)
}

/// The cost that a guess must undercut to be among the best: the tenth least so far. There is none
/// as long as there are fewer than ten results.
pub open spec fn bar(results: Seq<Opening>) -> Option<u128> {
    if results.len() >= TOP {
        ranked(results)[TOP - 1].cost
    } else {
        None
    }
}

/// How far a search has come: its results, the number of guesses evaluated beyond the strong ones,
/// and whether guesses were left out because that number had become too large.
pub struct Sweep {
    pub results: Seq<Opening>,
    pub count: nat,
    pub cut: bool,
}

impl Sweep {
    /// With one more result.
    pub open spec fn note(self, c: Option<nat>, g: u32) -> Seq<Opening> {
        self.results.push(
            Opening { cost: memory::stored(c), pos: self.results.len() as u32, guess: g },
        )
    }

    /// Whether a guess is among the results.
    pub open spec fn has(self, g: u32) -> bool {
        exists|i: int| 0 <= i < self.results.len() && (#[trigger] self.results[i]).guess == g
    }

    /// Whether no other guess can be among the best: the tenth cost is down at the floor.
    pub open spec fn settled(self, b: Board) -> bool {
        bar(self.results) matches Some(x) && x <= b.floor(play::all_columns(b))
    }
}

/// The search after the first `n` of some words have been evaluated, those that are legal.
pub open spec fn seeded(b: Board, seeds: Seq<Word>, n: nat) -> Sweep
    decreases n,
{
    if n == 0 {
        Sweep { results: Seq::empty(), count: 0, cut: false }
    } else {
        let before = seeded(b, seeds, (n - 1) as nat);
        match first_place(b.guesses, seeds[n - 1]) {
            Some(g) => {
                let c = b.cost(g as int, play::all_columns(b));
                Sweep { results: before.note(c, g as u32), count: 0, cut: false }
            },
            None => before,
        }
    }
}

/// The search after the first `n` guesses of a ranking. It is over when no other guess can be among
/// the ten best, or enough guesses have been evaluated. A guess that does not undercut the tenth
/// least cost leaves no result.
pub open spec fn swept(b: Board, start: Sweep, order: Seq<Rated>, n: nat) -> Sweep
    decreases n,
{
    if n == 0 {
        start
    } else {
        let before = swept(b, start, order, (n - 1) as nat);
        let g = order[n - 1].guess;
        if before.settled(b) || start.has(g) {
            before
        } else if before.count >= MAX_SWEEP {
            Sweep { results: before.results, count: before.count, cut: true }
        } else {
            let c = solver::cost_below(
                b,
                g as int,
                play::all_columns(b),
                solver::amount(bar(before.results)),
            );
            Sweep {
                results: if c is Some {
                    before.note(c, g)
                } else {
                    before.results
                },
                count: before.count + 1,
                cut: before.cut,
            }
        }
    }
}

/// The guesses below `n` that make progress, or solve all, each with its bound.
pub open spec fn promising(b: Board, n: nat) -> Seq<Rated>
    decreases n,
{
    let all = play::all_columns(b);
    if n == 0 {
        Seq::empty()
    } else if solver::no_progress(b, n - 1, all) {
        promising(b, (n - 1) as nat)
    } else {
        promising(b, (n - 1) as nat).push(b.rate(all, b.universe(all, true), n - 1))
    }
}

/// The guesses of a board as the search goes through them: by ascending bound.
pub open spec fn opening_order(b: Board) -> Seq<Rated> {
    sort::sorted(promising(b, b.guesses.len()))
}

/// The search once the strong openers have been evaluated.
pub open spec fn opening_start(b: Board) -> Sweep {
    seeded(b, strong_openers(), strong_openers().len())
}

/// The whole search.
pub open spec fn opening_search(b: Board) -> Sweep {
    swept(b, opening_start(b), opening_order(b), opening_order(b).len())
}

/// What is remembered after the first `n` of some words have been evaluated, those that are legal.
pub open spec fn after_seeds(b: Board, m: Store, seeds: Seq<Word>, n: nat) -> Store
    decreases n,
{
    if n == 0 {
        m
    } else {
        let before = after_seeds(b, m, seeds, (n - 1) as nat);
        match first_place(b.guesses, seeds[n - 1]) {
            Some(g) => memory::after_guess(b, before, g as int, play::all_columns(b), None),
            None => before,
        }
    }
}

/// What is remembered after the first `n` guesses of a ranking.
pub open spec fn after_sweep(b: Board, m: Store, start: Sweep, order: Seq<Rated>, n: nat) -> Store
    decreases n,
{
    if n == 0 {
        m
    } else {
        let before = after_sweep(b, m, start, order, (n - 1) as nat);
        let w = swept(b, start, order, (n - 1) as nat);
        let g = order[n - 1].guess;
        if w.settled(b) || start.has(g) || w.count >= MAX_SWEEP {
            before
        } else {
            memory::after_guess(
                b,
                before,
                g as int,
                play::all_columns(b),
                solver::amount(bar(w.results)),
            )
        }
    }
}

/// What is remembered after the whole search.
pub open spec fn after_openings(b: Board, m: Store) -> Store {
    after_sweep(
        b,
        after_seeds(b, m, strong_openers(), strong_openers().len()),
        opening_start(b),
        opening_order(b),
        opening_order(b).len(),
    )
}

/// The first ten of a ranking, or all if there are fewer.
pub open spec fn first_ten(r: Seq<Opening>) -> Seq<Opening> {
    if r.len() > TOP {
        r.take(TOP as int)
    } else {
        r
    }
}

/// Whether a guess is among the first ten of a ranking.
pub open spec fn on_top(r: Seq<Opening>, g: int) -> bool {
    exists|i: int| 0 <= i < r.len() && i < TOP && (#[trigger] r[i]).guess == g
}

/// Whether a guess is where it belongs: among the first ten of a ranking, or there are ten and it
/// costs no less than the tenth, or it has no bounded cost.
pub open spec fn placed(b: Board, r: Seq<Opening>, g: int) -> bool {
    b.cost(g, play::all_columns(b)) is Some && !on_top(r, g) ==> r.len() >= TOP && !board::less(
        b.cost(g, play::all_columns(b)),
        solver::amount(r[TOP - 1].cost),
    )
}

/// Whether two words are the same.
fn same_word(a: &Word, b: &Word) -> (r: bool)
    ensures
        r == (*a == *b),
{
    let mut i: usize = 0;
    while i < 5
        invariant
            i <= 5,
            forall|k: int| 0 <= k < i ==> a@[k] == b@[k],
        decreases 5 - i,
    {
        if a[i] != b[i] {
            return false;
        }
        i = i + 1;
    }
    assert(*a =~= *b);
    true
}

/// Finds the first place of a word among the guesses.
pub fn find_guess(solver: &Solver, w: &Word) -> (r: Option<u32>)
    requires
        solver.wf(),
    ensures
        match r {
            Some(k) => first_place(solver@.guesses, *w) == Some(k as nat) && solver@.legal(
                k as int,
            ),
            None => first_place(solver@.guesses, *w) is None,
        },
{
    let n = solver.guess_count();
    let mut i: usize = 0;
    assert(solver@.guesses.take(0).len() == 0);
    while i < n
        invariant
            solver.wf(),
            n == solver@.guesses.len(),
            i <= n,
            first_place(solver@.guesses.take(i as int), *w) is None,
        decreases n - i,
    {
        assert(solver@.guesses.take(i + 1).drop_last() =~= solver@.guesses.take(i as int));
        if same_word(&solver.guess(i as u32), w) {
            proof {
                lemma_first_place(solver@.guesses, *w, i + 1);
            }
            return Some(i as u32);
        }
        i = i + 1;
    }
    assert(solver@.guesses.take(i as int) =~= solver@.guesses);
    None
}

/// The guess that games open with, if it is legal.
pub fn opener(solver: &Solver) -> (r: Option<u32>)
    requires
        solver.wf(),
    ensures
        match r {
            Some(g) => {
                &&& solver@.legal(g as int)
                &&& solver@.guesses[g as int] == OPENER
                &&& index::last_place(solver@.guesses, OPENER) == Some(g as nat)
            },
            None => index::last_place(solver@.guesses, OPENER) is None,
        },
{
    let mut i: usize = solver.guess_count();
    assert(solver@.guesses.take(i as int) =~= solver@.guesses);
    while i > 0
        invariant
            solver.wf(),
            i <= solver@.guesses.len() <= u32::MAX,
            index::last_place(solver@.guesses, OPENER) == index::last_place(
                solver@.guesses.take(i as int),
                OPENER,
            ),
        decreases i,
    {
        assert(solver@.guesses.take(i as int).drop_last() =~= solver@.guesses.take(i - 1));
        i = i - 1;
        if same_word(&solver.guess(i as u32), &OPENER) {
            return Some(i as u32);
        }
    }
    None
}

/// More words do not change the first place.
proof fn lemma_first_place(list: Seq<Word>, w: Word, n: int)
    requires
        0 <= n <= list.len(),
        first_place(list.take(n), w) is Some,
    ensures
        first_place(list, w) == first_place(list.take(n), w),
    decreases list.len(),
{
    if n == list.len() {
        assert(list.take(n) =~= list);
    } else {
        assert(list.drop_last().take(n) =~= list.take(n));
        lemma_first_place(list.drop_last(), w, n);
    }
}

fn has_guess(results: &Vec<Opening>, n: usize, g: u32) -> (r: bool)
    requires
        n <= results@.len(),
    ensures
        r == exists|i: int| 0 <= i < n && (#[trigger] results@[i]).guess == g,
{
    let mut i: usize = 0;
    while i < n
        invariant
            i <= n <= results@.len(),
            forall|k: int| 0 <= k < i ==> (#[trigger] results@[k]).guess != g,
        decreases n - i,
    {
        if results[i].guess == g {
            return true;
        }
        i = i + 1;
    }
    false
}

/// The tenth least cost of some results.
fn tenth(results: &Vec<Opening>) -> (r: Option<u128>)
    ensures
        r == bar(results@),
{
    if results.len() < TOP {
        return None;
    }
    let sorted = sort::sort(results);
    proof {
        sort::lemma_sorted(results@);
    }
    sorted[TOP - 1].cost
}

/// The bound of a guess, unless it makes no progress.
fn rate_opening(solver: &Solver, g: u32, all: &[u32]) -> (r: Option<u64>)
    requires
        solver.wf(),
        solver@.legal(g as int),
        solver.candidates(all@),
    ensures
        match r {
            Some(key) => !solver::no_progress(solver@, g as int, all@) && key
                == solver@.even_bound(g as int, all@, 243),
            None => solver::no_progress(solver@, g as int, all@),
        },
{
    proof {
        reveal(solver::no_progress);
    }
    let counts = solver.counts(g, all);
    let n = all.len();
    let mut p: usize = 0;
    while p < 243
        invariant
            n == all@.len(),
            p <= 243,
            forall|q: int|
                0 <= q < 243 ==> #[trigger] counts@[q] == solver@.part(g as int, all@, q).len(),
            forall|q: int|
                0 <= q < p && q != GREEN ==> #[trigger] solver@.part(g as int, all@, q).len() != n,
        decreases 243 - p,
    {
        assert(counts@[p as int] == solver@.part(g as int, all@, p as int).len());
        if p != GREEN as usize && counts[p] as usize == n {
            proof {
                reveal(solver::no_progress);
            }
            return None;
        }
        p = p + 1;
    }
    Some(solver.even_bound(g, all, &counts))
}

/// The guesses as a search goes through them.
fn rank_openings(solver: &Solver, all: &[u32]) -> (r: Vec<Rated>)
    requires
        solver.wf(),
        solver.candidates(all@),
        all@ == play::all_columns(solver@),
    ensures
        r@ == opening_order(solver@),
{
    let n = solver.guess_count();
    let mut rated: Vec<Rated> = Vec::new();
    let mut g: usize = 0;
    while g < n
        invariant
            solver.wf(),
            solver.candidates(all@),
            all@ == play::all_columns(solver@),
            n == solver@.guesses.len(),
            g <= n,
            rated@ == promising(solver@, g as nat),
        decreases n - g,
    {
        match rate_opening(solver, g as u32, all) {
            Some(key) => {
                rated.push(Rated { key, pos: g as u32, guess: g as u32 });
            },
            None => {},
        }
        g = g + 1;
    }
    sort::sort(&rated)
}

/// The ten best opening guesses, or all if there are fewer, by their exact costs. The strong
/// openers are compared whatever they cost. The other guesses that make progress follow in the
/// order of their bounds, until the search is cut short.
pub fn run_bestopen(solver: &mut Solver) -> (r: Vec<Opening>)
    requires
        old(solver).wf(),
        old(solver)@.answers.len() >= 1,
    ensures
        final(solver).wf(),
        final(solver)@ == old(solver)@,
        solver::keeps(*old(solver), *final(solver)),
        final(solver).store() == after_openings(old(solver)@, old(solver).store()),
        r@ == first_ten(ranked(opening_search(old(solver)@).results)),
        r@.len() <= TOP,
        sort::ascending(r@),
        forall|i: int, j: int|
            0 <= i < j < r@.len() ==> (#[trigger] r@[i]).guess != (#[trigger] r@[j]).guess,
        forall|i: int|
            0 <= i < r@.len() ==> old(solver)@.legal((#[trigger] r@[i]).guess as int)
                && solver::amount(r@[i].cost) == old(solver)@.cost(
                r@[i].guess as int,
                play::all_columns(old(solver)@),
            ),
        old(solver)@.distinct(play::all_columns(old(solver)@)) && !opening_search(old(solver)@).cut
            ==> forall|g: int| old(solver)@.legal(g) ==> #[trigger] placed(old(solver)@, r@, g),
        old(solver)@.guesses.len() <= MAX_SWEEP ==> !opening_search(old(solver)@).cut,
{
    let ghost b = solver@;
    let columns = every_column(solver);
    let all = columns.as_slice();
    let order = rank_openings(solver, all);
    let seeds = seed_words();
    let mut results: Vec<Opening> = Vec::new();
    let mut i: usize = 0;
    proof {
        solver::lemma_keeps_same(*solver);
        lemma_opening_order(b);
    }
    while i < seeds.len()
        invariant
            solver.wf(),
            solver@ == b,
            solver::keeps(*old(solver), *solver),
            all@ == play::all_columns(b),
            solver.candidates(all@),
            seeds@ == strong_openers(),
            solver.store() == after_seeds(b, old(solver).store(), seeds@, i as nat),
            i <= seeds@.len(),
            results@.len() <= i,
            results@ == seeded(b, seeds@, i as nat).results,
            seeded(b, seeds@, i as nat).count == 0,
        decreases seeds@.len() - i,
    {
        match find_guess(solver, &seeds[i]) {
            Some(g) => {
                let ghost before = *solver;
                let c = solver.cost_of_guess(g, all, None, 0);
                proof {
                    solver::lemma_keeps_twice(*old(solver), before, *solver);
                }
                results.push(Opening { cost: c, pos: results.len() as u32, guess: g });
            },
            None => {},
        }
        i = i + 1;
    }
    let ghost start = seeded(b, seeds@, seeds@.len());
    let ghost m = solver.store();
    let n_seeds = results.len();
    let glb = solver.global_lb(all);
    let mut bound = tenth(&results);
    let mut count: usize = 0;
    let mut k: usize = 0;
    while k < order.len()
        invariant
            solver.wf(),
            solver@ == b,
            solver::keeps(*old(solver), *solver),
            all@ == play::all_columns(b),
            solver.candidates(all@),
            order@ == opening_order(b),
            forall|i: int|
                0 <= i < order@.len() ==> b.legal((#[trigger] order@[i]).guess as int),
            glb == b.floor(all@),
            k <= order@.len(),
            n_seeds == start.results.len(),
            n_seeds <= 7,
            n_seeds <= results@.len() <= n_seeds + count,
            count <= MAX_SWEEP,
            forall|i: int| 0 <= i < n_seeds ==> #[trigger] results@[i] == start.results[i],
            results@ == swept(b, start, order@, k as nat).results,
            bound == bar(results@),
            count == swept(b, start, order@, k as nat).count,
            solver.store() == after_sweep(b, m, start, order@, k as nat),
        ensures
            results@ == swept(b, start, order@, order@.len()).results,
            solver.store() == after_sweep(b, m, start, order@, order@.len()),
        decreases order@.len() - k,
    {
        let done = match bound {
            Some(x) => x <= glb,
            None => false,
        };
        if done || count >= MAX_SWEEP {
            proof {
                lemma_swept_stops(b, start, order@, k as nat, order@.len());
                lemma_sweep_stops(b, m, start, order@, k as nat, order@.len());
            }
            break;
        }
        let g = order[k].guess;
        let seen = has_guess(&results, n_seeds, g);
        proof {
            if seen {
                let i = choose|i: int| 0 <= i < n_seeds && (#[trigger] results@[i]).guess == g;
                assert(start.results[i].guess == g);
            } else if start.has(g) {
                let i = choose|i: int|
                    0 <= i < start.results.len() && (#[trigger] start.results[i]).guess == g;
                assert(results@[i].guess == g);
            }
            assert(seen == start.has(g));
        }
        if !seen {
            let ghost before = *solver;
            let c = solver.cost_of_guess(g, all, bound, 0);
            proof {
                solver::lemma_keeps_twice(*old(solver), before, *solver);
            }
            count = count + 1;
            if let Some(_) = c {
                results.push(Opening { cost: c, pos: results.len() as u32, guess: g });
                bound = tenth(&results);
            }
        }
        k = k + 1;
    }
    proof {
        law_openings(b);
        law_openings_complete(b);
        sort::lemma_sorted(results@);
    }
    let mut r = sort::sort(&results);
    let ghost whole = r@;
    if r.len() > TOP {
        r.truncate(TOP);
    }
    proof {
        assert(r@ =~= first_ten(whole));
        assert forall|g: int| placed(b, whole, g) implies #[trigger] placed(b, r@, g) by {
            if on_top(whole, g) {
                let i = choose|i: int|
                    0 <= i < whole.len() && i < TOP && (#[trigger] whole[i]).guess == g;
                assert(r@[i].guess == g);
            }
        }
        assert forall|i: int| 0 <= i < r@.len() implies #[trigger] r@[i] == whole[i] by {}
    }
    r
}

/// The results of a search that is over stay as they are.
proof fn lemma_swept_stops(b: Board, start: Sweep, order: Seq<Rated>, m: nat, n: nat)
    requires
        m <= n,
        swept(b, start, order, m).settled(b) || swept(b, start, order, m).count >= MAX_SWEEP,
    ensures
        swept(b, start, order, n).results == swept(b, start, order, m).results,
        swept(b, start, order, n).count == swept(b, start, order, m).count,
    decreases n,
{
    if m < n {
        lemma_swept_stops(b, start, order, m, (n - 1) as nat);
    }
}

/// Nothing more is remembered once a search is over.
proof fn lemma_sweep_stops(b: Board, m: Store, start: Sweep, order: Seq<Rated>, k: nat, n: nat)
    requires
        k <= n,
        swept(b, start, order, k).settled(b) || swept(b, start, order, k).count >= MAX_SWEEP,
    ensures
        after_sweep(b, m, start, order, n) == after_sweep(b, m, start, order, k),
    decreases n,
{
    if k < n {
        lemma_sweep_stops(b, m, start, order, k, (n - 1) as nat);
        lemma_swept_stops(b, start, order, k, (n - 1) as nat);
    }
}

/// A cost fits where it is stored.
proof fn lemma_stored(b: Board, g: int)
    requires
        1 <= b.answers.len() <= u32::MAX,
    ensures
        solver::amount(memory::stored(b.cost(g, play::all_columns(b)))) == b.cost(
            g,
            play::all_columns(b),
        ),
{
    solver::lemma_rest_fits(b, g, play::all_columns(b), 243);
}

/// The guesses of a search: they are legal, each comes once, and every legal guess comes that has a
/// bounded cost.
proof fn lemma_opening_order(b: Board)
    requires
        b.valid(),
        b.answers.len() >= 1,
    ensures
        opening_order(b).len() <= b.guesses.len(),
        forall|k: int|
            0 <= k < opening_order(b).len() ==> b.legal(
                (#[trigger] opening_order(b)[k]).guess as int,
            ),
        forall|i: int, j: int|
            0 <= i < j < opening_order(b).len() ==> (#[trigger] opening_order(b)[i]).guess != (
            #[trigger] opening_order(b)[j]).guess,
        forall|g: int|
            b.legal(g) && #[trigger] b.cost(g, play::all_columns(b)) is Some ==> exists|k: int|
                0 <= k < opening_order(b).len() && (#[trigger] opening_order(b)[k]).guess == g,
{
    let all = play::all_columns(b);
    let n = b.guesses.len();
    let p = promising(b, n);
    let order = opening_order(b);
    lemma_promising(b, n);
    sort::lemma_sorted(p);
    assert(p.no_duplicates());
    p.lemma_multiset_has_no_duplicates();
    order.lemma_multiset_has_no_duplicates_conv();
    assert forall|k: int| 0 <= k < order.len() implies b.legal(
        (#[trigger] order[k]).guess as int,
    ) by {
        assert(order.contains(order[k]));
        assert(p.contains(order[k]));
    }
    assert forall|i: int, j: int| 0 <= i < j < order.len() implies (#[trigger] order[i]).guess != (
    #[trigger] order[j]).guess by {
        assert(order.contains(order[i]) && order.contains(order[j]));
        let x = choose|x: int| 0 <= x < p.len() && p[x] == order[i];
        let y = choose|y: int| 0 <= y < p.len() && p[y] == order[j];
        assert(order[i] != order[j]);
        if x < y {
            assert(p[x].guess < p[y].guess);
        } else {
            assert(p[y].guess < p[x].guess);
        }
    }
    assert forall|g: int| b.legal(g) && #[trigger] b.cost(g, all) is Some implies exists|k: int|
        0 <= k < order.len() && (#[trigger] order[k]).guess == g by {
        reveal(solver::no_progress);
        if solver::no_progress(b, g, all) {
            let q = choose|q: int|
                0 <= q < 243 && q != GREEN && #[trigger] b.part(g, all, q).len() == all.len();
            optimal::lemma_bucket(b, g, all, q);
            admissible::lemma_rest_none(b, g, all, q, 243);
        }
        let i = choose|i: int| 0 <= i < p.len() && (#[trigger] p[i]).guess == g;
        assert(p.contains(p[i]));
        assert(order.contains(p[i]));
        let k = choose|k: int| 0 <= k < order.len() && order[k] == p[i];
        assert(order[k].guess == g);
    }
}

proof fn lemma_promising(b: Board, n: nat)
    requires
        b.valid(),
        n <= b.guesses.len(),
    ensures
        promising(b, n).len() <= n,
        forall|i: int| 0 <= i < promising(b, n).len() ==> (#[trigger] promising(b, n)[i]).guess < n,
        forall|i: int, j: int|
            0 <= i < j < promising(b, n).len() ==> (#[trigger] promising(b, n)[i]).guess < (
            #[trigger] promising(b, n)[j]).guess,
        forall|g: int|
            0 <= g < n && !#[trigger] solver::no_progress(b, g, play::all_columns(b))
                ==> exists|i: int|
                0 <= i < promising(b, n).len() && (#[trigger] promising(b, n)[i]).guess == g,
    decreases n,
{
    if n > 0 {
        let all = play::all_columns(b);
        lemma_promising(b, (n - 1) as nat);
        let before = promising(b, (n - 1) as nat);
        let now = promising(b, n);
        let fresh = !solver::no_progress(b, n - 1, all);
        assert forall|g: int|
            0 <= g < n && !#[trigger] solver::no_progress(b, g, all) implies exists|i: int|
            0 <= i < now.len() && (#[trigger] now[i]).guess == g by {
            if g == n - 1 {
                assert(now[before.len() as int].guess == g);
            } else {
                let i = choose|i: int| 0 <= i < before.len() && (#[trigger] before[i]).guess == g;
                assert(now[i] == before[i]);
            }
        }
        assert forall|i: int| 0 <= i < now.len() implies (#[trigger] now[i]).guess < n by {
            if i < before.len() {
                assert(now[i] == before[i]);
            }
        }
        assert forall|i: int, j: int| 0 <= i < j < now.len() implies (#[trigger] now[i]).guess < (
        #[trigger] now[j]).guess by {
            assert(now[i] == before[i]);
            if j < before.len() {
                assert(now[j] == before[j]);
            } else {
                assert(fresh);
            }
        }
    }
}

/// Where an item goes in an ascending list.
proof fn lemma_insert_place(t: Seq<Opening>, x: Opening) -> (p: int)
    requires
        sort::ascending(t),
    ensures
        0 <= p <= t.len(),
        sort::ascending(t.insert(p, x)),
    decreases t.len(),
{
    if t.len() == 0 {
        assert(sort::ascending(t.insert(0, x)));
        0
    } else {
        let y = t.last();
        let u = t.drop_last();
        Opening::order_is_total(x, y, y);
        if y.leq(x) {
            assert forall|i: int| 0 <= i < t.len() implies (#[trigger] t[i]).leq(x) by {
                Opening::order_is_total(t[i], y, x);
                if i < t.len() - 1 {
                    assert(t[i].leq(t[t.len() - 1]));
                }
            }
            assert(sort::ascending(t.insert(t.len() as int, x)));
            t.len() as int
        } else {
            assert(sort::ascending(u));
            let p = lemma_insert_place(u, x);
            let v = u.insert(p, x);
            let w = t.insert(p, x);
            assert(w =~= v.push(y));
            assert forall|i: int, j: int| 0 <= i < j < w.len() implies #[trigger] w[i].leq(
                #[trigger] w[j],
            ) by {
                if j < v.len() {
                    assert(w[i] == v[i] && w[j] == v[j]);
                } else if i != p {
                    let k = if i < p {
                        i
                    } else {
                        i - 1
                    };
                    assert(w[i] == t[k]);
                    assert(t[k].leq(t[t.len() - 1]));
                }
            }
            p
        }
    }
}

/// One more result never raises the bar.
proof fn lemma_bar_push(results: Seq<Opening>, x: Opening)
    ensures
        !board::less(solver::amount(bar(results)), solver::amount(bar(results.push(x)))),
{
    broadcast use vstd::seq_lib::group_to_multiset_ensures;

    let t = ranked(results);
    sort::lemma_sorted(results);
    let p = lemma_insert_place(t, x);
    let w = t.insert(p, x);
    assert(w.to_multiset() =~= results.push(x).to_multiset());
    sort::lemma_sorted_unique(results.push(x), w);
    if results.len() >= TOP {
        assert(w[TOP - 1] == t[TOP - 1] || w[TOP - 1].leq(w[TOP as int]));
        assert(p > TOP - 1 ==> w[TOP - 1] == t[TOP - 1]);
        assert(p <= TOP - 1 ==> w[TOP as int] == t[TOP - 1]);
    }
}

/// What holds of the results of a search: every cost is that of its guess, and no guess comes
/// twice.
pub open spec fn sound(b: Board, results: Seq<Opening>) -> bool {
    &&& forall|i: int|
        0 <= i < results.len() ==> b.legal((#[trigger] results[i]).guess as int) && solver::amount(
            results[i].cost,
        ) == b.cost(results[i].guess as int, play::all_columns(b))
    &&& forall|i: int, j: int|
        0 <= i < j < results.len() ==> (#[trigger] results[i]).guess != (
        #[trigger] results[j]).guess
}

proof fn lemma_note_sound(b: Board, w: Sweep, g: u32)
    requires
        1 <= b.answers.len() <= u32::MAX,
        sound(b, w.results),
        b.legal(g as int),
        !w.has(g),
    ensures
        sound(b, w.note(b.cost(g as int, play::all_columns(b)), g)),
{
    let all = play::all_columns(b);
    lemma_stored(b, g as int);
    let now = w.note(b.cost(g as int, all), g);
    assert forall|i: int| 0 <= i < now.len() implies b.legal((#[trigger] now[i]).guess as int)
        && solver::amount(now[i].cost) == b.cost(now[i].guess as int, all) by {
        if i < w.results.len() {
            assert(now[i] == w.results[i]);
        }
    }
    assert forall|i: int, j: int| 0 <= i < j < now.len() implies (#[trigger] now[i]).guess != (
    #[trigger] now[j]).guess by {
        assert(now[i] == w.results[i]);
        if j < w.results.len() {
            assert(now[j] == w.results[j]);
        }
    }
}

proof fn lemma_first_place_bound(list: Seq<Word>, w: Word)
    ensures
        first_place(list, w) matches Some(k) ==> k < list.len() && list[k as int] == w,
    decreases list.len(),
{
    if list.len() > 0 {
        lemma_first_place_bound(list.drop_last(), w);
    }
}

/// The strong openers are different words.
proof fn lemma_strong_openers()
    ensures
        forall|i: int, j: int|
            0 <= i < j < strong_openers().len() ==> #[trigger] strong_openers()[i]
                != #[trigger] strong_openers()[j],
{
    let s = strong_openers();
    assert forall|i: int, j: int| 0 <= i < j < s.len() implies #[trigger] s[i]
        != #[trigger] s[j] by {
        assert(s[0]@[0] == 97 && s[1]@[0] == 115 && s[2]@[0] == 114 && s[3]@[0] == 99 && s[4]@[0]
            == 116 && s[5]@[0] == 99 && s[6]@[0] == 115);
        assert(s[3]@[3] == 110 && s[5]@[3] == 116);
        assert(s[1]@[1] == 111 && s[6]@[1] == 108);
    }
}

proof fn lemma_seeded_sound(b: Board, n: nat)
    requires
        b.valid(),
        1 <= b.answers.len(),
        n <= strong_openers().len(),
    ensures
        sound(b, seeded(b, strong_openers(), n).results),
        forall|i: int|
            0 <= i < seeded(b, strong_openers(), n).results.len() ==> exists|k: int|
                0 <= k < n && b.guesses[(#[trigger] seeded(
                    b,
                    strong_openers(),
                    n,
                ).results[i]).guess as int] == #[trigger] strong_openers()[k],
    decreases n,
{
    let seeds = strong_openers();
    if n > 0 {
        lemma_seeded_sound(b, (n - 1) as nat);
        lemma_first_place_bound(b.guesses, seeds[n - 1]);
        lemma_strong_openers();
        let before = seeded(b, seeds, (n - 1) as nat);
        let now = seeded(b, seeds, n);
        match first_place(b.guesses, seeds[n - 1]) {
            Some(g) => {
                if before.has(g as u32) {
                    let i = choose|i: int|
                        0 <= i < before.results.len() && (#[trigger] before.results[i]).guess
                            == g as u32;
                    let k = choose|k: int|
                        0 <= k < n - 1 && b.guesses[before.results[i].guess as int]
                            == #[trigger] seeds[k];
                    assert(seeds[k] != seeds[n - 1]);
                }
                lemma_note_sound(b, before, g as u32);
            },
            None => {},
        }
        assert forall|i: int| 0 <= i < now.results.len() implies exists|k: int|
            0 <= k < n && b.guesses[(#[trigger] now.results[i]).guess as int]
                == #[trigger] seeds[k] by {
            if i < before.results.len() {
                assert(now.results[i] == before.results[i]);
                let k = choose|k: int|
                    0 <= k < n - 1 && b.guesses[before.results[i].guess as int]
                        == #[trigger] seeds[k];
                assert(seeds[k] == b.guesses[now.results[i].guess as int]);
            } else {
                assert(seeds[n - 1] == b.guesses[now.results[i].guess as int]);
            }
        }
    }
}

/// Whether a guess is settled: it is among the results, or costs no less than the bar.
spec fn dealt_with(b: Board, w: Sweep, g: u32) -> bool {
    w.has(g) || !board::less(
        b.cost(g as int, play::all_columns(b)),
        solver::amount(bar(w.results)),
    )
}

/// The results stay sound as the search goes on; what is among them stays, and the rest comes from
/// the ranking.
proof fn lemma_swept_sound(b: Board, start: Sweep, order: Seq<Rated>, n: nat)
    requires
        1 <= b.answers.len() <= u32::MAX,
        sound(b, start.results),
        n <= order.len(),
        forall|k: int| 0 <= k < order.len() ==> b.legal((#[trigger] order[k]).guess as int),
        forall|i: int, j: int|
            0 <= i < j < order.len() ==> (#[trigger] order[i]).guess != (#[trigger] order[j]).guess,
    ensures
        sound(b, swept(b, start, order, n).results),
        forall|g: u32| #[trigger]
            swept(b, start, order, n).has(g) ==> start.has(g) || exists|k: int|
                0 <= k < n && (#[trigger] order[k]).guess == g,
    decreases n,
{
    if n > 0 {
        let m = (n - 1) as nat;
        lemma_swept_sound(b, start, order, m);
        let before = swept(b, start, order, m);
        let now = swept(b, start, order, n);
        let g = order[n - 1].guess;
        if now.results != before.results {
            if before.has(g) {
                let k = choose|k: int| 0 <= k < m && (#[trigger] order[k]).guess == g;
                assert(order[k].guess != order[n - 1].guess);
            }
            lemma_note_sound(b, before, g);
        }
        assert forall|h: u32| #[trigger] now.has(h) implies start.has(h) || exists|k: int|
            0 <= k < n && (#[trigger] order[k]).guess == h by {
            let i = choose|i: int|
                0 <= i < now.results.len() && (#[trigger] now.results[i]).guess == h;
            if i < before.results.len() {
                assert(before.results[i].guess == h);
                assert(before.has(h));
                if !start.has(h) {
                    let k = choose|k: int| 0 <= k < m && (#[trigger] order[k]).guess == h;
                    assert(order[k].guess == h);
                }
            } else {
                assert(order[n - 1].guess == h);
            }
        }
    }
}

/// What has been dealt with stays so.
proof fn lemma_dealt_with_step(b: Board, start: Sweep, order: Seq<Rated>, n: nat, g: u32)
    requires
        n > 0,
        dealt_with(b, swept(b, start, order, (n - 1) as nat), g),
    ensures
        dealt_with(b, swept(b, start, order, n), g),
{
    let before = swept(b, start, order, (n - 1) as nat);
    let now = swept(b, start, order, n);
    if now.results != before.results {
        let x = now.results.last();
        assert(now.results == before.results.push(x));
        lemma_bar_push(before.results, x);
        if before.has(g) {
            let i = choose|i: int|
                0 <= i < before.results.len() && (#[trigger] before.results[i]).guess == g;
            assert(now.results[i].guess == g);
        }
    }
}

proof fn lemma_has_start(b: Board, start: Sweep, order: Seq<Rated>, n: nat, g: u32)
    requires
        start.has(g),
    ensures
        swept(b, start, order, n).has(g),
    decreases n,
{
    if n > 0 {
        lemma_has_start(b, start, order, (n - 1) as nat, g);
        let before = swept(b, start, order, (n - 1) as nat);
        let now = swept(b, start, order, n);
        let i = choose|i: int|
            0 <= i < before.results.len() && (#[trigger] before.results[i]).guess == g;
        assert(now.results[i].guess == g);
    }
}

/// Every guess that the search comes to before it is cut short is dealt with.
proof fn lemma_swept_complete(b: Board, start: Sweep, order: Seq<Rated>, n: nat)
    requires
        b.valid(),
        1 <= b.answers.len(),
        b.distinct(play::all_columns(b)),
        n <= order.len(),
        forall|k: int| 0 <= k < order.len() ==> b.legal((#[trigger] order[k]).guess as int),
    ensures
        forall|k: int|
            0 <= k < n && !swept(b, start, order, k as nat + 1).cut ==> dealt_with(
                b,
                swept(b, start, order, n),
                (#[trigger] order[k]).guess,
            ),
    decreases n,
{
    if n > 0 {
        let all = play::all_columns(b);
        let m = (n - 1) as nat;
        lemma_swept_complete(b, start, order, m);
        let before = swept(b, start, order, m);
        let now = swept(b, start, order, n);
        assert forall|k: int|
            0 <= k < n && !swept(b, start, order, k as nat + 1).cut implies dealt_with(
            b,
            now,
            (#[trigger] order[k]).guess,
        ) by {
            let g = order[k].guess;
            if k < m {
                lemma_dealt_with_step(b, start, order, n, g);
            } else if start.has(g) {
                lemma_has_start(b, start, order, n, g);
            } else if before.settled(b) {
                assert(b.columns(all));
                assert(b.legal(g as int));
                admissible::law_floor_admissible(b, all);
                assert(match b.cost(g as int, all) {
                    Some(x) => b.floor(all) <= x,
                    None => true,
                });
            } else {
                let c = solver::cost_below(b, g as int, all, solver::amount(bar(before.results)));
                if c is Some {
                    assert(now.results[before.results.len() as int].guess == g);
                    assert(now.has(g));
                }
            }
        }
    }
}

/// A guess that has been dealt with is where it belongs in the ranking.
proof fn lemma_placed(b: Board, w: Sweep, g: u32)
    requires
        sound(b, w.results),
        dealt_with(b, w, g),
    ensures
        placed(b, ranked(w.results), g as int),
{
    let all = play::all_columns(b);
    let r = ranked(w.results);
    sort::lemma_sorted(w.results);
    if w.has(g) {
        let i = choose|i: int|
            0 <= i < w.results.len() && (#[trigger] w.results[i]).guess == g;
        assert(w.results.contains(w.results[i]));
        assert(r.contains(w.results[i]));
        let j = choose|j: int| 0 <= j < r.len() && r[j] == w.results[i];
        if j >= TOP {
            assert(r[TOP - 1].leq(r[j]));
        } else {
            assert(r[j].guess == g);
        }
    }
}

/// How many guesses a search has evaluated, and when it is cut short.
proof fn lemma_swept_count(b: Board, start: Sweep, order: Seq<Rated>, n: nat)
    requires
        start.count == 0,
        !start.cut,
    ensures
        swept(b, start, order, n).count <= n,
        swept(b, start, order, n).count <= MAX_SWEEP,
        swept(b, start, order, n).cut ==> n > MAX_SWEEP && swept(b, start, order, n).count
            == MAX_SWEEP,
    decreases n,
{
    if n > 0 {
        lemma_swept_count(b, start, order, (n - 1) as nat);
    }
}

proof fn lemma_seeded_count(b: Board, n: nat)
    ensures
        seeded(b, strong_openers(), n).count == 0,
        !seeded(b, strong_openers(), n).cut,
    decreases n,
{
    if n > 0 {
        lemma_seeded_count(b, (n - 1) as nat);
    }
}

/// The search ranks openings by their exact costs: every cost is that of its guess, no guess comes
/// twice, and costs ascend.
pub proof fn law_openings(b: Board)
    requires
        b.valid(),
        b.answers.len() >= 1,
    ensures
        sound(b, ranked(opening_search(b).results)),
        sort::ascending(ranked(opening_search(b).results)),
{
    let results = opening_search(b).results;
    let r = ranked(results);
    lemma_seeded_sound(b, strong_openers().len());
    lemma_opening_order(b);
    lemma_swept_sound(b, opening_start(b), opening_order(b), opening_order(b).len());
    sort::lemma_sorted(results);
    assert(results.no_duplicates());
    results.lemma_multiset_has_no_duplicates();
    r.lemma_multiset_has_no_duplicates_conv();
    assert forall|i: int| 0 <= i < r.len() implies b.legal((#[trigger] r[i]).guess as int)
        && solver::amount(r[i].cost) == b.cost(r[i].guess as int, play::all_columns(b)) by {
        assert(r.contains(r[i]));
        assert(results.contains(r[i]));
    }
    assert forall|i: int, j: int| 0 <= i < j < r.len() implies (#[trigger] r[i]).guess != (
    #[trigger] r[j]).guess by {
        assert(r.contains(r[i]) && r.contains(r[j]));
        let x = choose|x: int| 0 <= x < results.len() && results[x] == r[i];
        let y = choose|y: int| 0 <= y < results.len() && results[y] == r[j];
        assert(r[i] != r[j]);
        if x < y {
            assert(results[x].guess != results[y].guess);
        } else {
            assert(results[y].guess != results[x].guess);
        }
    }
}

/// The first ten openings are the ten best of all guesses that the search came to; unless it was
/// cut short, of all legal guesses. It is not cut short where there are no more legal guesses than
/// it may evaluate, and where it is, it has evaluated as many as it may.
pub proof fn law_openings_complete(b: Board)
    requires
        b.valid(),
        b.answers.len() >= 1,
    ensures
        b.distinct(play::all_columns(b)) ==> forall|k: int|
            0 <= k < opening_order(b).len() && !swept(
                b,
                opening_start(b),
                opening_order(b),
                k as nat + 1,
            ).cut ==> placed(
                b,
                ranked(opening_search(b).results),
                (#[trigger] opening_order(b)[k]).guess as int,
            ),
        b.distinct(play::all_columns(b)) && !opening_search(b).cut ==> forall|g: int|
            b.legal(g) ==> #[trigger] placed(b, ranked(opening_search(b).results), g),
        b.guesses.len() <= MAX_SWEEP ==> !opening_search(b).cut,
        opening_search(b).cut ==> opening_search(b).count == MAX_SWEEP,
{
    let start = opening_start(b);
    let order = opening_order(b);
    let w = opening_search(b);
    let r = ranked(w.results);
    lemma_seeded_sound(b, strong_openers().len());
    lemma_seeded_count(b, strong_openers().len());
    lemma_opening_order(b);
    lemma_swept_sound(b, start, order, order.len());
    lemma_swept_count(b, start, order, order.len());
    if b.distinct(play::all_columns(b)) {
        lemma_swept_complete(b, start, order, order.len());
        assert forall|k: int|
            0 <= k < order.len() && !swept(b, start, order, k as nat + 1).cut implies placed(
            b,
            r,
            (#[trigger] order[k]).guess as int,
        ) by {
            lemma_placed(b, w, order[k].guess);
        }
        if !w.cut {
            assert forall|g: int| b.legal(g) implies #[trigger] placed(b, r, g) by {
                if b.cost(g, play::all_columns(b)) is Some {
                    let k = choose|k: int|
                        0 <= k < order.len() && (#[trigger] order[k]).guess == g;
                    lemma_uncut(b, start, order, k as nat + 1, order.len());
                    assert(placed(b, r, order[k].guess as int));
                }
            }
        }
    }
}

/// A search that is not cut short in the end was not cut short before.
proof fn lemma_uncut(b: Board, start: Sweep, order: Seq<Rated>, m: nat, n: nat)
    requires
        m <= n,
        !swept(b, start, order, n).cut,
    ensures
        !swept(b, start, order, m).cut,
    decreases n,
{
    if m < n {
        lemma_uncut(b, start, order, m, (n - 1) as nat);
    }
}

/// The first opening is the best one, unless the search was cut short: no legal guess costs less.
pub proof fn law_best_opening_first(b: Board, g: int)
    requires
        b.valid(),
        b.answers.len() >= 1,
        b.distinct(play::all_columns(b)),
        !opening_search(b).cut,
        b.legal(g),
    ensures
        ranked(opening_search(b).results).len() >= 1,
        !board::less(
            b.cost(g, play::all_columns(b)),
            solver::amount(ranked(opening_search(b).results)[0].cost),
        ),
{
    let all = play::all_columns(b);
    let r = ranked(opening_search(b).results);
    assert(b.columns(all));
    law_openings(b);
    law_openings_complete(b);
    admissible::law_best_is_optimal(b, all, true);
    let best = b.best(all, true).1 as int;
    optimal::lemma_universe(b, all, true);
    assert(placed(b, r, best));
    assert(placed(b, r, g));
    assert(r.len() >= 1);
    if b.cost(g, all) is Some {
        if on_top(r, g) {
            let i = choose|i: int| 0 <= i < r.len() && i < TOP && (#[trigger] r[i]).guess == g;
            if i > 0 {
                assert(r[0].leq(r[i]));
            }
        } else {
            assert(r[0].leq(r[TOP - 1]));
        }
    }
}

/// The first place of a word in a list: there is none exactly if the word is not on the list, and
/// otherwise the word stands there and nowhere earlier.
pub proof fn law_first_place(list: Seq<Word>, w: Word)
    ensures
        first_place(list, w) is None <==> !list.contains(w),
        first_place(list, w) matches Some(k) ==> k < list.len() && list[k as int] == w && forall|
            i: int,
        |
            0 <= i < k ==> list[i] != w,
    decreases list.len(),
{
    if list.len() > 0 {
        let t = list.drop_last();
        law_first_place(t, w);
        assert(list[list.len() - 1] == list.last());
        if list.contains(w) {
            let i = choose|i: int| 0 <= i < list.len() && list[i] == w;
            if i < t.len() {
                assert(t[i] == w);
            }
        }
        if t.contains(w) {
            let i = choose|i: int| 0 <= i < t.len() && t[i] == w;
            assert(list[i] == w);
        }
        assert forall|i: int| 0 <= i < t.len() implies t[i] == list[i] by {}
    }
}

/// Whether a guess is the first place of one of the strong openers.
pub open spec fn is_strong(b: Board, g: int) -> bool {
    exists|i: int|
        0 <= i < strong_openers().len() && b.guesses[g] == #[trigger] strong_openers()[i] && forall|
            k: int,
        |
            0 <= k < g ==> b.guesses[k] != b.guesses[g]
}

proof fn lemma_start_strong(b: Board, n: nat, g: u32)
    requires
        b.valid(),
        n <= strong_openers().len(),
    ensures
        seeded(b, strong_openers(), n).has(g) ==> b.legal(g as int) && is_strong(b, g as int),
        forall|i: int|
            0 <= i < n && b.legal(g as int) && b.guesses[g as int] == #[trigger] strong_openers()[i]
                && (forall|k: int| 0 <= k < g ==> b.guesses[k] != b.guesses[g as int]) ==> seeded(
                b,
                strong_openers(),
                n,
            ).has(g),
    decreases n,
{
    let seeds = strong_openers();
    if n > 0 {
        let m = (n - 1) as nat;
        lemma_start_strong(b, m, g);
        law_first_place(b.guesses, seeds[n - 1]);
        let before = seeded(b, seeds, m);
        let now = seeded(b, seeds, n);
        if before.has(g) {
            let i = choose|i: int|
                0 <= i < before.results.len() && (#[trigger] before.results[i]).guess == g;
            assert(now.results[i].guess == g);
        }
        if now.has(g) && !before.has(g) {
            let i = choose|i: int|
                0 <= i < now.results.len() && (#[trigger] now.results[i]).guess == g;
            if i < before.results.len() {
                assert(before.results[i].guess == g);
            }
            assert(b.guesses[g as int] == seeds[n - 1]);
        }
        assert forall|i: int|
            0 <= i < n && b.legal(g as int) && b.guesses[g as int] == #[trigger] seeds[i] && (
            forall|k: int| 0 <= k < g ==> b.guesses[k] != b.guesses[g as int]) implies now.has(
            g,
        ) by {
            if i == n - 1 {
                assert(b.guesses.contains(b.guesses[g as int]));
                let k = first_place(b.guesses, seeds[n - 1])->0 as int;
                if k < g {
                    assert(b.guesses[k] != b.guesses[g as int]);
                } else if k > g {
                    assert(b.guesses[g as int] != seeds[n - 1]);
                }
                assert(now.results[before.results.len() as int].guess == g);
            }
        }
    }
}

/// The guesses that a search evaluates before it comes to guess `n` of the ranking.
proof fn lemma_evaluated(b: Board, start: Sweep, order: Seq<Rated>, n: nat) -> (ahead: Seq<u32>)
    requires
        start.count == 0,
        n <= order.len(),
        forall|i: int, j: int|
            0 <= i < j < order.len() ==> (#[trigger] order[i]).guess != (#[trigger] order[j]).guess,
    ensures
        ahead.len() == swept(b, start, order, n).count,
        ahead.no_duplicates(),
        forall|i: int|
            0 <= i < ahead.len() ==> !start.has(#[trigger] ahead[i]) && exists|k: int|
                0 <= k < n && (#[trigger] order[k]).guess == ahead[i],
    decreases n,
{
    if n == 0 {
        Seq::empty()
    } else {
        let m = (n - 1) as nat;
        let before = lemma_evaluated(b, start, order, m);
        if swept(b, start, order, n).count == swept(b, start, order, m).count {
            assert forall|i: int| 0 <= i < before.len() implies !start.has(#[trigger] before[i])
                && exists|k: int| 0 <= k < n && (#[trigger] order[k]).guess == before[i] by {
                let k = choose|k: int| 0 <= k < m && (#[trigger] order[k]).guess == before[i];
                assert(order[k].guess == before[i]);
            }
            before
        } else {
            let g = order[n - 1].guess;
            let now = before.push(g);
            assert forall|i: int| 0 <= i < now.len() implies !start.has(#[trigger] now[i])
                && exists|k: int| 0 <= k < n && (#[trigger] order[k]).guess == now[i] by {
                if i < before.len() {
                    assert(now[i] == before[i]);
                    let k = choose|k: int| 0 <= k < m && (#[trigger] order[k]).guess == before[i];
                    assert(order[k].guess == now[i]);
                } else {
                    assert(order[n - 1].guess == now[i]);
                }
            }
            assert forall|i: int, j: int| 0 <= i < j < now.len() implies now[i] != now[j] by {
                if j == before.len() {
                    assert(before[i] == now[i]);
                    let k = choose|k: int| 0 <= k < m && (#[trigger] order[k]).guess == before[i];
                    assert(order[k].guess != order[n - 1].guess);
                } else {
                    assert(before[i] != before[j]);
                }
            }
            now
        }
    }
}

/// Where a search is cut short. A guess that ought to be among the ten, and is not, was left out
/// for more promising ones: there are as many other guesses as a search may evaluate that make
/// progress, are not strong openers, and have even bounds no larger than its own. A strong opener
/// is never left out.
pub proof fn law_most_promising_first(b: Board, g: int)
    requires
        b.valid(),
        b.answers.len() >= 1,
        b.distinct(play::all_columns(b)),
        b.legal(g),
        ({
            let r = first_ten(ranked(opening_search(b).results));
            &&& b.cost(g, play::all_columns(b)) is Some
            &&& forall|i: int| 0 <= i < r.len() ==> (#[trigger] r[i]).guess != g
            &&& r.len() < 10 || (r[9].cost matches Some(x) ==> b.cost(
                g,
                play::all_columns(b),
            )->0 < x)
        }),
    ensures
        !is_strong(b, g),
        exists|ahead: Seq<u32>|
            {
                &&& #[trigger] ahead.no_duplicates()
                &&& ahead.len() == 500
                &&& forall|i: int|
                    0 <= i < ahead.len() ==> {
                        let h = #[trigger] ahead[i] as int;
                        &&& b.legal(h) && h != g && !is_strong(b, h)
                        &&& !solver::no_progress(b, h, play::all_columns(b))
                        &&& b.even_bound(h, play::all_columns(b), 243) <= b.even_bound(
                            g,
                            play::all_columns(b),
                            243,
                        )
                    }
            },
{
    let all = play::all_columns(b);
    let start = opening_start(b);
    let order = opening_order(b);
    let p = promising(b, b.guesses.len());
    let w = opening_search(b);
    lemma_seeded_sound(b, strong_openers().len());
    lemma_seeded_count(b, strong_openers().len());
    lemma_opening_order(b);
    lemma_promising_rates(b, b.guesses.len());
    sort::lemma_sorted(p);
    law_openings_complete(b);
    lemma_swept_sound(b, start, order, order.len());
    let r = ranked(w.results);
    assert(!placed(b, r, g)) by {
        assert(first_ten(r).len() == if r.len() > 10 {
            10
        } else {
            r.len()
        });
        if on_top(r, g) {
            let i = choose|i: int| 0 <= i < r.len() && i < TOP && (#[trigger] r[i]).guess == g;
            assert(first_ten(r)[i].guess == g);
        }
    }
    let k = choose|k: int| 0 <= k < order.len() && (#[trigger] order[k]).guess == g;
    if is_strong(b, g) {
        lemma_start_strong(b, strong_openers().len(), g as u32);
        lemma_has_start(b, start, order, order.len(), g as u32);
        lemma_placed(b, w, g as u32);
    }
    assert(swept(b, start, order, k as nat + 1).cut);
    lemma_swept_count(b, start, order, k as nat + 1);
    lemma_swept_count(b, start, order, k as nat);
    let ahead = lemma_evaluated(b, start, order, k as nat);
    assert(ahead.len() == MAX_SWEEP);
    assert forall|i: int| 0 <= i < ahead.len() implies {
        let h = #[trigger] ahead[i] as int;
        &&& b.legal(h) && h != g && !is_strong(b, h)
        &&& !solver::no_progress(b, h, all)
        &&& b.even_bound(h, all, 243) <= b.even_bound(g, all, 243)
    } by {
        let h = ahead[i] as int;
        let j = choose|j: int| 0 <= j < k && (#[trigger] order[j]).guess == ahead[i];
        lemma_start_strong(b, strong_openers().len(), ahead[i]);
        assert(order.contains(order[j]) && order.contains(order[k]));
        assert(p.contains(order[j]) && p.contains(order[k]));
        let x = choose|x: int| 0 <= x < p.len() && p[x] == order[j];
        let y = choose|y: int| 0 <= y < p.len() && p[y] == order[k];
        assert(p[x].guess == h && p[y].guess == g);
        assert(order[j].guess != order[k].guess);
        assert(order[j].leq(order[k]));
        solver::lemma_even_bound_fits(b, h, all);
        solver::lemma_even_bound_fits(b, g, all);
    }
    assert(ahead.no_duplicates());
}

proof fn lemma_promising_rates(b: Board, n: nat)
    requires
        b.valid(),
        n <= b.guesses.len(),
    ensures
        forall|i: int|
            0 <= i < promising(b, n).len() ==> {
                let r = #[trigger] promising(b, n)[i];
                &&& !solver::no_progress(b, r.guess as int, play::all_columns(b))
                &&& r.key == b.even_bound(r.guess as int, play::all_columns(b), 243) as u64
                &&& r.pos == r.guess
            },
    decreases n,
{
    if n > 0 {
        lemma_promising_rates(b, (n - 1) as nat);
        let before = promising(b, (n - 1) as nat);
        let now = promising(b, n);
        assert forall|i: int| 0 <= i < now.len() implies {
            let r = #[trigger] now[i];
            &&& !solver::no_progress(b, r.guess as int, play::all_columns(b))
            &&& r.key == b.even_bound(r.guess as int, play::all_columns(b), 243) as u64
            &&& r.pos == r.guess
        } by {
            if i < before.len() {
                assert(now[i] == before[i]);
            }
        }
    }
}

/// What the rows of the list of openings are: at most ten; every row is a legal guess with its cost
/// over all answers; no guess comes twice; and none comes before one of a smaller cost.
pub proof fn law_opening_rows(b: Board, i: int, j: int)
    requires
        b.valid(),
        b.answers.len() >= 1,
        0 <= i < first_ten(ranked(opening_search(b).results)).len(),
        0 <= j < first_ten(ranked(opening_search(b).results)).len(),
    ensures
        ({
            let r = first_ten(ranked(opening_search(b).results));
            &&& r.len() <= 10
            &&& r[i].guess < b.guesses.len()
            &&& match (r[i].cost, b.cost(r[i].guess as int, play::all_columns(b))) {
                (Some(x), Some(y)) => x == y,
                (None, None) => true,
                _ => false,
            }
            &&& i != j ==> r[i].guess != r[j].guess
            &&& i < j ==> match (r[i].cost, r[j].cost) {
                (Some(x), Some(y)) => x <= y,
                (None, Some(_)) => false,
                _ => true,
            }
        }),
{
    let whole = ranked(opening_search(b).results);
    law_openings(b);
    lemma_rows(b, whole, i, j);
}

proof fn lemma_rows(b: Board, whole: Seq<Opening>, i: int, j: int)
    requires
        sound(b, whole),
        sort::ascending(whole),
        0 <= i < first_ten(whole).len(),
        0 <= j < first_ten(whole).len(),
    ensures
        ({
            let r = first_ten(whole);
            &&& r.len() <= 10
            &&& r[i].guess < b.guesses.len()
            &&& match (r[i].cost, b.cost(r[i].guess as int, play::all_columns(b))) {
                (Some(x), Some(y)) => x == y,
                (None, None) => true,
                _ => false,
            }
            &&& i != j ==> r[i].guess != r[j].guess
            &&& i < j ==> match (r[i].cost, r[j].cost) {
                (Some(x), Some(y)) => x <= y,
                (None, Some(_)) => false,
                _ => true,
            }
        }),
{
    let r = first_ten(whole);
    assert(r[i] == whole[i] && r[j] == whole[j]);
    if i < j {
        assert(whole[i].leq(whole[j]));
    }
}

/// The list of openings holds the ten best, where there are no more guesses than a search may
/// evaluate and the answers are different words: a legal guess that is not on it has no bounded
/// cost, or there are ten rows and it costs no less than the last.
pub proof fn law_ten_best(b: Board, g: int)
    requires
        b.valid(),
        b.answers.len() >= 1,
        b.distinct(play::all_columns(b)),
        b.guesses.len() <= 500,
        b.legal(g),
        b.cost(g, play::all_columns(b)) is Some,
        forall|k: int|
            0 <= k < first_ten(ranked(opening_search(b).results)).len() ==> (
            #[trigger] first_ten(ranked(opening_search(b).results))[k]).guess != g,
    ensures
        first_ten(ranked(opening_search(b).results)).len() == 10,
        first_ten(ranked(opening_search(b).results))[9].cost matches Some(x) && x <= b.cost(
            g,
            play::all_columns(b),
        )->0,
{
    let whole = ranked(opening_search(b).results);
    assert(placed(b, whole, g)) by {
        law_openings_complete(b);
    }
    lemma_on_the_list(b, whole, g);
}

proof fn lemma_on_the_list(b: Board, whole: Seq<Opening>, g: int)
    requires
        placed(b, whole, g),
        b.cost(g, play::all_columns(b)) is Some,
        forall|k: int|
            0 <= k < first_ten(whole).len() ==> (#[trigger] first_ten(whole)[k]).guess != g,
    ensures
        first_ten(whole).len() == 10,
        first_ten(whole)[9].cost matches Some(x) && x <= b.cost(g, play::all_columns(b))->0,
{
    let r = first_ten(whole);
    if on_top(whole, g) {
        let k = choose|k: int| 0 <= k < whole.len() && k < TOP && (#[trigger] whole[k]).guess == g;
        assert(r[k].guess == g);
    }
    assert(r[9] == whole[9]);
}

/// Which results a search has, and in which order: the strong openers that are legal, in their
/// order, and then guesses in the order of the ranking.
proof fn lemma_swept_positions(b: Board, start: Sweep, order: Seq<Rated>, n: nat)
    requires
        n <= order.len(),
        start.count <= MAX_SWEEP,
        start.results.len() + MAX_SWEEP <= u32::MAX,
        forall|i: int| 0 <= i < start.results.len() ==> (#[trigger] start.results[i]).pos == i,
    ensures
        swept(b, start, order, n).count <= MAX_SWEEP,
        swept(b, start, order, n).results.len() <= start.results.len() + swept(
            b,
            start,
            order,
            n,
        ).count,
        start.results.len() <= swept(b, start, order, n).results.len(),
        forall|i: int|
            0 <= i < start.results.len() ==> #[trigger] swept(b, start, order, n).results[i]
                == start.results[i],
        forall|i: int|
            0 <= i < swept(b, start, order, n).results.len() ==> (#[trigger] swept(
                b,
                start,
                order,
                n,
            ).results[i]).pos == i,
        forall|i: int|
            start.results.len() <= i < swept(b, start, order, n).results.len() ==> !start.has(
                (#[trigger] swept(b, start, order, n).results[i]).guess,
            ) && exists|k: int|
                0 <= k < n && (#[trigger] order[k]).guess == swept(
                    b,
                    start,
                    order,
                    n,
                ).results[i].guess,
        forall|i: int, j: int|
            start.results.len() <= i < j < swept(b, start, order, n).results.len() ==> exists|
                k: int,
                l: int,
            |
                0 <= k < l < n && (#[trigger] order[k]).guess == (#[trigger] swept(
                    b,
                    start,
                    order,
                    n,
                ).results[i]).guess && (#[trigger] order[l]).guess == (#[trigger] swept(
                    b,
                    start,
                    order,
                    n,
                ).results[j]).guess,
    decreases n,
{
    if n > 0 {
        let m = (n - 1) as nat;
        lemma_swept_positions(b, start, order, m);
        let before = swept(b, start, order, m).results;
        let now = swept(b, start, order, n).results;
        let a = start.results.len();
        assert forall|i: int| 0 <= i < now.len() implies (#[trigger] now[i]).pos == i by {
            if i < before.len() {
                assert(now[i] == before[i]);
            }
        }
        assert forall|i: int| 0 <= i < a implies #[trigger] now[i] == start.results[i] by {
            assert(now[i] == before[i]);
        }
        assert forall|i: int| a <= i < now.len() implies !start.has((#[trigger] now[i]).guess)
            && exists|k: int| 0 <= k < n && (#[trigger] order[k]).guess == now[i].guess by {
            if i < before.len() {
                assert(now[i] == before[i]);
                let k = choose|k: int|
                    0 <= k < m && (#[trigger] order[k]).guess == before[i].guess;
                assert(order[k].guess == now[i].guess);
            } else {
                assert(order[n - 1].guess == now[i].guess);
            }
        }
        assert forall|i: int, j: int| a <= i < j < now.len() implies exists|k: int, l: int|
            0 <= k < l < n && (#[trigger] order[k]).guess == (#[trigger] now[i]).guess && (
            #[trigger] order[l]).guess == (#[trigger] now[j]).guess by {
            assert(now[i] == before[i]);
            if j < before.len() {
                assert(now[j] == before[j]);
                let (k, l) = choose|k: int, l: int|
                    0 <= k < l < m && (#[trigger] order[k]).guess == before[i].guess && (
                    #[trigger] order[l]).guess == before[j].guess;
                assert(order[k].guess == now[i].guess && order[l].guess == now[j].guess);
            } else {
                let k = choose|k: int|
                    0 <= k < m && (#[trigger] order[k]).guess == before[i].guess;
                assert(order[k].guess == now[i].guess && order[n - 1].guess == now[j].guess);
            }
        }
    }
}

/// The results for the strong openers are in the order of their list.
proof fn lemma_seeded_positions(b: Board, n: nat)
    requires
        b.valid(),
        n <= strong_openers().len(),
    ensures
        seeded(b, strong_openers(), n).results.len() <= n,
        forall|i: int|
            0 <= i < seeded(b, strong_openers(), n).results.len() ==> (#[trigger] seeded(
                b,
                strong_openers(),
                n,
            ).results[i]).pos == i && exists|k: int|
                0 <= k < n && #[trigger] strong_openers()[k] == b.guesses[seeded(
                    b,
                    strong_openers(),
                    n,
                ).results[i].guess as int],
        forall|i: int, j: int|
            0 <= i < j < seeded(b, strong_openers(), n).results.len() ==> in_order(
                b,
                (#[trigger] seeded(b, strong_openers(), n).results[i]).guess as int,
                (#[trigger] seeded(b, strong_openers(), n).results[j]).guess as int,
            ),
    decreases n,
{
    let seeds = strong_openers();
    if n > 0 {
        let m = (n - 1) as nat;
        lemma_seeded_positions(b, m);
        lemma_strong_openers();
        law_first_place(b.guesses, seeds[n - 1]);
        let before = seeded(b, seeds, m).results;
        let now = seeded(b, seeds, n).results;
        assert forall|i: int| 0 <= i < now.len() implies (#[trigger] now[i]).pos == i && exists|
            k: int,
        |
            0 <= k < n && #[trigger] seeds[k] == b.guesses[now[i].guess as int] by {
            if i < before.len() {
                assert(now[i] == before[i]);
                let k = choose|k: int|
                    0 <= k < m && #[trigger] seeds[k] == b.guesses[before[i].guess as int];
                assert(seeds[k] == b.guesses[now[i].guess as int]);
            } else {
                assert(seeds[n - 1] == b.guesses[now[i].guess as int]);
            }
        }
        assert forall|i: int, j: int| 0 <= i < j < now.len() implies in_order(
            b,
            (#[trigger] now[i]).guess as int,
            (#[trigger] now[j]).guess as int,
        ) by {
            assert(now[i] == before[i]);
            if j < before.len() {
                assert(now[j] == before[j]);
            } else {
                let k = choose|k: int|
                    0 <= k < m && #[trigger] seeds[k] == b.guesses[before[i].guess as int];
                assert(seeds[k] == b.guesses[now[i].guess as int]);
                assert(seeds[n - 1] == b.guesses[now[j].guess as int]);
            }
        }
    }
}

/// Whether one guess comes before another in the list of strong openers.
pub open spec fn in_order(b: Board, g: int, h: int) -> bool {
    exists|x: int, y: int|
        0 <= x < y < strong_openers().len() && b.guesses[g] == #[trigger] strong_openers()[x]
            && b.guesses[h] == #[trigger] strong_openers()[y]
}

/// Openings of the same cost are in the order in which they were found: strong openers first, as
/// they are listed, and then the others by ascending even bound and, where these are equal too, as
/// they stand in the list of guesses.
pub proof fn law_opening_ties(b: Board, i: int, j: int)
    requires
        b.valid(),
        b.answers.len() >= 1,
        0 <= i < j < ranked(opening_search(b).results).len(),
        ranked(opening_search(b).results)[i].cost == ranked(opening_search(b).results)[j].cost,
    ensures
        ({
            let g = ranked(opening_search(b).results)[i].guess as int;
            let h = ranked(opening_search(b).results)[j].guess as int;
            let all = play::all_columns(b);
            if is_strong(b, g) && is_strong(b, h) {
                in_order(b, g, h)
            } else {
                &&& !is_strong(b, h)
                &&& !is_strong(b, g) ==> b.even_bound(g, all, 243) < b.even_bound(h, all, 243) || (
                b.even_bound(g, all, 243) == b.even_bound(h, all, 243) && g < h)
            }
        }),
{
    let start = opening_start(b);
    let order = opening_order(b);
    let results = opening_search(b).results;
    let r = ranked(results);
    let g = r[i].guess;
    let h = r[j].guess;
    lemma_seeded_positions(b, strong_openers().len());
    lemma_start_strong(b, strong_openers().len(), g);
    lemma_start_strong(b, strong_openers().len(), h);
    assert(b.legal(g as int) && b.legal(h as int)) by {
        law_openings(b);
    }
    let (x, y) = lemma_found(b, i, j);
    assert(x < y && results[x].guess == g && results[y].guess == h);
    let a = start.results.len();
    if x < a {
        assert(start.results[x] == results[x]);
        assert(start.has(g));
    }
    if y < a {
        assert(start.results[y] == results[y]);
        assert(start.has(h));
    }
    if x >= a {
        assert(!start.has(g) && !start.has(h));
        let (k, l) = choose|k: int, l: int|
            0 <= k < l < order.len() && (#[trigger] order[k]).guess == results[x].guess && (
            #[trigger] order[l]).guess == results[y].guess;
        lemma_order_by_bound(b, k, l);
    }
}

proof fn lemma_found(b: Board, i: int, j: int) -> (r: (int, int))
    requires
        b.valid(),
        b.answers.len() >= 1,
        0 <= i < j < ranked(opening_search(b).results).len(),
        ranked(opening_search(b).results)[i].cost == ranked(opening_search(b).results)[j].cost,
    ensures
        0 <= r.0 < r.1 < opening_search(b).results.len(),
        opening_search(b).results[r.0] == ranked(opening_search(b).results)[i],
        opening_search(b).results[r.1] == ranked(opening_search(b).results)[j],
        opening_start(b).results.len() <= opening_search(b).results.len(),
        forall|k: int|
            0 <= k < opening_start(b).results.len() ==> #[trigger] opening_search(b).results[k]
                == opening_start(b).results[k],
        forall|k: int|
            opening_start(b).results.len() <= k < opening_search(b).results.len()
                ==> !opening_start(b).has((#[trigger] opening_search(b).results[k]).guess),
        forall|i: int, j: int|
            opening_start(b).results.len() <= i < j < opening_search(b).results.len() ==> exists|
                k: int,
                l: int,
            |
                0 <= k < l < opening_order(b).len() && (#[trigger] opening_order(b)[k]).guess == (
                #[trigger] opening_search(b).results[i]).guess && (#[trigger] opening_order(
                    b,
                )[l]).guess == (#[trigger] opening_search(b).results[j]).guess,
{
    let results = opening_search(b).results;
    let whole = ranked(results);
    lemma_seeded_positions(b, strong_openers().len());
    lemma_seeded_count(b, strong_openers().len());
    lemma_opening_order(b);
    lemma_swept_positions(b, opening_start(b), opening_order(b), opening_order(b).len());
    sort::lemma_sorted(results);
    assert(whole[i].guess != whole[j].guess && whole[i].leq(whole[j])) by {
        law_openings(b);
    }
    assert(whole.contains(whole[i]) && whole.contains(whole[j]));
    assert(results.contains(whole[i]) && results.contains(whole[j]));
    let x = choose|x: int| 0 <= x < results.len() && results[x] == whole[i];
    let y = choose|y: int| 0 <= y < results.len() && results[y] == whole[j];
    assert(results[x].pos == x && results[y].pos == y);
    (x, y)
}

proof fn lemma_order_by_bound(b: Board, k: int, l: int)
    requires
        b.valid(),
        b.answers.len() >= 1,
        0 <= k < l < opening_order(b).len(),
    ensures
        ({
            let g = opening_order(b)[k].guess as int;
            let h = opening_order(b)[l].guess as int;
            let all = play::all_columns(b);
            b.even_bound(g, all, 243) < b.even_bound(h, all, 243) || (b.even_bound(g, all, 243)
                == b.even_bound(h, all, 243) && g < h)
        }),
{
    let all = play::all_columns(b);
    let order = opening_order(b);
    let p = promising(b, b.guesses.len());
    let g = order[k].guess as int;
    let h = order[l].guess as int;
    lemma_opening_order(b);
    lemma_promising_rates(b, b.guesses.len());
    sort::lemma_sorted(p);
    assert(order.contains(order[k]) && order.contains(order[l]));
    assert(p.contains(order[k]) && p.contains(order[l]));
    let x = choose|x: int| 0 <= x < p.len() && p[x] == order[k];
    let y = choose|y: int| 0 <= y < p.len() && p[y] == order[l];
    assert(p[x].pos == p[x].guess && p[y].pos == p[y].guess);
    assert(order[k].guess != order[l].guess);
    assert(order[k].leq(order[l]));
    solver::lemma_even_bound_fits(b, g, all);
    solver::lemma_even_bound_fits(b, h, all);
}

proof fn lemma_seeds_remember(b: Board, m: Store, n: nat, i: int, p: int)
    requires
        b.valid(),
        b.answers.len() >= 1,
        n <= strong_openers().len(),
    ensures
        memory::extends(m, after_seeds(b, m, strong_openers(), n)),
        after_seeds(b, m, strong_openers(), n).root == m.root,
        ({
            let results = seeded(b, strong_openers(), n).results;
            let g = results[i].guess as int;
            let all = play::all_columns(b);
            0 <= i < results.len() && b.cost(g, all) is Some && 0 <= p < 242 && 2 <= b.bucket(
                g,
                all,
                p,
            ).len() <= 160 ==> after_seeds(b, m, strong_openers(), n).beyond.contains_key(
                b.bucket(g, all, p),
            )
        }),
    decreases n,
{
    memory::lemma_extends_itself(m);
    if n > 0 {
        let k = (n - 1) as nat;
        let seeds = strong_openers();
        let all = play::all_columns(b);
        let before = after_seeds(b, m, seeds, k);
        let now = after_seeds(b, m, seeds, n);
        let results = seeded(b, seeds, n).results;
        let sub = b.bucket(results[i].guess as int, all, p);
        lemma_seeds_remember(b, m, k, i, p);
        lemma_first_place_bound(b.guesses, seeds[n - 1]);
        match first_place(b.guesses, seeds[n - 1]) {
            Some(g) => {
                memory::lemma_guess_extends(b, before, g as int, all, None);
                memory::lemma_extends_twice(m, before, now);
                let old_results = seeded(b, seeds, k).results;
                if 0 <= i < results.len() && b.cost(results[i].guess as int, all) is Some && 0 <= p
                    < 242 && 2 <= sub.len() <= 160 {
                    if i < old_results.len() {
                        assert(results[i] == old_results[i]);
                        assert(before.beyond.dom().contains(sub));
                    } else {
                        assert(results[i].guess == g);
                        memory::law_guess_remembers(b, before, g as int, all, None, p);
                    }
                }
            },
            None => {},
        }
    }
}

proof fn lemma_sweep_remembers(
    b: Board,
    m: Store,
    start: Sweep,
    order: Seq<Rated>,
    n: nat,
    i: int,
    p: int,
)
    requires
        b.answers.len() >= 1,
        n <= order.len(),
    ensures
        memory::extends(m, after_sweep(b, m, start, order, n)),
        after_sweep(b, m, start, order, n).root == m.root,
        start.results.len() <= swept(b, start, order, n).results.len(),
        ({
            let results = swept(b, start, order, n).results;
            let g = results[i].guess as int;
            let all = play::all_columns(b);
            start.results.len() <= i < results.len() && 0 <= p < 242 && 2 <= b.bucket(
                g,
                all,
                p,
            ).len() <= 160 ==> after_sweep(b, m, start, order, n).beyond.contains_key(
                b.bucket(g, all, p),
            )
        }),
    decreases n,
{
    memory::lemma_extends_itself(m);
    if n > 0 {
        let k = (n - 1) as nat;
        let all = play::all_columns(b);
        let before = after_sweep(b, m, start, order, k);
        let now = after_sweep(b, m, start, order, n);
        let w = swept(b, start, order, k);
        let results = swept(b, start, order, n).results;
        let sub = b.bucket(results[i].guess as int, all, p);
        let g = order[k as int].guess;
        let bound = solver::amount(bar(w.results));
        lemma_sweep_remembers(b, m, start, order, k, i, p);
        if !(w.settled(b) || start.has(g) || w.count >= MAX_SWEEP) {
            memory::lemma_guess_extends(b, before, g as int, all, bound);
            memory::lemma_extends_twice(m, before, now);
            if start.results.len() <= i < results.len() && 0 <= p < 242 && 2 <= sub.len() <= 160 {
                if i < w.results.len() {
                    assert(results[i] == w.results[i]);
                    assert(before.beyond.dom().contains(sub));
                } else {
                    assert(results[i].guess == g);
                    optimal::lemma_bucket(b, g as int, all, p);
                    lemma_not_all_green(b, g as int, p);
                    memory::law_guess_remembers(b, before, g as int, all, bound, p);
                }
            }
        }
    }
}

/// A guess that leaves candidates after another pattern does not solve all.
proof fn lemma_not_all_green(b: Board, g: int, p: int)
    requires
        0 <= p < 242,
        b.bucket(g, play::all_columns(b), p).len() > 0,
    ensures
        b.part(g, play::all_columns(b), GREEN as int).len() != play::all_columns(b).len(),
{
    let all = play::all_columns(b);
    let sub = b.bucket(g, all, p);
    optimal::lemma_bucket(b, g, all, p);
    assert(all.contains(sub[0]));
    let i = choose|i: int| 0 <= i < all.len() && all[i] == sub[0];
    optimal::lemma_filter_misses(all, parts::labelled(b.label(g), GREEN as int), i);
}

/// What the search for openings remembers: nothing at the root, and all that an opening with a
/// bounded cost leaves. Nothing is forgotten.
pub proof fn law_openings_remember(b: Board, m: Store, i: int, p: int)
    requires
        b.valid(),
        b.answers.len() >= 1,
        0 <= i < opening_search(b).results.len(),
        b.cost(opening_search(b).results[i].guess as int, play::all_columns(b)) is Some,
        0 <= p < 242,
        2 <= b.bucket(
            opening_search(b).results[i].guess as int,
            play::all_columns(b),
            p,
        ).len() <= 160,
    ensures
        after_openings(b, m).root == m.root,
        m.beyond.submap_of(after_openings(b, m).beyond),
        m.count <= after_openings(b, m).count,
        after_openings(b, m).beyond.contains_key(
            b.bucket(opening_search(b).results[i].guess as int, play::all_columns(b), p),
        ),
{
    let start = opening_start(b);
    let order = opening_order(b);
    let first = after_seeds(b, m, strong_openers(), strong_openers().len());
    let sub = b.bucket(opening_search(b).results[i].guess as int, play::all_columns(b), p);
    lemma_seeds_remember(b, m, strong_openers().len(), i, p);
    lemma_sweep_remembers(b, first, start, order, order.len(), i, p);
    memory::lemma_extends_twice(m, first, after_openings(b, m));
    if i < start.results.len() {
        lemma_swept_prefix(b, start, order, order.len(), i);
        assert(first.beyond.dom().contains(sub));
    }
}

proof fn lemma_swept_prefix(b: Board, start: Sweep, order: Seq<Rated>, n: nat, i: int)
    requires
        0 <= i < start.results.len(),
    ensures
        i < swept(b, start, order, n).results.len(),
        swept(b, start, order, n).results[i] == start.results[i],
    decreases n,
{
    if n > 0 {
        lemma_swept_prefix(b, start, order, (n - 1) as nat, i);
    }
}

/// The strong openers by name, in their order, and the opener that is played.
pub proof fn law_openers_by_name()
    ensures
        strong_openers().map_values(|w: Word| text::as_chars(w@)) == seq![
            "alert"@,
            "soare"@,
            "raise"@,
            "crane"@,
            "trace"@,
            "crate"@,
            "slate"@,
        ],
        text::as_chars(OPENER@) == "alert"@,
{
    reveal_strlit("alert");
    reveal_strlit("soare");
    reveal_strlit("raise");
    reveal_strlit("crane");
    reveal_strlit("trace");
    reveal_strlit("crate");
    reveal_strlit("slate");
    let s = strong_openers();
    assert(text::as_chars(s[0]@) =~= "alert"@);
    assert(text::as_chars(s[1]@) =~= "soare"@);
    assert(text::as_chars(s[2]@) =~= "raise"@);
    assert(text::as_chars(s[3]@) =~= "crane"@);
    assert(text::as_chars(s[4]@) =~= "trace"@);
    assert(text::as_chars(s[5]@) =~= "crate"@);
    assert(text::as_chars(s[6]@) =~= "slate"@);
    assert(text::as_chars(OPENER@) =~= "alert"@);
}

} // verus!
