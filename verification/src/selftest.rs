//! Playing the recommended guesses against every answer.

use vstd::prelude::*;
use crate::admissible;
use crate::board::Board;
use crate::memory;
use crate::memory::Store;
use crate::optimal;
use crate::parts;
use crate::play;
use crate::play::{every_column, keep};
use crate::solver;
use crate::solver::Solver;
use crate::sort;
use crate::words;
use crate::words::GREEN;

verus! {

/// A game is given up when it has not ended after this many guesses.
pub const MAX_TURNS: usize = 10;

/// A game of more guesses than this is lost.
pub const ALLOWED: usize = 6;

/// The number of the guess that finds the answer `target`, from the guess numbered `turn` on with
/// the candidates `s`; one more than the last guess if the game is given up.
pub open spec fn turns(b: Board, opener: u32, target: u32, s: Seq<u32>, turn: int) -> int
    decreases 11 - turn,
{
    let g = play::pick(b, opener, s, turn) as int;
    let fb = b.pattern(g, target as int);
    if fb == GREEN {
        turn
    } else if turn + 1 > MAX_TURNS {
        turn + 1
    } else {
        turns(b, opener, target, b.part(g, s, fb), turn + 1)
    }
}

/// The number of guesses for an answer, from the start.
pub open spec fn game(b: Board, opener: u32, target: u32) -> int {
    turns(b, opener, target, play::all_columns(b), 1)
}

/// What is remembered after the guesses for an answer, from the guess numbered `turn` on.
pub open spec fn after_turns(
    b: Board,
    opener: u32,
    target: u32,
    s: Seq<u32>,
    turn: int,
    m: Store,
) -> Store
    decreases 11 - turn,
{
    let g = play::pick(b, opener, s, turn) as int;
    let fb = b.pattern(g, target as int);
    let found = play::after_pick(b, m, s, turn);
    if fb == GREEN || turn + 1 > MAX_TURNS {
        found
    } else {
        after_turns(b, opener, target, b.part(g, s, fb), turn + 1, found)
    }
}

/// What is remembered after the games for the first `n` answers.
pub open spec fn after_games(b: Board, opener: u32, m: Store, n: nat) -> Store
    decreases n,
{
    if n == 0 {
        m
    } else {
        after_turns(
            b,
            opener,
            (n - 1) as u32,
            play::all_columns(b),
            1,
            after_games(b, opener, m, (n - 1) as nat),
        )
    }
}

/// How many of the first `n` answers take `k` guesses.
pub open spec fn taking(b: Board, opener: u32, k: int, n: nat) -> nat
    decreases n,
{
    if n == 0 {
        0
    } else {
        taking(b, opener, k, (n - 1) as nat) + if game(b, opener, (n - 1) as u32) == k {
            1nat
        } else {
            0nat
        }
    }
}

/// How many of the first `n` answers are lost.
pub open spec fn lost(b: Board, opener: u32, n: nat) -> nat
    decreases n,
{
    if n == 0 {
        0
    } else {
        lost(b, opener, (n - 1) as nat) + if game(b, opener, (n - 1) as u32) > ALLOWED {
            1nat
        } else {
            0nat
        }
    }
}

/// The guesses of the first `n` games together.
pub open spec fn guesses_sum(b: Board, opener: u32, n: nat) -> int
    decreases n,
{
    if n == 0 {
        0
    } else {
        guesses_sum(b, opener, (n - 1) as nat) + game(b, opener, (n - 1) as u32)
    }
}

/// The guesses of the first `n` games, each times the weight of its answer.
pub open spec fn weighted_sum(b: Board, opener: u32, n: nat) -> int
    decreases n,
{
    if n == 0 {
        0
    } else {
        weighted_sum(b, opener, (n - 1) as nat) + b.weights[n - 1] * game(
            b,
            opener,
            (n - 1) as u32,
        )
    }
}

/// The largest number of guesses of the first `n` games.
pub open spec fn longest(b: Board, opener: u32, n: nat) -> int
    decreases n,
{
    if n == 0 {
        0
    } else {
        let before = longest(b, opener, (n - 1) as nat);
        let t = game(b, opener, (n - 1) as u32);
        if t > before {
            t
        } else {
            before
        }
    }
}

/// What came of the games: how many took each number of guesses, the sum of guesses, plain and
/// weighted, the sum of weights, the longest game, and the games lost.
pub struct SelfTest {
    pub dist: [u32; 12],
    pub total: u64,
    pub wtotal: u128,
    pub wsum: u128,
    pub worst: usize,
    pub fails: u32,
}

/// Plays the game for one answer, and returns its number of guesses.
pub fn play_game(solver: &mut Solver, opener: u32, target: u32) -> (r: usize)
    requires
        old(solver).wf(),
        old(solver)@.legal(opener as int),
        target < old(solver)@.answers.len(),
    ensures
        final(solver).wf(),
        final(solver)@ == old(solver)@,
        solver::keeps(*old(solver), *final(solver)),
        final(solver).store() == after_turns(
            old(solver)@,
            opener,
            target,
            play::all_columns(old(solver)@),
            1,
            old(solver).store(),
        ),
        r == game(old(solver)@, opener, target),
        1 <= r <= 11,
{
    let ghost b = solver@;
    proof {
        solver::lemma_keeps_same(*solver);
    }
    let mut candidates = every_column(solver);
    assert(candidates@[target as int] == target);
    let mut turn: usize = 1;
    let ghost end = after_turns(b, opener, target, candidates@, 1, solver.store());
    loop
        invariant
            solver.wf(),
            solver@ == b,
            b == old(solver)@,
            solver::keeps(*old(solver), *solver),
            b.legal(opener as int),
            target < b.answers.len(),
            1 <= turn <= 10,
            b.columns(candidates@),
            candidates@.len() <= b.answers.len(),
            candidates@.contains(target),
            game(b, opener, target) == turns(b, opener, target, candidates@, turn as int),
            end == after_turns(b, opener, target, candidates@, turn as int, solver.store()),
            end == after_turns(
                b,
                opener,
                target,
                play::all_columns(b),
                1,
                old(solver).store(),
            ),
        decreases 11 - turn,
    {
        let s = candidates.as_slice();
        proof {
            play::lemma_best_legal(b, s@);
        }
        let g: u32 = if turn == 1 {
            opener
        } else if candidates.len() == 1 {
            solver.home(candidates[0])
        } else {
            let ghost before = *solver;
            let found = solver.solve(s, 0);
            proof {
                solver::lemma_keeps_twice(*old(solver), before, *solver);
            }
            found.1
        };
        let fb = solver.pat(g, target);
        if fb == GREEN {
            return turn;
        }
        let kept = keep(solver, g, &candidates, fb);
        proof {
            let f = parts::labelled(b.label(g as int), fb as int);
            optimal::lemma_filter_members(candidates@, f);
            candidates@.lemma_filter_len(f);
            assert(kept@.contains(target));
            assert forall|i: int| 0 <= i < kept@.len() implies #[trigger] kept@[i]
                < b.answers.len() by {
                assert(kept@.contains(kept@[i]));
                assert(candidates@.contains(kept@[i]));
            }
        }
        candidates = kept;
        turn = turn + 1;
        if turn > MAX_TURNS {
            return turn;
        }
    }
}

/// Plays the game for every answer.
pub fn run_selftest(solver: &mut Solver, opener: u32) -> (r: SelfTest)
    requires
        old(solver).wf(),
        old(solver)@.legal(opener as int),
    ensures
        final(solver).wf(),
        final(solver)@ == old(solver)@,
        solver::keeps(*old(solver), *final(solver)),
        final(solver).store() == after_games(
            old(solver)@,
            opener,
            old(solver).store(),
            old(solver)@.answers.len(),
        ),
        ({
            let b = old(solver)@;
            let n = b.answers.len();
            &&& forall|k: int| 0 <= k < 12 ==> #[trigger] r.dist@[k] == taking(b, opener, k, n)
            &&& r.total == guesses_sum(b, opener, n)
            &&& r.wtotal == weighted_sum(b, opener, n)
            &&& r.wsum == b.wsum(play::all_columns(b))
            &&& r.worst == longest(b, opener, n)
            &&& r.fails == lost(b, opener, n)
        }),
{
    let ghost b = solver@;
    let a = solver.answer_count();
    let all = every_column(solver);
    let wsum = solver.wsum(all.as_slice());
    let mut dist: [u32; 12] = [0u32; 12];
    let mut total: u64 = 0;
    let mut wtotal: u128 = 0;
    let mut worst: usize = 0;
    let mut fails: u32 = 0;
    let mut t: usize = 0;
    proof {
        solver::lemma_keeps_same(*solver);
    }
    while t < a
        invariant
            solver.wf(),
            solver@ == b,
            solver::keeps(*old(solver), *solver),
            solver.store() == after_games(b, opener, old(solver).store(), t as nat),
            b.legal(opener as int),
            a == b.answers.len(),
            a <= u32::MAX,
            t <= a,
            forall|k: int|
                0 <= k < 12 ==> #[trigger] dist@[k] == taking(b, opener, k, t as nat) && dist@[k]
                    <= t,
            total == guesses_sum(b, opener, t as nat),
            total <= 11 * t,
            wtotal == weighted_sum(b, opener, t as nat),
            wtotal <= 11 * u64::MAX * t,
            worst == longest(b, opener, t as nat),
            fails == lost(b, opener, t as nat),
            fails <= t,
        decreases a - t,
    {
        let ghost before = *solver;
        let turn = play_game(solver, opener, t as u32);
        let wt: u64 = solver.weight(t as u32);
        proof {
            solver::lemma_keeps_twice(*old(solver), before, *solver);
            assert(wt * turn <= 11 * u64::MAX) by (nonlinear_arith)
                requires
                    0 <= wt <= u64::MAX,
                    0 <= turn <= 11,
            ;
            assert(0 <= wt * turn) by (nonlinear_arith)
                requires
                    0 <= wt,
                    0 <= turn,
            ;
            assert forall|k: int| 0 <= k < 12 implies #[trigger] taking(
                b,
                opener,
                k,
                (t + 1) as nat,
            ) == taking(b, opener, k, t as nat) + if turn == k {
                1int
            } else {
                0int
            } by {}
        }
        total = total + turn as u64;
        wtotal = wtotal + wt as u128 * turn as u128;
        if turn > worst {
            worst = turn;
        }
        assert(dist@[turn as int] <= t);
        dist[turn] = dist[turn] + 1;
        if turn > ALLOWED {
            fails = fails + 1;
        }
        t = t + 1;
    }
    SelfTest { dist, total, wtotal, wsum, worst, fails }
}

/// The distribution counts every game once.
pub proof fn law_distribution(b: Board, opener: u32, n: nat)
    ensures
        taking(b, opener, 1, n) + taking(b, opener, 2, n) + taking(b, opener, 3, n) + taking(
            b,
            opener,
            4,
            n,
        ) + taking(b, opener, 5, n) + taking(b, opener, 6, n) + taking(b, opener, 7, n) + taking(
            b,
            opener,
            8,
            n,
        ) + taking(b, opener, 9, n) + taking(b, opener, 10, n) + taking(b, opener, 11, n) == n,
        lost(b, opener, n) == taking(b, opener, 7, n) + taking(b, opener, 8, n) + taking(
            b,
            opener,
            9,
            n,
        ) + taking(b, opener, 10, n) + taking(b, opener, 11, n),
    decreases n,
{
    if n > 0 {
        law_distribution(b, opener, (n - 1) as nat);
        lemma_turns_range(b, opener, (n - 1) as u32, play::all_columns(b), 1);
    }
}

proof fn lemma_turns_range(b: Board, opener: u32, target: u32, s: Seq<u32>, turn: int)
    requires
        1 <= turn <= 10,
    ensures
        turn <= turns(b, opener, target, s, turn) <= 11,
    decreases 11 - turn,
{
    let g = play::pick(b, opener, s, turn) as int;
    let fb = b.pattern(g, target as int);
    if fb != GREEN && turn + 1 <= MAX_TURNS {
        lemma_turns_range(b, opener, target, b.part(g, s, fb), turn + 1);
    }
}

/// The weight of an answer times the number of its last guess.
spec fn share(b: Board, opener: u32, s: Seq<u32>, turn: int) -> spec_fn(u32) -> int {
    |c: u32| b.weights[c as int] * turns(b, opener, c, s, turn)
}

/// Play from the guess numbered `turn` on costs no more than what the search expects.
proof fn lemma_games(b: Board, opener: u32, s: Seq<u32>, turn: int)
    requires
        b.valid(),
        b.legal(opener as int),
        b.columns(s),
        b.distinct(s),
        sort::ascending(s),
        s.len() >= 1,
        1 <= turn <= MAX_TURNS,
    ensures
        turn == 1 ==> (b.cost(opener as int, s) matches Some(x) ==> parts::sum_over(
            share(b, opener, s, turn),
            s,
        ) <= x),
        turn > 1 ==> (b.best(s, true).0 matches Some(x) ==> parts::sum_over(
            share(b, opener, s, turn),
            s,
        ) <= x + b.wsum(s) * (turn - 1)),
    decreases 11 - turn, 1nat, 0nat,
{
    let w = b.wsum(s) as int;
    let g = play::pick(b, opener, s, turn);
    if turn > 1 && s.len() == 1 {
        let c = s[0];
        optimal::lemma_home(b, c);
        words::lemma_pattern(b.guesses[g as int]@, b.answers[c as int]@);
        assert(turns(b, opener, c, s, turn) == turn);
        parts::lemma_sum_weights(share(b, opener, s, turn), b.weights, s, turn);
        assert(w * turn == w + w * (turn - 1)) by (nonlinear_arith);
    } else {
        let expected = if turn == 1 {
            b.cost(opener as int, s)
        } else {
            admissible::law_best_is_optimal(b, s, true);
            b.best(s, true).0
        };
        play::lemma_best_legal(b, s);
        if expected is Some {
            assert(b.cost(g as int, s) == expected);
            let h = share(b, opener, s, turn);
            let f = b.label(g as int);
            lemma_round(b, opener, s, turn, g, 243);
            assert forall|i: int| 0 <= i < s.len() implies 0 <= f(#[trigger] s[i]) < 243 by {
                words::lemma_pattern(b.guesses[g as int]@, b.answers[s[i] as int]@);
            }
            parts::lemma_parts_sum(h, s, f, 243);
            parts::lemma_parts(b.weights, s, f, 243);
            assert(w * turn == w + w * (turn - 1)) by (nonlinear_arith);
        }
    }
}

/// One guess: what its patterns leave costs no more than the search expects of the rest.
proof fn lemma_round(b: Board, opener: u32, s: Seq<u32>, turn: int, g: u32, n: nat)
    requires
        b.valid(),
        b.legal(opener as int),
        b.columns(s),
        b.distinct(s),
        sort::ascending(s),
        s.len() >= 1,
        1 <= turn <= MAX_TURNS,
        g == play::pick(b, opener, s, turn),
        n <= 243,
    ensures
        b.rest(g as int, s, n) matches Some(y) ==> parts::parts_sum(
            share(b, opener, s, turn),
            s,
            b.label(g as int),
            n,
        ) <= y + parts::parts_total(b.weights, s, b.label(g as int), n) * turn,
    decreases 11 - turn, 0nat, n,
{
    let h = share(b, opener, s, turn);
    let f = b.label(g as int);
    if n > 0 && b.rest(g as int, s, n) is Some {
        let m = (n - 1) as nat;
        let p = n - 1;
        lemma_round(b, opener, s, turn, g, m);
        sort::lemma_sorted_unique(s, s);
        let part = b.part(g as int, s, p);
        assert(b.bucket(g as int, s, p) == part);
        optimal::lemma_bucket(b, g as int, s, p);
        let total = parts::parts_total(b.weights, s, f, m) as int;
        let w = b.wsum(part) as int;
        assert((total + w) * turn == total * turn + w * turn) by (nonlinear_arith);
        assert forall|i: int| 0 <= i < part.len() implies b.pattern(
            g as int,
            #[trigger] part[i] as int,
        ) == p by {
            assert(b.bucket(g as int, s, p)[i] == part[i]);
        }
        if p == GREEN {
            parts::lemma_sum_weights(h, b.weights, part, turn);
        } else if part.len() == 0 {
            assert(w * turn == 0) by (nonlinear_arith)
                requires
                    w == 0,
            ;
        } else {
            admissible::lemma_distinct_bucket(b, g as int, s, p);
            let x = b.best(part, false).0;
            assert(x is Some);
            if turn == MAX_TURNS {
                parts::lemma_sum_weights(h, b.weights, part, turn + 1);
                admissible::lemma_best_tails(b, part, false, 0);
                assert(w * (turn + 1) == w * turn + w) by (nonlinear_arith);
            } else {
                let k = share(b, opener, part, turn + 1);
                parts::lemma_sum_same(h, k, part);
                lemma_games(b, opener, part, turn + 1);
                admissible::law_full_search_no_worse(b, part);
            }
        }
    }
}

proof fn lemma_weighted_sum(b: Board, opener: u32, n: nat)
    requires
        n <= b.answers.len() <= u32::MAX,
    ensures
        weighted_sum(b, opener, n) == parts::sum_over(
            share(b, opener, play::all_columns(b), 1),
            play::all_columns(b).take(n as int),
        ),
    decreases n,
{
    let all = play::all_columns(b);
    if n > 0 {
        lemma_weighted_sum(b, opener, (n - 1) as nat);
        assert(all.take(n as int).drop_last() =~= all.take(n - 1));
    }
}

/// The games go no worse than expected: the guesses they take, weighted, come to no more than the
/// cost that the search gives the opener. They can go better, since every guess is chosen anew
/// among all legal ones.
pub proof fn law_expectation_met(b: Board, opener: u32)
    requires
        b.valid(),
        b.legal(opener as int),
        b.answers.len() >= 1,
        b.distinct(play::all_columns(b)),
    ensures
        b.cost(opener as int, play::all_columns(b)) matches Some(x) ==> weighted_sum(
            b,
            opener,
            b.answers.len(),
        ) <= x,
{
    let all = play::all_columns(b);
    assert(all.take(all.len() as int) =~= all);
    lemma_weighted_sum(b, opener, b.answers.len());
    lemma_games(b, opener, all, 1);
}

/// The worst case is the longest game: no game takes more guesses and, if there are answers, some
/// game takes exactly as many. So no game is counted above it, and some game is counted at it.
pub proof fn law_worst(b: Board, opener: u32, n: nat)
    requires
        n <= b.answers.len() <= u32::MAX,
    ensures
        forall|c: u32| c < n ==> #[trigger] game(b, opener, c) <= longest(b, opener, n),
        n > 0 ==> exists|c: u32| c < n && #[trigger] game(b, opener, c) == longest(b, opener, n),
        n == 0 ==> longest(b, opener, n) == 0,
        forall|k: int| k > longest(b, opener, n) ==> #[trigger] taking(b, opener, k, n) == 0,
        n > 0 ==> taking(b, opener, longest(b, opener, n), n) > 0,
    decreases n,
{
    if n > 0 {
        let m = (n - 1) as nat;
        law_worst(b, opener, m);
        let last = m as u32;
        lemma_turns_range(b, opener, last, play::all_columns(b), 1);
        assert forall|c: u32| c < n implies #[trigger] game(b, opener, c) <= longest(
            b,
            opener,
            n,
        ) by {
            if c < m {
                assert(game(b, opener, c) <= longest(b, opener, m));
            }
        }
        if longest(b, opener, n) == game(b, opener, last) {
            assert(game(b, opener, last) == longest(b, opener, n));
        } else {
            let c = choose|c: u32| c < m && #[trigger] game(b, opener, c) == longest(b, opener, m);
            assert(game(b, opener, c) == longest(b, opener, n));
        }
        assert forall|k: int| k > longest(b, opener, n) implies #[trigger] taking(
            b,
            opener,
            k,
            n,
        ) == 0 by {
            assert(taking(b, opener, k, m) == 0);
        }
    }
}

/// What the numbers of a self-test count: the games of each length, and those of more than six
/// guesses, among the answers; and what they add up, game by game.
pub proof fn law_tallies(b: Board, opener: u32, k: int, n: nat)
    requires
        n <= b.answers.len() <= u32::MAX,
    ensures
        taking(b, opener, k, n) == Seq::new(n, |c: int| c as u32).filter(
            |c: u32| game(b, opener, c) == k,
        ).len(),
        lost(b, opener, n) == Seq::new(n, |c: int| c as u32).filter(
            |c: u32| game(b, opener, c) > 6,
        ).len(),
        guesses_sum(b, opener, n) == Seq::new(n, |c: int| game(b, opener, c as u32)).fold_left(
            0int,
            |a: int, x: int| a + x,
        ),
        weighted_sum(b, opener, n) == Seq::new(
            n,
            |c: int| b.weights[c] * game(b, opener, c as u32),
        ).fold_left(0int, |a: int, x: int| a + x),
    decreases n,
{
    reveal(Seq::filter);
    let add = |a: int, x: int| a + x;
    let cols = Seq::new(n, |c: int| c as u32);
    let games = Seq::new(n, |c: int| game(b, opener, c as u32));
    let shares = Seq::new(n, |c: int| b.weights[c] * game(b, opener, c as u32));
    if n > 0 {
        let m = (n - 1) as nat;
        law_tallies(b, opener, k, m);
        assert(cols.drop_last() =~= Seq::new(m, |c: int| c as u32));
        assert(games.drop_last() =~= Seq::new(m, |c: int| game(b, opener, c as u32)));
        assert(shares.drop_last() =~= Seq::new(
            m,
            |c: int| b.weights[c] * game(b, opener, c as u32),
        ));
        assert(cols.last() == m as u32);
    }
}

/// The columns that would have shown the same patterns as the answer `target` for some guesses.
pub open spec fn alike(b: Board, target: u32, guesses: Seq<u32>) -> spec_fn(u32) -> bool {
    |c: u32|
        forall|j: int|
            0 <= j < guesses.len() ==> words::pattern(
                b.guesses[#[trigger] guesses[j] as int]@,
                b.answers[c as int]@,
            ) == words::pattern(b.guesses[guesses[j] as int]@, b.answers[target as int]@)
}

/// A game as it is played: there is a row of guesses, the first the opener and each the one that is
/// proposed for the answers that fit all patterns before it. The guess that shows five greens is
/// the last one and its number is that of the game; if none of ten does, the number is eleven.
pub proof fn law_game_path(b: Board, opener: u32, target: u32) -> (guesses: Seq<u32>)
    ensures
        1 <= game(b, opener, target) <= 11,
        guesses.len() == if game(b, opener, target) <= 10 {
            game(b, opener, target)
        } else {
            10
        },
        forall|i: int|
            0 <= i < guesses.len() ==> #[trigger] guesses[i] == play::pick(
                b,
                opener,
                play::all_columns(b).filter(alike(b, target, guesses.take(i))),
                i + 1,
            ),
        forall|i: int|
            0 <= i < guesses.len() ==> (words::pattern(
                b.guesses[#[trigger] guesses[i] as int]@,
                b.answers[target as int]@,
            ) == 242 <==> i + 1 == game(b, opener, target)),
{
    let all = play::all_columns(b);
    optimal::lemma_filter_all(all, alike(b, target, Seq::empty()));
    lemma_path(b, opener, target, all, 1, Seq::empty())
}

proof fn lemma_path(
    b: Board,
    opener: u32,
    target: u32,
    s: Seq<u32>,
    turn: int,
    before: Seq<u32>,
) -> (guesses: Seq<u32>)
    requires
        1 <= turn <= 10,
        before.len() == turn - 1,
        s == play::all_columns(b).filter(alike(b, target, before)),
    ensures
        turn <= turns(b, opener, target, s, turn) <= 11,
        guesses.len() == if turns(b, opener, target, s, turn) <= 10 {
            turns(b, opener, target, s, turn)
        } else {
            10
        },
        guesses.take(turn - 1) == before,
        forall|i: int|
            turn - 1 <= i < guesses.len() ==> #[trigger] guesses[i] == play::pick(
                b,
                opener,
                play::all_columns(b).filter(alike(b, target, guesses.take(i))),
                i + 1,
            ),
        forall|i: int|
            turn - 1 <= i < guesses.len() ==> (words::pattern(
                b.guesses[#[trigger] guesses[i] as int]@,
                b.answers[target as int]@,
            ) == 242 <==> i + 1 == turns(b, opener, target, s, turn)),
    decreases 11 - turn,
{
    let all = play::all_columns(b);
    let g = play::pick(b, opener, s, turn);
    let fb = b.pattern(g as int, target as int);
    let now = before.push(g);
    assert(now.take(turn - 1) =~= before);
    if fb == GREEN || turn + 1 > MAX_TURNS {
        now
    } else {
        let f = alike(b, target, before);
        let p = parts::labelled(b.label(g as int), fb);
        let h = alike(b, target, now);
        assert forall|c: u32| #[trigger] h(c) <==> f(c) && p(c) by {
            assert(now[turn - 1] == g);
            if h(c) {
                assert forall|j: int| 0 <= j < before.len() implies words::pattern(
                    b.guesses[#[trigger] before[j] as int]@,
                    b.answers[c as int]@,
                ) == words::pattern(
                    b.guesses[before[j] as int]@,
                    b.answers[target as int]@,
                ) by {
                    assert(now[j] == before[j]);
                }
            }
            if f(c) && p(c) {
                assert forall|j: int| 0 <= j < now.len() implies words::pattern(
                    b.guesses[#[trigger] now[j] as int]@,
                    b.answers[c as int]@,
                ) == words::pattern(b.guesses[now[j] as int]@, b.answers[target as int]@) by {
                    if j < before.len() {
                        assert(now[j] == before[j]);
                    }
                }
            }
        }
        play::lemma_filter_both(all, f, p, h);
        let r = lemma_path(b, opener, target, b.part(g as int, s, fb), turn + 1, now);
        assert(r.take(turn - 1) =~= r.take(turn).take(turn - 1));
        assert(r[turn - 1] == r.take(turn)[turn - 1]);
        r
    }
}

proof fn lemma_turns_extend(
    b: Board,
    opener: u32,
    target: u32,
    s: Seq<u32>,
    turn: int,
    m: Store,
)
    ensures
        memory::extends(m, after_turns(b, opener, target, s, turn, m)),
        turn > 1 && s.len() > 1 ==> after_turns(
            b,
            opener,
            target,
            s,
            turn,
            m,
        ).root.contains_key(s),
    decreases 11 - turn,
{
    let g = play::pick(b, opener, s, turn) as int;
    let fb = b.pattern(g, target as int);
    let found = play::after_pick(b, m, s, turn);
    let n = after_turns(b, opener, target, s, turn, m);
    memory::lemma_extends_itself(m);
    memory::lemma_extends_itself(found);
    memory::lemma_search_extends(b, m, s);
    if !(fb == GREEN || turn + 1 > MAX_TURNS) {
        lemma_turns_extend(b, opener, target, b.part(g, s, fb), turn + 1, found);
    }
    memory::lemma_extends_twice(m, found, n);
    if turn > 1 && s.len() > 1 {
        assert(found.root.dom().contains(s));
        assert(n.root.dom().contains(s));
    }
}

/// What the games remember: every set of two or more candidates that is left after the first guess
/// of a game which goes on. What was remembered before stays so.
pub proof fn law_games_remember(b: Board, opener: u32, m: Store, n: nat, t: u32)
    requires
        t < n,
        b.pattern(opener as int, t as int) != 242,
        b.part(
            opener as int,
            play::all_columns(b),
            b.pattern(opener as int, t as int),
        ).len() >= 2,
    ensures
        after_games(b, opener, m, n).root.contains_key(
            b.part(opener as int, play::all_columns(b), b.pattern(opener as int, t as int)),
        ),
    decreases n,
{
    let all = play::all_columns(b);
    let p = b.pattern(opener as int, t as int);
    let s = b.part(opener as int, all, p);
    let before = after_games(b, opener, m, (n - 1) as nat);
    if t == n - 1 {
        lemma_turns_extend(b, opener, t, s, 2, before);
        assert(after_games(b, opener, m, n) == after_turns(b, opener, t, all, 1, before));
        assert(play::pick(b, opener, all, 1) == opener);
        assert(play::after_pick(b, before, all, 1) == before);
    } else {
        law_games_remember(b, opener, m, (n - 1) as nat, t);
        lemma_turns_extend(b, opener, (n - 1) as u32, all, 1, before);
        assert(before.root.dom().contains(s));
    }
}

/// No game forgets anything, and one that its first guess wins remembers nothing new.
pub proof fn law_games_keep(b: Board, opener: u32, m: Store, n: nat)
    requires
        n <= u32::MAX,
    ensures
        m.root.submap_of(after_games(b, opener, m, n).root),
        m.beyond.submap_of(after_games(b, opener, m, n).beyond),
        m.count <= after_games(b, opener, m, n).count,
        n >= 1 && b.pattern(opener as int, n - 1) == 242 ==> after_games(b, opener, m, n)
            == after_games(b, opener, m, (n - 1) as nat),
    decreases n,
{
    memory::lemma_extends_itself(m);
    if n > 0 {
        let before = after_games(b, opener, m, (n - 1) as nat);
        let all = play::all_columns(b);
        law_games_keep(b, opener, m, (n - 1) as nat);
        lemma_turns_extend(b, opener, (n - 1) as u32, all, 1, before);
        memory::lemma_extends_twice(m, before, after_games(b, opener, m, n));
        assert(play::pick(b, opener, all, 1) == opener);
        assert(play::after_pick(b, before, all, 1) == before);
    }
}

} // verus!
