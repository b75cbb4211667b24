//! Playing: what to guess, and which candidates a pattern leaves.

use vstd::prelude::*;
use vstd::utf8::*;
use crate::admissible;
use crate::board::Board;
use crate::input;
use crate::input::{parse_input, Parsed, Reading};
use crate::memory;
use crate::memory::Store;
use crate::optimal;
use crate::parts;
use crate::solver;
use crate::solver::Solver;
use crate::words;
use crate::words::{feedback, Word, GREEN};

verus! {

/// Every column of a board.
pub open spec fn all_columns(b: Board) -> Seq<u32> {
    Seq::new(b.answers.len(), |i: int| i as u32)
}

/// The columns, of a list, whose answers show a pattern after a word is guessed.
pub open spec fn consistent(b: Board, s: Seq<u32>, guess: Seq<u8>, fb: int) -> Seq<u32> {
    s.filter(|c: u32| words::pattern(guess, b.answers[c as int]@) == fb)
}

/// Whether a word can be scored against every answer.
pub open spec fn playable(b: Board, guess: Seq<u8>) -> bool {
    forall|c: int|
        0 <= c < b.answers.len() ==> words::scorable(guess, #[trigger] b.answers[c]@)
}

/// Lists every column.
pub fn every_column(solver: &Solver) -> (r: Vec<u32>)
    requires
        solver.wf(),
    ensures
        r@ == all_columns(solver@),
        solver@.columns(r@),
        r@.len() == solver@.answers.len(),
{
    let n = solver.answer_count();
    let mut r: Vec<u32> = Vec::with_capacity(n);
    let mut i: usize = 0;
    while i < n
        invariant
            solver.wf(),
            n == solver@.answers.len(),
            i <= n,
            r@ == all_columns(solver@).take(i as int),
        decreases n - i,
    {
        r.push(i as u32);
        assert(all_columns(solver@).take(i + 1) =~= r@);
        i = i + 1;
    }
    assert(all_columns(solver@).take(i as int) =~= all_columns(solver@));
    r
}

/// Why a guess is proposed.
pub enum Note {
    /// It is the opener.
    Opener,
    /// It is the only word left.
    OnlyWord,
    /// It is the best guess: the cost over the weight is the expected number of guesses. It may
    /// be a possible answer, or a probe.
    Best { cost: Option<u128>, weight: u128, is_answer: bool },
}

/// What comes of a pattern.
pub enum Outcome {
    /// The word was found with this many guesses.
    Solved(usize),
    /// No candidate shows the pattern.
    NoneLeft,
    /// Play goes on.
    Next,
}

/// What comes of a line of input.
pub enum Reply {
    /// The line has no meaning.
    Unclear,
    /// The player stops.
    Quit,
    /// A guess and its pattern were taken note of.
    Played(Outcome),
}

/// A game in progress: the candidates that are left, and the number of the guess to come.
pub struct Session {
    candidates: Vec<u32>,
    turn: usize,
}

/// The guess to play: the opener first, then the only word left, or the best guess.
pub open spec fn pick(b: Board, opener: u32, s: Seq<u32>, turn: int) -> u32 {
    if turn == 1 {
        opener
    } else if s.len() == 1 {
        b.home(s[0])
    } else {
        b.best(s, true).1
    }
}

/// What is remembered after the guess to play has been found: only the best guess is searched for.
pub open spec fn after_pick(b: Board, m: Store, s: Seq<u32>, turn: int) -> Store {
    if turn == 1 || s.len() == 1 {
        m
    } else {
        memory::after_search(b, m, s, true)
    }
}

/// What taking note of a guess and its pattern does. Five greens end the game. Otherwise exactly
/// the candidates that show the pattern are kept, in their order; if there are none, the game
/// ends, and if there are some, the next guess comes.
pub open spec fn observed(
    b: Board,
    before: Session,
    guess: Word,
    fb: u8,
    r: Outcome,
    after: Session,
) -> bool {
    let kept = consistent(b, before.left(), guess@, fb as int);
    match r {
        Outcome::Solved(n) => fb == GREEN && n == before.guess_number() && after == before,
        Outcome::NoneLeft => {
            &&& fb != GREEN
            &&& kept.len() == 0
            &&& after.left() == kept
            &&& after.guess_number() == before.guess_number()
        },
        Outcome::Next => {
            &&& fb != GREEN
            &&& kept.len() >= 1
            &&& after.wf(b)
            &&& after.left() == kept
            &&& after.guess_number() == before.guess_number() + 1
        },
    }
}

/// What a line of input does, given how it reads: a line without a meaning, or one that asks to
/// stop, leaves the game as it is.
pub open spec fn replied(
    b: Board,
    before: Session,
    m: Option<Reading>,
    proposed: Word,
    r: Reply,
    after: Session,
) -> bool {
    match r {
        Reply::Unclear => m is None && after == before,
        Reply::Quit => m == Some(Reading::Quit) && after == before,
        Reply::Played(o) => exists|guess: Word, fb: u8|
            (m == Some(Reading::Pattern(fb as int)) && guess == proposed || m == Some(
                Reading::Both(guess@, fb as int),
            )) && #[trigger] observed(b, before, guess, fb, o, after),
    }
}

impl Session {
    /// The candidates that are left.
    pub closed spec fn left(self) -> Seq<u32> {
        self.candidates@
    }

    /// The number of the guess to come.
    pub closed spec fn guess_number(self) -> int {
        self.turn as int
    }

    /// The candidates are columns of the board, and there are some unless the game has only begun.
    pub open spec fn wf(self, b: Board) -> bool {
        &&& b.columns(self.left())
        &&& self.left().len() <= b.answers.len()
        &&& self.guess_number() >= 1
        &&& self.guess_number() > 1 ==> self.left().len() >= 1
    }

    /// A new game.
    pub fn new(solver: &Solver) -> (r: Session)
        requires
            solver.wf(),
        ensures
            r.wf(solver@),
            r.left() == all_columns(solver@),
            r.guess_number() == 1,
    {
        Session { candidates: every_column(solver), turn: 1 }
    }

    /// The candidates that are left.
    pub fn candidates(&self) -> (r: &Vec<u32>)
        ensures
            r@ == self.left(),
    {
        &self.candidates
    }

    /// The number of the guess to come.
    pub fn turn(&self) -> (r: usize)
        ensures
            r == self.guess_number(),
    {
        self.turn
    }

    /// The guess to play, and why.
    pub fn recommend(&self, solver: &mut Solver, opener: u32) -> (r: (u32, Note))
        requires
            old(solver).wf(),
            self.wf(old(solver)@),
            old(solver)@.legal(opener as int),
        ensures
            final(solver).wf(),
            final(solver)@ == old(solver)@,
            solver::keeps(*old(solver), *final(solver)),
            final(solver).store() == after_pick(
                old(solver)@,
                old(solver).store(),
                self.left(),
                self.guess_number(),
            ),
            r.0 == pick(old(solver)@, opener, self.left(), self.guess_number()),
            old(solver)@.legal(r.0 as int),
            self.guess_number() == 1 <==> r.1 is Opener,
            self.guess_number() > 1 && self.left().len() == 1 <==> r.1 is OnlyWord,
            r.1 matches Note::Best { cost, weight, is_answer } ==> {
                &&& solver::amount(cost) == old(solver)@.best(self.left(), true).0
                &&& weight == old(solver)@.wsum(self.left())
                &&& is_answer == (solver::column_of(
                    old(solver)@,
                    r.0 as int,
                    old(solver)@.answers.len(),
                ) is Some)
            },
    {
        let s = self.candidates.as_slice();
        proof {
            solver::lemma_keeps_same(*solver);
        }
        if self.turn == 1 {
            (opener, Note::Opener)
        } else if self.candidates.len() == 1 {
            (solver.home(self.candidates[0]), Note::OnlyWord)
        } else {
            let found = solver.solve(s, 0);
            proof {
                lemma_best_legal(solver@, s@);
            }
            let is_answer = match solver.column(found.1) {
                Some(_) => true,
                None => false,
            };
            (found.1, Note::Best { cost: found.0, weight: solver.wsum(s), is_answer })
        }
    }

    /// Takes note of a guess and the pattern that it showed.
    pub fn observe(&mut self, solver: &Solver, guess: &Word, fb: u8) -> (r: Outcome)
        requires
            solver.wf(),
            old(self).wf(solver@),
            playable(solver@, guess@),
            old(self).guess_number() < usize::MAX,
        ensures
            observed(solver@, *old(self), *guess, fb, r, *final(self)),
    {
        if fb == GREEN {
            return Outcome::Solved(self.turn);
        }
        let kept = narrow(solver, &self.candidates, guess, fb);
        proof {
            let f = |c: u32| words::pattern(guess@, solver@.answers[c as int]@) == fb;
            optimal::lemma_filter_members(self.candidates@, f);
            self.candidates@.lemma_filter_len(f);
            assert forall|i: int| 0 <= i < kept@.len() implies #[trigger] kept@[i]
                < solver@.answers.len() by {
                assert(kept@.contains(kept@[i]));
                assert(self.candidates@.contains(kept@[i]));
            }
        }
        self.candidates = kept;
        if self.candidates.len() == 0 {
            return Outcome::NoneLeft;
        }
        self.turn = self.turn + 1;
        Outcome::Next
    }
}

impl Session {
    /// Takes a line of input after `proposed` was proposed as the guess.
    pub fn answer(&mut self, solver: &Solver, line: &str, proposed: &Word) -> (r: Reply)
        requires
            solver.wf(),
            old(self).wf(solver@),
            playable(solver@, proposed@),
            forall|c: int|
                0 <= c < solver@.answers.len() ==> words::is_word(
                    (#[trigger] solver@.answers[c])@,
                ),
            old(self).guess_number() < usize::MAX,
        ensures
            replied(
                solver@,
                *old(self),
                input::reading(input::tokens(line@)),
                *proposed,
                r,
                *final(self),
            ),
            is_ascii_chars(line@) ==> replied(
                solver@,
                *old(self),
                input::reading(input::ascii_tokens(line@)),
                *proposed,
                r,
                *final(self),
            ),
    {
        match parse_input(line, proposed) {
            None => Reply::Unclear,
            Some(Parsed::Quit) => Reply::Quit,
            Some(Parsed::Move { guess, fb }) => {
                proof {
                    assert forall|c: int| 0 <= c < solver@.answers.len() implies words::scorable(
                        guess@,
                        #[trigger] solver@.answers[c]@,
                    ) by {
                        if guess != *proposed {
                            assert(words::is_word(guess@));
                            assert(words::is_word(solver@.answers[c]@));
                        }
                    }
                }
                Reply::Played(self.observe(solver, &guess, fb))
            },
        }
    }
}

/// Keeps the columns whose answers show a pattern after a word is guessed.
pub fn narrow(solver: &Solver, s: &Vec<u32>, guess: &Word, fb: u8) -> (r: Vec<u32>)
    requires
        solver.wf(),
        solver@.columns(s@),
        playable(solver@, guess@),
    ensures
        r@ == consistent(solver@, s@, guess@, fb as int),
{
    let ghost f = |c: u32| words::pattern(guess@, solver@.answers[c as int]@) == fb;
    let mut r: Vec<u32> = Vec::new();
    let mut i: usize = 0;
    proof {
        reveal(Seq::filter);
        assert(r@ =~= s@.take(0).filter(f));
    }
    while i < s.len()
        invariant
            solver.wf(),
            solver@.columns(s@),
            playable(solver@, guess@),
            f == (|c: u32| words::pattern(guess@, solver@.answers[c as int]@) == fb),
            i <= s@.len(),
            r@ == s@.take(i as int).filter(f),
        decreases s@.len() - i,
    {
        let c = s[i];
        if feedback(guess, &solver.answer(c)) == fb {
            r.push(c);
        }
        proof {
            reveal(Seq::filter);
            assert(s@.take(i + 1).drop_last() =~= s@.take(i as int));
        }
        i = i + 1;
    }
    assert(s@.take(i as int) =~= s@);
    r
}

/// Keeps the columns that show a pattern after a guess.
pub fn keep(solver: &Solver, g: u32, s: &Vec<u32>, p: u8) -> (r: Vec<u32>)
    requires
        solver.wf(),
        solver@.legal(g as int),
        solver@.columns(s@),
    ensures
        r@ == solver@.part(g as int, s@, p as int),
{
    let ghost f = parts::labelled(solver@.label(g as int), p as int);
    let mut r: Vec<u32> = Vec::new();
    let mut i: usize = 0;
    proof {
        reveal(Seq::filter);
        assert(r@ =~= s@.take(0).filter(f));
    }
    while i < s.len()
        invariant
            solver.wf(),
            solver@.legal(g as int),
            solver@.columns(s@),
            f == parts::labelled(solver@.label(g as int), p as int),
            i <= s@.len(),
            r@ == s@.take(i as int).filter(f),
        decreases s@.len() - i,
    {
        let c = s[i];
        if solver.pat(g, c) == p {
            r.push(c);
        }
        proof {
            reveal(Seq::filter);
            assert(s@.take(i + 1).drop_last() =~= s@.take(i as int));
        }
        i = i + 1;
    }
    assert(s@.take(i as int) =~= s@);
    r
}

/// The best guess is legal.
pub proof fn lemma_best_legal(b: Board, s: Seq<u32>)
    requires
        b.valid(),
        b.columns(s),
        s.len() >= 1,
    ensures
        b.legal(b.best(s, true).1 as int),
{
    optimal::lemma_home(b, s[0]);
    if s.len() > 1 {
        let list = b.universe(s, true);
        let order = b.ranking(s, list);
        optimal::lemma_ranking(b, s, list);
        optimal::lemma_universe(b, s, true);
        lemma_search_legal(b, s, order, order.len());
    }
}

proof fn lemma_search_legal(b: Board, s: Seq<u32>, order: Seq<crate::board::Rated>, n: nat)
    requires
        n <= order.len(),
        b.legal(b.home(s[0]) as int),
        forall|k: int|
            0 <= k < order.len() ==> b.universe(s, true).contains((#[trigger] order[k]).guess),
    ensures
        b.legal(b.search(s, order, n).1 as int),
    decreases n,
{
    if n > 0 {
        lemma_search_legal(b, s, order, (n - 1) as nat);
        assert(b.universe(s, true).contains(order[n - 1].guess));
    }
}

/// The candidates after a row of guesses and patterns.
pub open spec fn after(b: Board, moves: Seq<(Word, u8)>) -> Seq<u32>
    decreases moves.len(),
{
    if moves.len() == 0 {
        all_columns(b)
    } else {
        let (guess, fb) = moves.last();
        consistent(b, after(b, moves.drop_last()), guess@, fb as int)
    }
}

/// Which words are left: exactly the answers that would have shown every pattern seen so far. In
/// particular the secret word is never dropped while the patterns are its own.
pub proof fn law_candidates(b: Board, moves: Seq<(Word, u8)>, c: u32)
    requires
        b.valid(),
    ensures
        after(b, moves).contains(c) <==> c < b.answers.len() && forall|i: int|
            0 <= i < moves.len() ==> words::pattern(
                (#[trigger] moves[i]).0@,
                b.answers[c as int]@,
            ) == moves[i].1,
    decreases moves.len(),
{
    if moves.len() == 0 {
        let all = all_columns(b);
        if c < b.answers.len() {
            assert(all[c as int] == c);
        }
    } else {
        let before = moves.drop_last();
        law_candidates(b, before, c);
        let (guess, fb) = moves.last();
        let f = |c: u32| words::pattern(guess@, b.answers[c as int]@) == fb;
        optimal::lemma_filter_members(after(b, before), f);
        assert(consistent(b, after(b, before), guess@, fb as int) == after(b, before).filter(f));
        assert(moves[moves.len() - 1] == moves.last());
        assert forall|i: int| 0 <= i < before.len() implies before[i] == moves[i] by {}
        if forall|i: int|
            0 <= i < moves.len() ==> words::pattern(
                (#[trigger] moves[i]).0@,
                b.answers[c as int]@,
            ) == moves[i].1 {
            assert forall|i: int| 0 <= i < before.len() implies words::pattern(
                (#[trigger] before[i]).0@,
                b.answers[c as int]@,
            ) == before[i].1 by {
                assert(before[i] == moves[i]);
            }
        }
        if after(b, moves).contains(c) {
            assert forall|i: int| 0 <= i < moves.len() implies words::pattern(
                (#[trigger] moves[i]).0@,
                b.answers[c as int]@,
            ) == moves[i].1 by {
                if i < before.len() {
                    assert(before[i] == moves[i]);
                }
            }
        }
    }
}

/// Whether an answer would have shown every pattern of a row of moves.
pub open spec fn fits(b: Board, moves: Seq<(Word, u8)>) -> spec_fn(u32) -> bool {
    |c: u32|
        forall|i: int|
            0 <= i < moves.len() ==> words::pattern(
                (#[trigger] moves[i]).0@,
                b.answers[c as int]@,
            ) == moves[i].1
}

/// Filtering twice is filtering by both tests.
pub proof fn lemma_filter_both(
    s: Seq<u32>,
    f: spec_fn(u32) -> bool,
    g: spec_fn(u32) -> bool,
    h: spec_fn(u32) -> bool,
)
    requires
        forall|c: u32| #[trigger] h(c) <==> f(c) && g(c),
    ensures
        s.filter(f).filter(g) == s.filter(h),
    decreases s.len(),
{
    reveal(Seq::filter);
    if s.len() > 0 {
        let t = s.drop_last();
        lemma_filter_both(t, f, g, h);
        assert(h(s.last()) <==> f(s.last()) && g(s.last()));
        if f(s.last()) {
            assert(t.filter(f).push(s.last()).drop_last() =~= t.filter(f));
        }
    }
}

/// The candidates after a row of moves are the answers that fit, in the order of the list.
proof fn lemma_after(b: Board, moves: Seq<(Word, u8)>)
    ensures
        after(b, moves) == all_columns(b).filter(fits(b, moves)),
    decreases moves.len(),
{
    let all = all_columns(b);
    let h = fits(b, moves);
    if moves.len() == 0 {
        optimal::lemma_filter_all(all, h);
    } else {
        let before = moves.drop_last();
        let (guess, fb) = moves.last();
        let f = fits(b, before);
        let g = |c: u32| words::pattern(guess@, b.answers[c as int]@) == fb as int;
        lemma_after(b, before);
        assert forall|c: u32| #[trigger] h(c) <==> f(c) && g(c) by {
            assert(moves[moves.len() - 1] == moves.last());
            if h(c) {
                assert forall|i: int| 0 <= i < before.len() implies words::pattern(
                    (#[trigger] before[i]).0@,
                    b.answers[c as int]@,
                ) == before[i].1 by {
                    assert(before[i] == moves[i]);
                }
            }
            if f(c) && g(c) {
                assert forall|i: int| 0 <= i < moves.len() implies words::pattern(
                    (#[trigger] moves[i]).0@,
                    b.answers[c as int]@,
                ) == moves[i].1 by {
                    if i < before.len() {
                        assert(before[i] == moves[i]);
                    }
                }
            }
        }
        lemma_filter_both(all, f, g, h);
    }
}

/// Whether a row of games is what comes of a row of moves, from a new game on, each of which the
/// game went on after.
pub open spec fn played(b: Board, moves: Seq<(Word, u8)>, games: Seq<Session>) -> bool {
    &&& games.len() == moves.len() + 1
    &&& games[0].left() == all_columns(b)
    &&& games[0].guess_number() == 1
    &&& forall|i: int|
        0 <= i < moves.len() ==> observed(
            b,
            games[i],
            (#[trigger] moves[i]).0,
            moves[i].1,
            Outcome::Next,
            games[i + 1],
        )
}

/// A game after some moves: the number of the guess to come is one more than that of the moves, and
/// the candidates are exactly the answers that would have shown every pattern so far, in the order
/// of the list.
pub proof fn law_game(b: Board, moves: Seq<(Word, u8)>, games: Seq<Session>)
    requires
        played(b, moves, games),
    ensures
        games.last().guess_number() == moves.len() + 1,
        games.last().left() == all_columns(b).filter(fits(b, moves)),
        games.last().left() == after(b, moves),
    decreases moves.len(),
{
    lemma_after(b, moves);
    if moves.len() > 0 {
        let before = moves.drop_last();
        let rest = games.drop_last();
        assert forall|i: int| 0 <= i < before.len() implies observed(
            b,
            rest[i],
            (#[trigger] before[i]).0,
            before[i].1,
            Outcome::Next,
            rest[i + 1],
        ) by {
            assert(before[i] == moves[i]);
        }
        law_game(b, before, rest);
        let k = moves.len() - 1;
        assert(moves[k] == moves.last());
        assert(observed(b, games[k], moves[k].0, moves[k].1, Outcome::Next, games[k + 1]));
    }
}

/// When a game ends without the word: exactly if no answer would have shown every pattern so far
/// and the new one.
pub proof fn law_game_lost(
    b: Board,
    moves: Seq<(Word, u8)>,
    games: Seq<Session>,
    guess: Word,
    fb: u8,
    r: Outcome,
    end: Session,
)
    requires
        played(b, moves, games),
        observed(b, games.last(), guess, fb, r, end),
        fb != GREEN,
    ensures
        r is NoneLeft <==> forall|c: u32|
            c < b.answers.len() ==> !#[trigger] fits(b, moves.push((guess, fb)))(c),
        end.left() == all_columns(b).filter(fits(b, moves.push((guess, fb)))),
{
    let all = all_columns(b);
    let more = moves.push((guess, fb));
    let f = fits(b, more);
    law_game(b, moves, games);
    lemma_after(b, more);
    assert(more.drop_last() =~= moves);
    optimal::lemma_filter_members(all, f);
    if r is NoneLeft {
        assert forall|c: u32| c < b.answers.len() implies !#[trigger] f(c) by {
            assert(all[c as int] == c);
            if f(c) {
                assert(all.filter(f).contains(c));
            }
        }
    } else {
        let c = end.left()[0];
        assert(all.filter(f).contains(c));
        assert(all.contains(c));
    }
}

/// What is proposed: on the first turn the opener; then, if one word is left, that word; and else,
/// among different words, a legal guess than which none costs less.
pub proof fn law_pick(b: Board, opener: u32, s: Seq<u32>, turn: int, g: int)
    requires
        b.valid(),
        b.columns(s),
        b.distinct(s),
        s.len() >= 1,
        b.legal(g),
    ensures
        turn == 1 ==> pick(b, opener, s, turn) == opener,
        turn != 1 ==> b.legal(pick(b, opener, s, turn) as int),
        turn != 1 && s.len() == 1 ==> b.guesses[pick(b, opener, s, turn) as int]
            == b.answers[s[0] as int],
        turn != 1 ==> match (b.cost(pick(b, opener, s, turn) as int, s), b.cost(g, s)) {
            (Some(x), Some(y)) => x <= y,
            (Some(_), None) => true,
            (None, _) => false,
        },
{
    optimal::lemma_home(b, s[0]);
    lemma_best_legal(b, s);
    admissible::law_best_is_optimal(b, s, true);
    admissible::law_full_search_no_worse(b, s);
    if s.len() == 1 {
        optimal::lemma_last_guess(b, s, 243);
    }
}

/// What taking note of a move comes to: it is solved exactly by five greens, with the number of the
/// guess; otherwise the candidates that would not have shown the pattern are gone and all others
/// stay in their order, and play goes on exactly if there are some.
pub proof fn law_observed(
    b: Board,
    before: Session,
    guess: Word,
    fb: u8,
    r: Outcome,
    after: Session,
)
    requires
        observed(b, before, guess, fb, r, after),
    ensures
        r is Solved <==> fb == 242,
        r matches Outcome::Solved(n) ==> n == before.guess_number() && after == before,
        fb != 242 ==> after.left() == before.left().filter(
            |c: u32| words::pattern(guess@, b.answers[c as int]@) == fb,
        ),
        r is NoneLeft <==> fb != 242 && after.left().len() == 0,
        r is Next <==> fb != 242 && after.left().len() > 0,
        r is NoneLeft ==> after.guess_number() == before.guess_number(),
        r is Next ==> after.guess_number() == before.guess_number() + 1,
{
    let f = |c: u32| words::pattern(guess@, b.answers[c as int]@) == fb;
    assert(consistent(b, before.left(), guess@, fb as int) == before.left().filter(f));
}

/// What a line comes to: nothing happens exactly if it has no meaning or asks to stop; a pattern is
/// that of the proposed guess, and a word and a pattern are a move of their own.
pub proof fn law_replied(
    b: Board,
    before: Session,
    m: Option<Reading>,
    proposed: Word,
    r: Reply,
    after: Session,
)
    requires
        replied(b, before, m, proposed, r, after),
    ensures
        r is Unclear <==> m is None,
        r is Quit <==> m == Some(Reading::Quit),
        r is Unclear || r is Quit ==> after == before,
        m matches Some(Reading::Pattern(p)) ==> 0 <= p < 256 && r is Played && observed(
            b,
            before,
            proposed,
            p as u8,
            r->Played_0,
            after,
        ),
        m matches Some(Reading::Both(w, p)) ==> 0 <= p < 256 && r is Played && exists|g: Word|
            g@ == w && #[trigger] observed(b, before, g, p as u8, r->Played_0, after),
{
    if let Reply::Played(o) = r {
        let (g, fb) = choose|g: Word, fb: u8|
            (m == Some(Reading::Pattern(fb as int)) && g == proposed || m == Some(
                Reading::Both(g@, fb as int),
            )) && #[trigger] observed(b, before, g, fb, o, after);
        if let Some(Reading::Both(w, p)) = m {
            assert(p as u8 == fb && g@ == w);
            assert(observed(b, before, g, p as u8, r->Played_0, after));
        }
    }
}

/// Every column of a board, each once and in order.
pub proof fn law_all_columns(b: Board, c: u32)
    requires
        b.answers.len() <= u32::MAX,
    ensures
        all_columns(b).len() == b.answers.len(),
        c < b.answers.len() ==> all_columns(b)[c as int] == c,
{
}

/// What finding the guess to play remembers: nothing new for the first guess, nor where one
/// candidate is left; otherwise the set of candidates, with the guess that is played, and nothing
/// else at the root. Nothing is forgotten.
pub proof fn law_pick_remembers(b: Board, opener: u32, m: Store, s: Seq<u32>, turn: int)
    requires
        s.len() >= 1,
        m.root.contains_key(s) ==> m.root[s].1 == b.best(s, true).1,
    ensures
        ({
            let n = after_pick(b, m, s, turn);
            if turn == 1 || s.len() == 1 || m.root.contains_key(s) {
                n == m
            } else {
                &&& n.root.contains_key(s) && n.root[s].1 == pick(b, opener, s, turn)
                &&& n.root.remove(s) == m.root.remove(s)
                &&& m.beyond.submap_of(n.beyond)
                &&& n.count >= m.count
            }
        }),
{
    let n = after_pick(b, m, s, turn);
    memory::lemma_search_extends(b, m, s);
    assert(turn != 1 && s.len() != 1 ==> n == memory::after_search(b, m, s, true));
    memory::lemma_search_at_root(b, m, s);
    assert(n.root.remove(s) =~= m.root.remove(s));
}

} // verus!
