use wordle::openers::{find_guess, opener, OPENER};
use wordle::play::{every_column, keep, narrow, Note, Outcome, Reply, Session};
use wordle::selftest::{play_game, run_selftest};
use wordle::solver::Solver;
use wordle::words::{feedback, Word};

fn words(list: &str) -> Vec<Word> {
    list.split(' ')
        .map(|w| {
            let b = w.as_bytes();
            [b[0], b[1], b[2], b[3], b[4]]
        })
        .collect()
}

fn twenty() -> Solver {
    let a = words(
        "crane crate trace slate stale least raise arise react cater alert later alter stare \
         tears rates aster tares saner nears",
    );
    let mut g = a.clone();
    g.extend(words("salet soare roate probe clint"));
    let weights = (0..20).map(|i| (i * 7) % 11 + 1).collect();
    Solver::new(a, g, weights).ok().unwrap()
}

fn ight() -> Solver {
    let a = words("light night might right sight fight");
    let mut g = a.clone();
    g.extend(words("salet frlmn"));
    Solver::new(a, g, vec![1; 6]).ok().unwrap()
}

#[test]
fn the_opener_is_found_among_the_guesses() {
    assert_eq!(&OPENER, b"alert");
    assert_eq!(find_guess(&twenty(), &OPENER), Some(10));
    assert_eq!(find_guess(&twenty(), b"salet"), Some(20));
    assert_eq!(opener(&twenty()), Some(10));
    assert_eq!(opener(&ight()), None);
    let a = words("crane");
    let twice = Solver::new(a, words("crane alert alert salet"), vec![1]).ok().unwrap();
    assert_eq!(opener(&twice), Some(2));
    assert_eq!(find_guess(&twice, &OPENER), Some(1));
    assert_eq!(find_guess(&twenty(), b"zebra"), None);
}

#[test]
fn a_game_begins_with_every_candidate_and_the_opener() {
    let mut solver = twenty();
    let session = Session::new(&solver);
    assert_eq!(session.turn(), 1);
    assert_eq!(session.candidates(), &every_column(&solver));
    let first = opener(&solver).unwrap();
    let (g, note) = session.recommend(&mut solver, first);
    assert_eq!(solver.guess(g), *b"alert");
    assert!(matches!(note, Note::Opener));
}

#[test]
fn after_a_pattern_the_best_guess_is_proposed() {
    let mut solver = twenty();
    let mut session = Session::new(&solver);
    // A green "s" and four yellows: slate or stale.
    assert!(matches!(session.observe(&solver, b"salet", 202), Outcome::Next));
    assert_eq!(session.candidates(), &vec![3, 4]);
    assert_eq!(session.turn(), 2);
    let (g, note) = session.recommend(&mut solver, 20);
    assert_eq!(g, 3);
    assert!(matches!(note, Note::Best { cost: Some(25), weight: 18, is_answer: true }));
}

#[test]
fn a_probe_is_called_one() {
    let mut solver = ight();
    let mut session = Session::new(&solver);
    let fb = feedback(b"eight", b"light");
    assert!(matches!(session.observe(&solver, b"eight", fb), Outcome::Next));
    assert_eq!(session.candidates().len(), 6);
    let (g, note) = session.recommend(&mut solver, 6);
    assert_eq!(g, 7);
    assert!(matches!(note, Note::Best { cost: Some(12), weight: 6, is_answer: false }));
}

#[test]
fn the_only_word_left_is_proposed() {
    let mut solver = twenty();
    let mut session = Session::new(&solver);
    assert!(matches!(session.observe(&solver, b"salet", 30), Outcome::Next));
    let (g, note) = session.recommend(&mut solver, 20);
    assert_eq!(solver.guess(g), *b"crane");
    assert!(matches!(note, Note::OnlyWord));
}

#[test]
fn five_greens_end_the_game() {
    let solver = twenty();
    let mut session = Session::new(&solver);
    assert!(matches!(session.observe(&solver, b"salet", 30), Outcome::Next));
    assert!(matches!(session.observe(&solver, b"crane", 242), Outcome::Solved(2)));
    assert_eq!(session.turn(), 2);
}

#[test]
fn five_greens_are_believed_of_any_word() {
    let solver = twenty();
    let mut session = Session::new(&solver);
    assert!(matches!(session.observe(&solver, b"zebra", 242), Outcome::Solved(1)));
}

#[test]
fn a_pattern_that_no_candidate_shows() {
    let solver = twenty();
    let mut session = Session::new(&solver);
    assert!(matches!(session.observe(&solver, b"salet", 0), Outcome::NoneLeft));
    assert!(session.candidates().is_empty());
}

#[test]
fn a_guess_need_not_be_on_the_list() {
    let solver = twenty();
    let mut session = Session::new(&solver);
    let fb = feedback(b"zzzzs", b"tears");
    assert!(matches!(session.observe(&solver, b"zzzzs", fb), Outcome::Next));
    let left: Vec<Word> = session.candidates().iter().map(|&c| solver.answer(c)).collect();
    assert_eq!(left, words("tears rates tares nears"));
}

#[test]
fn the_secret_stays_among_the_candidates() {
    let solver = twenty();
    for secret in 0..20u32 {
        let mut session = Session::new(&solver);
        for guess in words("clint probe tears") {
            let fb = feedback(&guess, &solver.answer(secret));
            if fb != 242 {
                assert!(matches!(session.observe(&solver, &guess, fb), Outcome::Next));
                assert!(session.candidates().contains(&secret));
            }
        }
        for c in every_column(&solver) {
            let same = words("clint probe tears").iter().all(|g| {
                let seen = feedback(g, &solver.answer(secret));
                seen == 242 || feedback(g, &solver.answer(c)) == seen
            });
            assert_eq!(session.candidates().contains(&c), same);
        }
    }
}

#[test]
fn a_line_without_a_meaning_changes_nothing() {
    let solver = twenty();
    let mut session = Session::new(&solver);
    for line in ["", "crane", "bybb", "crane bybbg now", "GGGGX"] {
        assert!(matches!(session.answer(&solver, line, b"salet"), Reply::Unclear));
        assert_eq!(session.turn(), 1);
        assert_eq!(session.candidates().len(), 20);
    }
    assert!(matches!(session.answer(&solver, "quit\n", b"salet"), Reply::Quit));
    assert_eq!(session.turn(), 1);
}

#[test]
fn lines_play_a_game() {
    let solver = twenty();
    let mut session = Session::new(&solver);
    let reply = session.answer(&solver, "GYYYY\n", b"salet");
    assert!(matches!(reply, Reply::Played(Outcome::Next)));
    assert_eq!(session.candidates(), &vec![3, 4]);
    let reply = session.answer(&solver, "stale GGGGG", b"slate");
    assert!(matches!(reply, Reply::Played(Outcome::Solved(2))));
    let reply = session.answer(&solver, "bbbbb", b"slate");
    assert!(matches!(reply, Reply::Played(Outcome::NoneLeft)));
    assert!(session.candidates().is_empty());
}

#[test]
fn the_candidates_fit_every_move_in_the_order_of_the_list() {
    let solver = twenty();
    let mut session = Session::new(&solver);
    // Each pattern is the one that "tears" would show.
    let moves = [*b"clint", *b"soare"].map(|g| (g, feedback(&g, b"tears")));
    for (k, (g, fb)) in moves.iter().enumerate() {
        assert!(matches!(session.observe(&solver, g, *fb), Outcome::Next));
        assert_eq!(session.turn(), k + 2);
    }
    let expected: Vec<u32> = (0..20)
        .filter(|&c| moves.iter().all(|(g, fb)| feedback(g, &solver.answer(c)) == *fb))
        .collect();
    assert_eq!(session.candidates(), &expected);
}

#[test]
fn games_count_their_searches() {
    let mut solver = twenty();
    play_game(&mut solver, 20, 2);
    assert_eq!(solver.nodes(), 1);
    run_selftest(&mut solver, 20);
    assert_eq!(solver.nodes(), 4);
}

#[test]
fn two_ways_to_keep_the_columns_of_a_pattern() {
    let solver = twenty();
    let s = every_column(&solver);
    for p in 0..=255u8 {
        assert_eq!(narrow(&solver, &s, b"salet", p), keep(&solver, 20, &s, p));
    }
}

#[test]
fn games_for_every_answer() {
    let mut solver = twenty();
    let taken: Vec<usize> = (0..20).map(|t| play_game(&mut solver, 20, t)).collect();
    assert_eq!(taken, vec![2, 2, 3, 2, 3, 2, 2, 2, 2, 2, 2, 2, 2, 2, 2, 3, 2, 2, 2, 3]);
}

#[test]
fn the_self_test_sums_up_the_games() {
    let mut solver = twenty();
    let r = run_selftest(&mut solver, 20);
    assert_eq!(r.dist, [0, 0, 16, 4, 0, 0, 0, 0, 0, 0, 0, 0]);
    assert_eq!(r.total, 44);
    assert_eq!(r.wtotal, 256);
    assert_eq!(r.wsum, 118);
    assert_eq!(r.worst, 3);
    assert_eq!(r.fails, 0);
}

#[test]
fn the_distribution_counts_every_game_once() {
    let mut solver = ight();
    for opener in 0..8u32 {
        let r = run_selftest(&mut solver, opener);
        assert_eq!(r.dist.iter().sum::<u32>(), 6);
        assert_eq!(r.dist[7..].iter().sum::<u32>(), r.fails);
    }
}

#[test]
fn games_go_no_worse_than_expected() {
    let mut solver = ight();
    let all = every_column(&solver);
    for opener in 0..8u32 {
        let expected = solver.cost_exact(opener, &all).unwrap();
        assert!(run_selftest(&mut solver, opener).wtotal <= expected);
    }
    // After "light" the search looks ahead to candidates only, and play uses the probe.
    assert_eq!(solver.cost_exact(0, &all), Some(21));
    assert_eq!(run_selftest(&mut solver, 0).wtotal, 16);
}

#[test]
fn a_long_game_is_given_up() {
    // Every guess tells one of the words from all the others.
    let a = words(
        "aight bight cight dight eight fight hight kight light might night right sight",
    );
    let mut solver = Solver::new(a.clone(), a, vec![1; 13]).ok().unwrap();
    assert_eq!(play_game(&mut solver, 0, 9), 10);
    assert_eq!(play_game(&mut solver, 0, 10), 11);
    let r = run_selftest(&mut solver, 0);
    assert_eq!(r.dist, [0, 1, 1, 1, 1, 1, 1, 1, 1, 1, 1, 3]);
    assert_eq!(r.total, 88);
    assert_eq!(r.worst, 11);
    assert_eq!(r.fails, 7);
}

#[test]
fn repeated_answers_are_found_together() {
    let mut solver = Solver::new(words("crane crane slate"), words("crane slate salet"), vec![1; 3])
        .ok()
        .unwrap();
    assert_eq!(play_game(&mut solver, 2, 0), 2);
    assert_eq!(play_game(&mut solver, 2, 1), 2);
    assert_eq!(run_selftest(&mut solver, 2).total, 6);
}
