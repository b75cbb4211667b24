use wordle::bounds::build_lb;
use wordle::index::WordIndex;
use wordle::information::spread_of;
use wordle::memo::Memo;
use wordle::natural::Natural;
use wordle::solver::Solver;
use wordle::sort::sort;
use wordle::words::Word;

fn words(list: &str) -> Vec<Word> {
    list.split(' ')
        .map(|w| {
            let b = w.as_bytes();
            [b[0], b[1], b[2], b[3], b[4]]
        })
        .collect()
}

const ANSWERS: &str = "crane crate trace slate stale least raise arise react cater alert later \
                       alter stare tears rates aster tares saner nears";

fn setup(answers: &str, probes: &str, weights: Vec<u64>) -> Solver {
    let a = words(answers);
    let mut g = a.clone();
    g.extend(words(probes));
    match Solver::new(a, g, weights) {
        Ok(solver) => solver,
        Err(c) => panic!("answer {} is not a guess", c),
    }
}

/// Six words that differ in their first letter, and two probes.
fn ight() -> Solver {
    setup("light night might right sight fight", "salet frlmn", vec![1; 6])
}

fn twenty() -> Solver {
    let weights = (0..20).map(|i| (i * 7) % 11 + 1).collect();
    setup(ANSWERS, "salet soare roate probe clint", weights)
}

fn all(solver: &Solver) -> Vec<u32> {
    (0..solver.answer_count() as u32).collect()
}

/// The least cost by trying every guess, the candidates only beyond the root.
fn exhaustive(solver: &Solver, s: &[u32], root: bool) -> Option<u128> {
    if s.len() == 1 {
        return Some(solver.wsum(s));
    }
    let list: Vec<u32> = if root {
        (0..solver.guess_count() as u32).collect()
    } else {
        s.iter().map(|&c| solver.home(c)).collect()
    };
    list.iter().filter_map(|&g| played_out(solver, g, s)).min()
}

fn played_out(solver: &Solver, g: u32, s: &[u32]) -> Option<u128> {
    let mut cost = solver.wsum(s);
    for p in 0..242u8 {
        let part: Vec<u32> = s.iter().copied().filter(|&c| solver.pat(g, c) == p).collect();
        if part.len() == s.len() {
            return None;
        }
        if !part.is_empty() {
            cost += exhaustive(solver, &part, false)?;
        }
    }
    Some(cost)
}

#[test]
fn the_table_of_even_costs() {
    let lb = build_lb(1000);
    assert_eq!(lb.len(), 1001);
    assert_eq!(&lb[0..4], &[0, 1, 3, 5]);
    assert_eq!(lb[243], 485);
    assert_eq!(lb[244], 488);
    assert_eq!(lb[1000], 2756);
    assert_eq!(build_lb(0), vec![0]);
}

#[test]
fn the_even_cost_is_that_of_an_even_split() {
    let lb = build_lb(3000);
    for m in 2..=3000usize {
        let (q, r) = ((m - 1) / 242, (m - 1) % 242);
        let split = r as u64 * lb[q + 1] + (242 - r) as u64 * lb[q];
        assert_eq!(lb[m], m as u64 + split);
    }
}

#[test]
fn a_smaller_table_is_the_beginning_of_a_larger_one() {
    let lb = build_lb(600);
    for k in [0, 1, 2, 242, 243, 244, 599, 600] {
        assert_eq!(&lb[..=k], &build_lb(k)[..]);
    }
}

#[test]
fn the_tables_of_a_board() {
    let solver = ight();
    assert_eq!(solver.answer_count(), 6);
    assert_eq!(solver.guess_count(), 8);
    assert_eq!(solver.answer(1), *b"night");
    assert_eq!(solver.guess(7), *b"frlmn");
    assert_eq!(solver.weight(3), 1);
    assert_eq!(solver.home(4), 4);
    assert_eq!(solver.column(4), Some(4));
    assert_eq!(solver.column(7), None);
    assert_eq!(solver.pat(0, 0), 242);
    assert_eq!(solver.pat(0, 1), 80);
    assert_eq!(solver.nodes(), 0);
}

#[test]
fn a_repeated_guess_is_known_by_its_last_place() {
    let a = words("crane slate");
    let g = words("slate crane slate");
    let solver = Solver::new(a, g, vec![2, 3]).ok().unwrap();
    assert_eq!(solver.home(1), 2);
    assert_eq!(solver.column(2), Some(1));
    assert_eq!(solver.column(0), None);
}

#[test]
fn a_repeated_answer_is_known_by_its_last_column() {
    let solver =
        Solver::new(words("crane slate crane"), words("slate crane"), vec![1; 3]).ok().unwrap();
    assert_eq!(solver.column(1), Some(2));
}

#[test]
fn every_answer_must_be_a_guess() {
    let r = Solver::new(words("crane slate trace"), words("crane salet"), vec![1; 3]);
    assert_eq!(r.err(), Some(1));
}

#[test]
fn a_board_without_answers() {
    let solver = Solver::new(Vec::new(), words("crane"), Vec::new()).ok().unwrap();
    assert_eq!(solver.answer_count(), 0);
    assert_eq!(solver.wsum(&[]), 0);
}

#[test]
fn weights_and_floors() {
    let solver = twenty();
    let s = all(&solver);
    assert_eq!(solver.wsum(&s), 118);
    // One word now, the heaviest; all the others with the second guess.
    assert_eq!(solver.global_lb(&s), 225);
    assert_eq!(solver.global_lb(&[5]), 3);
    assert_eq!(ight().global_lb(&[0, 1, 2, 3, 4, 5]), 11);
}

#[test]
fn the_floor_does_not_depend_on_the_order() {
    let solver = twenty();
    assert_eq!(solver.global_lb(&[0, 3, 7]), solver.global_lb(&[7, 0, 3]));
    // 1, 11 and 6: no other order of the three costs less than the heaviest first.
    assert_eq!(solver.global_lb(&[0, 3, 7]), 11 + 2 * (1 + 6));
}

#[test]
fn pattern_counts() {
    let solver = ight();
    let counts = solver.counts(0, &[0, 1, 2, 3, 4, 5]);
    assert_eq!(counts[242], 1);
    assert_eq!(counts[80], 5);
    assert_eq!(counts.iter().sum::<u32>(), 6);
}

#[test]
fn one_candidate_takes_one_guess() {
    let mut solver = twenty();
    assert_eq!(solver.solve(&[3], 0), (Some(11), 3));
    assert_eq!(solver.solve(&[3], 4), (Some(11), 3));
    assert_eq!(solver.nodes(), 0);
}

#[test]
fn two_candidates_take_one_and_two() {
    let mut solver = twenty();
    // 1 and 8: the heavier is guessed first.
    assert_eq!(solver.solve(&[0, 1], 1), (Some(8 + 2), 1));
}

#[test]
fn a_probe_can_split_better_than_any_candidate() {
    let mut solver = ight();
    let s = all(&solver);
    assert_eq!(solver.solve(&s, 0), (Some(12), 7));
    assert_eq!(solver.solve(&s, 1), (Some(21), 0));
    assert_eq!(solver.best_candidate(&s), (Some(21), 0));
    assert_eq!(solver.entropy_best(&s), 7);
}

#[test]
fn costs_of_guesses() {
    let mut solver = ight();
    let s = all(&solver);
    assert_eq!(solver.cost_exact(7, &s), Some(12));
    assert_eq!(solver.cost_exact(0, &s), Some(21));
    assert_eq!(solver.cost_exact(6, &s), Some(18));
}

#[test]
fn a_cost_that_is_not_below_the_bound_is_none() {
    let mut solver = ight();
    let s = all(&solver);
    assert_eq!(solver.cost_of_guess(7, &s, Some(13), 0), Some(12));
    assert_eq!(solver.cost_of_guess(7, &s, Some(12), 0), None);
}

#[test]
fn a_guess_without_progress_has_no_cost() {
    let mut solver = ight();
    assert_eq!(solver.cost_exact(6, &[0]), None);
    // "salet" colours night and might alike.
    assert_eq!(solver.pat(6, 1), solver.pat(6, 2));
    assert_eq!(solver.cost_exact(6, &[1, 2]), None);
}

#[test]
fn a_guess_that_is_the_only_candidate_costs_its_weight() {
    let mut solver = twenty();
    assert_eq!(solver.cost_exact(3, &[3]), Some(11));
    assert_eq!(solver.cost_of_guess(3, &[3], Some(1), 0), Some(11));
}

#[test]
fn the_search_finds_the_least_cost() {
    let mut solver = twenty();
    let s = all(&solver);
    assert_eq!(solver.solve(&s, 0), (Some(244), 17));
    assert_eq!(solver.solve(&s, 1), (Some(244), 17));
    assert_eq!(solver.best_candidate(&s), (Some(244), 17));
    assert_eq!(solver.entropy_best(&s), 20);
    assert_eq!(exhaustive(&solver, &s, true), Some(244));
}

#[test]
fn the_search_agrees_with_trying_everything() {
    let mut solver = twenty();
    for step in 2..7u32 {
        let s: Vec<u32> = (0..20).filter(|c| c % step != 1).collect();
        assert_eq!(solver.solve(&s, 0).0, exhaustive(&solver, &s, true));
        assert_eq!(solver.solve(&s, 1).0, exhaustive(&solver, &s, false));
        let (cost, guess) = solver.solve(&s, 0);
        assert_eq!(solver.cost_exact(guess, &s), cost);
    }
}

/// The guesses to find a candidate when `g` comes first and then the best of the candidates.
fn guesses_taken(solver: &mut Solver, g: u32, s: &[u32], c: u32) -> u128 {
    let p = solver.pat(g, c);
    if p == 242 {
        return 1;
    }
    let part: Vec<u32> = s.iter().copied().filter(|&x| solver.pat(g, x) == p).collect();
    let next = solver.solve(&part, 1).1;
    1 + guesses_taken(solver, next, &part, c)
}

#[test]
fn a_cost_is_the_weighted_number_of_guesses() {
    let mut solver = twenty();
    let s = all(&solver);
    for g in 0..solver.guess_count() as u32 {
        if let Some(cost) = solver.cost_exact(g, &s) {
            let mut sum: u128 = 0;
            for &c in &s {
                sum += solver.weight(c) as u128 * guesses_taken(&mut solver, g, &s, c);
            }
            assert_eq!(cost, sum);
        }
    }
}

#[test]
fn no_cost_is_below_the_floor() {
    let mut solver = twenty();
    let s = all(&solver);
    let floor = solver.global_lb(&s);
    for g in 0..solver.guess_count() as u32 {
        if let Some(c) = solver.cost_exact(g, &s) {
            assert!(floor <= c);
        }
    }
}

#[test]
fn with_equal_weights_the_even_bound_holds() {
    let mut solver = ight();
    let s = all(&solver);
    let lb = build_lb(6);
    assert!(lb[6] as u128 <= solver.solve(&s, 0).0.unwrap());
    assert!(lb[6] as u128 <= solver.solve(&s, 1).0.unwrap());
    for g in 0..8u32 {
        let counts = solver.counts(g, &s);
        let bound: u64 = (0..242).map(|p| lb[counts[p] as usize]).sum();
        assert!(6 + bound as u128 <= solver.cost_exact(g, &s).unwrap());
    }
}

#[test]
fn choosing_among_all_guesses_is_no_worse() {
    let mut solver = twenty();
    for k in 2..20u32 {
        let s: Vec<u32> = (0..k).collect();
        let free = solver.solve(&s, 0).0.unwrap();
        assert!(free <= solver.solve(&s, 1).0.unwrap());
        assert!(free <= solver.best_candidate(&s).0.unwrap());
    }
}

#[test]
fn patterns_part_the_candidates() {
    let solver = twenty();
    let s = all(&solver);
    for g in 0..solver.guess_count() as u32 {
        assert_eq!(solver.counts(g, &s).iter().sum::<u32>(), 20);
    }
}

#[test]
fn what_was_searched_is_not_searched_again() {
    let mut solver = twenty();
    let s = all(&solver);
    let first = solver.solve(&s, 0);
    let nodes = solver.nodes();
    assert!(nodes > 0);
    assert_eq!(solver.solve(&s, 0), first);
    assert_eq!(solver.nodes(), nodes);
}

#[test]
fn a_guess_without_progress_searches_nothing() {
    let mut solver = Solver::new(
        words("light night hound"),
        words("light night hound zzzzz"),
        vec![1, 1, 6],
    )
    .ok()
    .unwrap();
    assert_eq!(solver.cost_of_guess(3, &[0, 1, 2], None, 0), None);
    assert_eq!(solver.nodes(), 0);
    // What was not searched is searched later.
    solver.solve(&[0, 1], 1);
    assert_eq!(solver.nodes(), 1);
}

#[test]
fn searches_are_counted_exactly() {
    let mut solver = twenty();
    let s = all(&solver);
    solver.solve(&s, 0);
    assert_eq!(solver.nodes(), 52);
    let mut solver = twenty();
    solver.solve(&s, 1);
    assert_eq!(solver.nodes(), 39);
    let mut solver = twenty();
    solver.best_candidate(&s);
    assert_eq!(solver.nodes(), 38);
    let mut solver = twenty();
    solver.cost_exact(20, &s);
    assert_eq!(solver.nodes(), 4);
    // A bound that is reached ends the evaluation after its first bucket of two.
    let mut solver = twenty();
    assert_eq!(solver.cost_of_guess(20, &s, Some(120), 0), None);
    assert_eq!(solver.nodes(), 1);
    let mut solver = ight();
    solver.solve(&[0, 1, 2, 3, 4, 5], 1);
    // Every set of two or more of the six words.
    assert_eq!(solver.nodes(), 57);
}

#[test]
fn results_at_the_root_and_beyond_are_remembered_apart() {
    let mut solver = ight();
    let s = all(&solver);
    solver.solve(&s, 1);
    let nodes = solver.nodes();
    solver.solve(&s, 0);
    assert!(solver.nodes() > nodes);
    let nodes = solver.nodes();
    solver.solve(&s, 1);
    solver.solve(&s, 7);
    solver.solve(&s, 0);
    assert_eq!(solver.nodes(), nodes);
}

#[test]
fn any_depth_beyond_the_root_gives_the_same() {
    let mut solver = ight();
    let s = all(&solver);
    let found = solver.solve(&s, u32::MAX);
    assert_eq!(found, (Some(21), 0));
    assert_eq!(found, ight().solve(&s, 1));
}

#[test]
fn no_set_costs_more_than_guessing_its_words_one_by_one() {
    let mut solver = twenty();
    for k in 1..=20u32 {
        let s: Vec<u32> = (0..k).collect();
        let mut w: Vec<u64> = s.iter().map(|&c| solver.weight(c)).collect();
        w.sort_by(|a, b| b.cmp(a));
        let ceiling: u128 = w.iter().enumerate().map(|(i, &x)| (i as u128 + 1) * x as u128).sum();
        for depth in 0..2 {
            let cost = solver.solve(&s, depth).0.unwrap();
            assert!(solver.wsum(&s) <= solver.global_lb(&s));
            assert!(solver.global_lb(&s) <= cost && cost <= ceiling);
        }
    }
    // Six words that can only be told one from the others: 1 + 2 + ... + 6.
    assert_eq!(ight().solve(&[0, 1, 2, 3, 4, 5], 1).0, Some(21));
}

#[test]
fn the_cost_of_a_guess_is_that_of_its_buckets() {
    let mut solver = twenty();
    let s = all(&solver);
    for g in 0..solver.guess_count() as u32 {
        let mut sum = solver.wsum(&s);
        for p in 0..242u8 {
            let part: Vec<u32> = s.iter().copied().filter(|&c| solver.pat(g, c) == p).collect();
            if !part.is_empty() {
                sum += solver.solve(&part, 1).0.unwrap();
            }
        }
        assert_eq!(solver.cost_exact(g, &s), Some(sum));
    }
}

#[test]
fn lists_may_be_longer_than_the_answers() {
    let solver = ight();
    let s = [0u32, 0, 1, 2, 3, 4, 5, 5];
    assert_eq!(solver.wsum(&s), 8);
    assert_eq!(solver.global_lb(&s), 15);
    assert_eq!(solver.counts(0, &s)[242], 2);
    assert_eq!(solver.entropy_best(&s), 7);
}

#[test]
fn repeated_answers_can_lie_below_the_floor() {
    // Five greens for two columns at once.
    let mut solver =
        Solver::new(words("crane crane"), words("crane slate"), vec![4, 4]).ok().unwrap();
    assert_eq!(solver.global_lb(&[0, 1]), 12);
    assert_eq!(solver.cost_exact(0, &[0, 1]), Some(8));
    assert_eq!(solver.solve(&[0, 1], 0), (None, 0));
}

#[test]
fn information_prefers_small_parts() {
    let solver = ight();
    let s = all(&solver);
    // Six parts of one, against a part of one and a part of five.
    let even = spread_of(&solver, 7, &s);
    let uneven = spread_of(&solver, 0, &s);
    assert!(even.below(&uneven));
    assert!(!uneven.below(&even));
}

#[test]
fn large_numbers() {
    let mut a = Natural::one();
    let mut b = Natural::one();
    for _ in 0..40 {
        a = a.times(u32::MAX);
        b = b.times(u32::MAX);
    }
    assert!(!a.below(&b) && !b.below(&a));
    assert!(a.times(2).below(&b.times(3)));
    assert!(!a.times(3).below(&b.times(2)));
    assert!(a.times(0).below(&Natural::one()));
    assert!(!Natural::one().below(&a.times(0)));
    assert!(Natural::one().below(&a));
}

#[test]
fn remembered_lists() {
    let mut memo = Memo::new();
    assert!(memo.get(&[1, 2]).is_none());
    memo.insert(&[1, 2], Some(7), 3);
    memo.insert(&[2, 1], None, 4);
    assert_eq!(memo.get(&[1, 2]), Some((Some(7), 3)));
    assert_eq!(memo.get(&[2, 1]), Some((None, 4)));
    memo.insert(&[1, 2], Some(8), 5);
    assert_eq!(memo.get(&[1, 2]), Some((Some(8), 5)));
    assert!(memo.get(&[1]).is_none());
    assert!(memo.get(&[]).is_none());
}

#[test]
fn places_of_words() {
    let index = WordIndex::of(&words("crane slate crane"));
    assert_eq!(index.get(b"crane"), Some(2));
    assert_eq!(index.get(b"slate"), Some(1));
    assert_eq!(index.get(b"trace"), None);
}

#[test]
fn sorting() {
    assert_eq!(sort(&vec![3u32, 1, 2, 3, 0]), vec![0, 1, 2, 3, 3]);
    assert_eq!(sort(&Vec::<u64>::new()), Vec::<u64>::new());
}
