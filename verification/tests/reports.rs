use wordle::analysis::{analyse, hardest, run_analysis};
use wordle::letters::{letter_counts, total_count};
use wordle::openers::{run_bestopen, seed_words};
use wordle::solver::Solver;
use wordle::words::{decode, word_str, Word};

fn words(list: &str) -> Vec<Word> {
    list.split(' ')
        .map(|w| {
            let b = w.as_bytes();
            [b[0], b[1], b[2], b[3], b[4]]
        })
        .collect()
}

fn twenty() -> Solver {
    let a = words(
        "crane crate trace slate stale least raise arise react cater alert later alter stare \
         tears rates aster tares saner nears",
    );
    let mut g = a.clone();
    g.extend(words("salet soare roate probe clint"));
    let weights = (0..20).map(|i| (i * 7) % 11 + 1).collect();
    Solver::new(a, g, weights).ok().unwrap()
}

#[test]
fn the_strong_openers() {
    assert_eq!(seed_words(), words("alert soare raise crane trace crate slate"));
}

fn openings(solver: &mut Solver) -> Vec<(Option<u128>, String)> {
    run_bestopen(solver)
        .iter()
        .map(|o| (o.cost, word_str(&solver.guess(o.guess))))
        .collect()
}

fn expected(rows: &[(u128, &str)]) -> Vec<(Option<u128>, String)> {
    rows.iter().map(|&(c, w)| (Some(c), w.to_string())).collect()
}

#[test]
fn the_ten_best_openings_are_ranked_by_cost() {
    let found = openings(&mut twenty());
    assert_eq!(
        found,
        expected(&[
            (244, "tares"),
            (246, "slate"),
            (249, "rates"),
            (252, "crate"),
            (252, "alter"),
            (253, "tears"),
            (253, "cater"),
            (255, "raise"),
            (255, "trace"),
            (255, "stale"),
        ])
    );
}

#[test]
fn no_guess_that_is_left_out_opens_better_than_the_tenth() {
    let mut solver = twenty();
    let found = run_bestopen(&mut solver);
    assert_eq!(found.len(), 10);
    let all: Vec<u32> = (0..20).collect();
    for g in 0..solver.guess_count() as u32 {
        if let Some(c) = solver.cost_exact(g, &all) {
            assert!(found[0].cost.unwrap() <= c);
            assert!(found.iter().any(|o| o.guess == g) || found[9].cost.unwrap() <= c);
        }
    }
}

#[test]
fn every_guess_is_listed_where_there_are_few() {
    let mut solver =
        Solver::new(words("crate hound"), words("crate hound"), vec![3, 1]).ok().unwrap();
    assert_eq!(openings(&mut solver), expected(&[(5, "crate"), (7, "hound")]));
    let mut solver = Solver::new(words("crane slate"), words("crane slate alert fuzzy"), vec![1, 1])
        .ok()
        .unwrap();
    assert_eq!(openings(&mut solver), expected(&[(3, "crane"), (3, "slate"), (4, "alert")]));
}

#[test]
fn the_only_answer_opens_best() {
    let mut solver = Solver::new(words("humph"), words("humph crane alert"), vec![1]).ok().unwrap();
    let found = openings(&mut solver);
    assert_eq!(found[0], (Some(1), "humph".to_string()));
    // The strong openers are listed even without a bounded cost.
    assert_eq!(found[1], (None, "alert".to_string()));
    assert_eq!(found[2], (None, "crane".to_string()));
}

#[test]
fn reports_count_their_searches() {
    let mut solver = twenty();
    run_bestopen(&mut solver);
    assert_eq!(solver.nodes(), 51);
    let mut solver = twenty();
    run_analysis(&mut solver, 20);
    assert_eq!(solver.nodes(), 4);
}

#[test]
fn no_opening_is_listed_twice() {
    let mut solver = twenty();
    let mut guesses: Vec<u32> = run_bestopen(&mut solver).iter().map(|o| o.guess).collect();
    guesses.sort();
    guesses.dedup();
    assert_eq!(guesses.len(), 10);
}

/// Three answers, six hundred guesses that tell the first answer from the others, and a better one
/// at a given place among them.
fn crowded(place: usize) -> Solver {
    let a = words("aaaaa bbbbb ccccc");
    let mut g = a.clone();
    for n in 0..600usize {
        let digit = |k: usize| (k % 10) as u8 + b'e';
        g.push([b'a', digit(n / 100), digit(n / 10), digit(n), b'z']);
    }
    g.insert(place, *b"czzzz");
    Solver::new(a, g, vec![5, 7, 100]).ok().unwrap()
}

#[test]
fn a_search_for_openings_ends_after_enough_guesses() {
    let best = [(129, "ccccc"), (222, "bbbbb"), (226, "aaaaa")];
    let found = openings(&mut crowded(20));
    assert_eq!(found[..3], expected(&best)[..]);
    assert_eq!(found[3], (Some(229), "czzzz".to_string()));
    // The three answers and 497 others come before the better guess.
    assert_eq!(openings(&mut crowded(499))[3], (Some(229), "czzzz".to_string()));
    let found = openings(&mut crowded(500));
    assert_eq!(found[..3], expected(&best)[..]);
    assert!(found[3..].iter().all(|o| o.0 == Some(231)));
    assert_eq!(found.len(), 10);
}

#[test]
fn the_rows_of_an_analysis() {
    let mut solver = twenty();
    let report = run_analysis(&mut solver, 20);
    let codes: Vec<u8> = report.rows.iter().map(|r| r.code).collect();
    assert_eq!(
        codes,
        vec![30, 32, 41, 43, 61, 70, 112, 115, 122, 138, 193, 222, 31, 111, 142, 202]
    );
    let row = &report.rows[14];
    assert_eq!(decode(row.code), "YGBGY");
    assert_eq!(row.size, 2);
    assert_eq!(row.weight, 17);
    assert_eq!(row.best, (Some(24), 17));
    assert_eq!(row.info, (Some(34), 2));
    assert_eq!(row.cand, (Some(24), 17));
    assert!(row.best_is_candidate);
    let single = &report.rows[1];
    assert_eq!((single.size, single.weight), (1, 2));
    assert_eq!(single.best, (Some(2), 8));
    assert_eq!(single.info, (Some(2), 0));
    assert_eq!(single.cand, (Some(2), 8));
}

#[test]
fn the_counts_of_an_analysis() {
    let mut solver = twenty();
    let report = run_analysis(&mut solver, 20);
    assert_eq!(report.candidates, 16);
    assert_eq!(report.equal_cand, 16);
    assert_eq!(report.equal_info, 1);
    assert_eq!(report.neither, 0);
}

#[test]
fn the_rows_hold_every_candidate_once() {
    let mut solver = twenty();
    for opener in [0u32, 3, 20, 24] {
        let report = run_analysis(&mut solver, opener);
        let rows: usize = report.rows.iter().map(|r| r.size).sum();
        let solved = if solver.column(opener).is_some() { 1 } else { 0 };
        assert_eq!(rows + solved, 20);
    }
}

#[test]
fn the_gaps_are_not_negative() {
    let mut solver = twenty();
    for opener in [0u32, 20, 23, 24] {
        for row in run_analysis(&mut solver, opener).rows.iter() {
            let best = row.best.0.unwrap();
            assert!(row.info.0.map_or(true, |c| best <= c));
            assert!(row.cand.0.map_or(true, |c| best <= c));
        }
    }
}

#[test]
fn a_probe_can_be_best() {
    let a = words("light night might right sight fight");
    let mut g = a.clone();
    g.extend(words("salet frlmn"));
    let mut solver = Solver::new(a, g, vec![1; 6]).ok().unwrap();
    let row = analyse(&mut solver, 0, &vec![0, 1, 2, 3, 4, 5]);
    assert_eq!(row.best, (Some(12), 7));
    assert_eq!(row.info, (Some(12), 7));
    assert_eq!(row.cand, (Some(21), 0));
    assert!(!row.best_is_candidate);
}

#[test]
fn the_hardest_rows_come_first() {
    let mut solver = twenty();
    let report = run_analysis(&mut solver, 20);
    let ranked = hardest(&report.rows);
    assert_eq!(ranked.len(), 16);
    // 24/17, 25/18, 16/12 and 10/8; the others take one guess, in their order.
    let places: Vec<usize> = ranked.iter().take(6).map(|h| h.pos).collect();
    assert_eq!(places, vec![14, 15, 12, 13, 0, 1]);
    assert_eq!((ranked[0].cost, ranked[0].weight), (Some(24), 17));
}

#[test]
fn letters_by_frequency() {
    let lines = vec!["abbey".to_string(), "babel".to_string()];
    let table = letter_counts(&lines);
    assert_eq!((table[0].letter, table[0].count), ('b', 4));
    let rest: Vec<u32> = table.iter().map(|t| t.count).collect();
    assert_eq!(rest, vec![4, 2, 2, 1, 1]);
    assert_eq!(total_count(&table), 10);
}

#[test]
fn every_character_of_a_line_is_counted() {
    let lines = vec!["a a\r".to_string(), String::new(), "\u{e9}".to_string()];
    let table = letter_counts(&lines);
    assert_eq!(table.len(), 4);
    assert_eq!((table[0].letter, table[0].count), ('a', 2));
    assert_eq!(total_count(&table), 5);
}

#[test]
fn no_lines_no_letters() {
    assert!(letter_counts(&Vec::new()).is_empty());
    assert_eq!(total_count(&Vec::new()), 0);
}
