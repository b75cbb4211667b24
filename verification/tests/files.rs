use wordle::lists::{parse_history, parse_list, History};
use wordle::prior::{apply_prior, recency, Recency, COOLDOWN, TAU};
use wordle::words::Word;

fn archive(words: &[&str]) -> String {
    let mut text = String::from("id,solution,print_date,days_since_launch,editor\n");
    for (i, w) in words.iter().enumerate() {
        text.push_str(&format!("{},{},2021-06-19,{},x\n", i, w, i));
    }
    text
}

/// A word of its own for every number.
fn numbered(n: usize) -> String {
    let mut w = String::new();
    let mut k = n;
    for _ in 0..5 {
        w.push((b'a' + (k % 26) as u8) as char);
        k /= 26;
    }
    w
}

#[test]
fn a_list_is_its_lines_that_are_words() {
    let text = "aback\nabase\n\nABATE\nabbe\nabbeys\nab\u{e9}e\nabbot";
    assert_eq!(parse_list(text), vec![*b"aback", *b"abase", *b"abbot"]);
}

#[test]
fn white_space_around_a_word_does_not_count() {
    assert_eq!(parse_list("  aback \r\nabase\r\n\tabbot\n"), vec![*b"aback", *b"abase", *b"abbot"]);
    assert_eq!(parse_list("aback abase\n"), Vec::<Word>::new());
}

#[test]
fn a_list_keeps_its_order_and_its_repeats() {
    assert_eq!(parse_list("zebra\naback\nzebra\n"), vec![*b"zebra", *b"aback", *b"zebra"]);
}

#[test]
fn an_empty_list() {
    assert_eq!(parse_list(""), Vec::<Word>::new());
    assert_eq!(parse_list("\n\n"), Vec::<Word>::new());
}

#[test]
fn ages_are_counted_back_from_the_next_game() {
    let history = parse_history(&archive(&["cigar", "rebut", "sissy"]));
    assert_eq!(history.age(b"sissy"), Some(1));
    assert_eq!(history.age(b"rebut"), Some(2));
    assert_eq!(history.age(b"cigar"), Some(3));
    assert_eq!(history.age(b"humph"), None);
}

#[test]
fn the_latest_use_of_a_word_counts() {
    let history = parse_history(&archive(&["cigar", "rebut", "cigar", "sissy"]));
    assert_eq!(history.age(b"cigar"), Some(2));
    assert_eq!(history.age(b"rebut"), Some(3));
}

#[test]
fn the_heading_and_lines_without_a_word_are_passed_over() {
    let text = "id,cigar\n1, rebut ,x\nno fields\n2,SISSY\n3,\n4,humph";
    let history = parse_history(text);
    assert_eq!(history.age(b"cigar"), None);
    assert_eq!(history.age(b"sissy"), None);
    assert_eq!(history.age(b"rebut"), Some(2));
    assert_eq!(history.age(b"humph"), Some(1));
}

#[test]
fn an_archive_without_answers() {
    assert_eq!(History::empty().age(b"cigar"), None);
    assert_eq!(parse_history("").age(b"cigar"), None);
    assert_eq!(parse_history("id,solution").age(b"cigar"), None);
}

#[test]
fn the_cooldown_is_inclusive() {
    assert_eq!(COOLDOWN, 500);
    assert_eq!(TAU, 800);
    assert!(matches!(recency(None), Recency::Never));
    assert!(matches!(recency(Some(1)), Recency::Cooling));
    assert!(matches!(recency(Some(500)), Recency::Cooling));
    assert!(matches!(recency(Some(501)), Recency::Recovering(1)));
    assert!(matches!(recency(Some(1300)), Recency::Recovering(800)));
}

#[test]
fn the_prior_drops_what_is_cooling_down() {
    // Game 0 was played 502 games ago, game 1 501 and game 2 500 games ago.
    let played: Vec<String> = (0..502).map(numbered).collect();
    let names: Vec<&str> = played.iter().map(|s| s.as_str()).collect();
    let history = parse_history(&archive(&names));
    let raw = parse_list(&[
        "zebra",
        names[2],
        names[1],
        names[501],
        names[0],
        "zesty",
    ].join("\n"));
    assert_eq!(history.age(&raw[1]), Some(500));
    let prior = apply_prior(&raw, &history);
    assert_eq!(prior.answers, vec![*b"zebra", raw[2], raw[4], *b"zesty"]);
    assert!(matches!(prior.recency[0], Recency::Never));
    assert!(matches!(prior.recency[1], Recency::Recovering(1)));
    assert!(matches!(prior.recency[2], Recency::Recovering(2)));
    assert!(matches!(prior.recency[3], Recency::Never));
    assert_eq!((prior.excluded, prior.recovering, prior.never_used), (2, 2, 2));
}

#[test]
fn the_latest_answer_is_dropped() {
    let history = parse_history(&archive(&["cigar", "rebut"]));
    let prior = apply_prior(&parse_list("rebut\nhumph\n"), &history);
    assert_eq!(prior.answers, vec![*b"humph"]);
    assert_eq!(prior.excluded, 1);
}

#[test]
fn without_a_past_nothing_is_dropped() {
    let raw = parse_list("aback\nabase\n");
    let prior = apply_prior(&raw, &History::empty());
    assert_eq!(prior.answers, raw);
    assert_eq!((prior.excluded, prior.recovering, prior.never_used), (0, 0, 2));
}
