use wordle::words::{decode, feedback, parse_word, word_str, Word, GREEN, NP};

fn colours(guess: &Word, answer: &Word) -> String {
    decode(feedback(guess, answer))
}

#[test]
fn all_green() {
    assert_eq!(feedback(b"salet", b"salet"), 242);
    assert_eq!(feedback(b"salet", b"salet"), GREEN);
    assert_eq!(NP, 243);
}

#[test]
fn no_letter_in_common() {
    assert_eq!(feedback(b"fghij", b"crane"), 0);
}

#[test]
fn codes_are_base_three() {
    assert_eq!(feedback(b"salet", b"crane"), 30);
    assert_eq!(colours(b"salet", b"crane"), "BYBYB");
    assert_eq!(feedback(b"speed", b"abide"), 10);
    assert_eq!(feedback(b"speed", b"steal"), 180);
}

#[test]
fn repeated_letters_are_coloured_as_often_as_they_occur() {
    assert_eq!(colours(b"speed", b"abide"), "BBYBY");
    assert_eq!(colours(b"speed", b"erase"), "YBYYB");
    assert_eq!(colours(b"speed", b"steal"), "GBGBB");
    assert_eq!(colours(b"speed", b"crepe"), "BYGYB");
    assert_eq!(colours(b"llama", b"label"), "GYYBB");
    assert_eq!(colours(b"geese", b"eerie"), "BGYBG");
}

#[test]
fn a_green_uses_up_its_letter_before_any_yellow() {
    // The last "e" is green, so that the first two find no "e" left.
    assert_eq!(colours(b"eerie", b"crane"), "BBYBG");
}

#[test]
fn a_letter_is_coloured_as_often_as_both_words_hold_it() {
    for (guess, answer) in [
        (b"geese", b"eerie"),
        (b"llama", b"label"),
        (b"speed", b"crepe"),
        (b"mamma", b"maxim"),
    ] {
        let pattern = colours(guess, answer);
        for letter in b'a'..=b'z' {
            let in_guess = guess.iter().filter(|&&b| b == letter).count();
            let in_answer = answer.iter().filter(|&&b| b == letter).count();
            let coloured = (0..5)
                .filter(|&i| guess[i] == letter && pattern.as_bytes()[i] != b'B')
                .count();
            assert_eq!(coloured, in_guess.min(in_answer));
        }
    }
}

#[test]
fn every_pattern_is_written_with_five_letters() {
    assert_eq!(decode(0), "BBBBB");
    assert_eq!(decode(1), "BBBBY");
    assert_eq!(decode(2), "BBBBG");
    assert_eq!(decode(81), "YBBBB");
    assert_eq!(decode(242), "GGGGG");
}

#[test]
fn numbers_beyond_the_patterns_keep_their_last_five_digits() {
    assert_eq!(decode(243), "BBBBB");
    assert_eq!(decode(255), "BBYYB");
}

#[test]
fn words_as_strings() {
    assert_eq!(word_str(b"crane"), "crane");
    assert_eq!(word_str(b"A b.9"), "A b.9");
}

#[test]
fn strings_as_words() {
    assert_eq!(parse_word("crane"), Some(*b"crane"));
    assert_eq!(parse_word("Crane"), None);
    assert_eq!(parse_word("crans "), None);
    assert_eq!(parse_word("cran"), None);
    assert_eq!(parse_word("cranes"), None);
    assert_eq!(parse_word(""), None);
    assert_eq!(parse_word("cr\u{e4}n"), None);
    assert_eq!(parse_word("cr4ne"), None);
}

#[test]
fn words_read_back() {
    assert_eq!(parse_word(&word_str(b"zebra")), Some(*b"zebra"));
}

#[test]
fn swapping_guess_and_answer_keeps_greens_and_the_number_of_yellows() {
    let list = [b"geese", b"eerie", b"llama", b"label", b"speed", b"crepe", b"mamma", b"maxim"];
    for x in list {
        for y in list {
            let (p, q) = (colours(x, y), colours(y, x));
            for i in 0..5 {
                assert_eq!(p.as_bytes()[i] == b'G', q.as_bytes()[i] == b'G');
            }
            assert_eq!(p.matches('Y').count(), q.matches('Y').count());
        }
    }
}
