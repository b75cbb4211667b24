use wordle::input::{parse_input, parse_pattern, parse_tokens, Parsed};
use wordle::text::{is_whitespace, split, to_chars, trim, Separator};
use wordle::words::{decode, Word};

fn played(line: &str) -> Option<(Word, u8)> {
    match parse_input(line, b"salet") {
        Some(Parsed::Move { guess, fb }) => Some((guess, fb)),
        _ => None,
    }
}

fn quits(line: &str) -> bool {
    matches!(parse_input(line, b"salet"), Some(Parsed::Quit))
}

fn refused(line: &str) -> bool {
    parse_input(line, b"salet").is_none()
}

fn pieces(s: &str, sep: Separator) -> Vec<String> {
    let chars = to_chars(s);
    split(&chars, 0, chars.len(), sep)
        .iter()
        .map(|&(a, b)| chars[a..b].iter().collect())
        .collect()
}

#[test]
fn patterns() {
    assert_eq!(parse_pattern("bbbbb"), Some(0));
    assert_eq!(parse_pattern("bybbg"), Some(29));
    assert_eq!(parse_pattern("gybbg"), Some(191));
    assert_eq!(parse_pattern("ggggg"), Some(242));
}

#[test]
fn texts_that_are_no_pattern() {
    assert_eq!(parse_pattern(""), None);
    assert_eq!(parse_pattern("bybb"), None);
    assert_eq!(parse_pattern("bybbgg"), None);
    assert_eq!(parse_pattern("bybbx"), None);
    assert_eq!(parse_pattern("BYBBG"), None);
    assert_eq!(parse_pattern("gg\u{e9}g"), None);
    assert_eq!(parse_pattern("\u{e9}\u{e9}\u{e9}\u{e9}\u{e9}"), None);
}

#[test]
fn patterns_read_back() {
    for code in 0..243u8 {
        assert_eq!(parse_pattern(&decode(code).to_lowercase()), Some(code));
    }
}

#[test]
fn a_pattern_alone_is_for_the_proposed_guess() {
    assert_eq!(played("bybbg"), Some((*b"salet", 29)));
    assert_eq!(played("  BYBBG \n"), Some((*b"salet", 29)));
    assert_eq!(played("bYbBg\r\n"), Some((*b"salet", 29)));
}

#[test]
fn a_word_and_a_pattern_come_in_either_order() {
    assert_eq!(played("CRANE BYBBG"), Some((*b"crane", 29)));
    assert_eq!(played("bybbg crane"), Some((*b"crane", 29)));
    assert_eq!(played("\tcrane\t bybbg\n"), Some((*b"crane", 29)));
}

#[test]
fn of_two_texts_that_could_be_both_the_word_comes_first() {
    assert_eq!(played("byggy bybbg"), Some((*b"byggy", 29)));
    assert_eq!(played("bybbg byggy"), Some((*b"bybbg", 52)));
}

#[test]
fn asking_to_stop() {
    assert!(quits("q"));
    assert!(quits("QUIT\n"));
    assert!(quits("  Exit  "));
    assert!(!quits("quits"));
    assert!(!quits("q q"));
}

#[test]
fn lines_without_a_meaning() {
    assert!(refused(""));
    assert!(refused("   \n"));
    assert!(refused("crane"));
    assert!(refused("bybb"));
    assert!(refused("crane crane"));
    assert!(refused("cranes bybbg"));
    assert!(refused("crane bybbg now"));
    assert!(refused("q bybbg"));
}

#[test]
fn letters_of_other_alphabets_have_their_lowercase_form() {
    // The Kelvin sign is a "k" in lowercase.
    assert_eq!(played("\u{212a}NIFE bybbg"), Some((*b"knife", 29)));
    // A dotted capital "I" is two characters in lowercase.
    assert!(refused("KN\u{130}FE bybbg"));
    assert!(refused("\u{c4}CHER bybbg"));
}

#[test]
fn any_white_space_separates() {
    assert_eq!(played("crane\u{a0}bybbg"), Some((*b"crane", 29)));
    assert_eq!(played("\u{3000}crane\u{2003}bybbg\u{85}"), Some((*b"crane", 29)));
    assert!(refused("crane\u{200b}bybbg"));
}

#[test]
fn white_space_is_that_of_unicode() {
    for x in 0..=0x10ffffu32 {
        if let Some(c) = char::from_u32(x) {
            assert_eq!(is_whitespace(c), c.is_whitespace());
        }
    }
}

#[test]
fn tokens_are_taken_as_they_stand() {
    let guess = *b"salet";
    let toks = vec!["crane".to_string(), "ggggg".to_string()];
    assert!(matches!(
        parse_tokens(&toks, &guess),
        Some(Parsed::Move { guess: [b'c', b'r', b'a', b'n', b'e'], fb: 242 })
    ));
    let upper = vec!["GGGGG".to_string()];
    assert!(parse_tokens(&upper, &guess).is_none());
    assert!(parse_tokens(&Vec::new(), &guess).is_none());
}

#[test]
fn splitting_keeps_empty_pieces() {
    assert_eq!(pieces("a,,b,", Separator::Char(',')), vec!["a", "", "b", ""]);
    assert_eq!(pieces("", Separator::Char(',')), vec![""]);
    assert_eq!(pieces(" a  b", Separator::Space), vec!["", "a", "", "b"]);
}

#[test]
fn trimming_takes_white_space_off_both_ends() {
    let chars = to_chars(" \t ab c\u{a0}\r");
    assert_eq!(trim(&chars, 0, chars.len()), (3, 7));
    let blank = to_chars("  ");
    let (a, b) = trim(&blank, 0, 2);
    assert_eq!(a, b);
}
