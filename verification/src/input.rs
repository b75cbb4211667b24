//! What a player types after a guess.

use vstd::prelude::*;
use vstd::string::*;
use vstd::utf8::*;
use crate::text;
use crate::text::{lowercase, split, to_chars, Separator};
use crate::words;
use crate::words::{parse_word, Word};

verus! {

/// What a line of input asks for.
pub enum Parsed {
    /// To stop.
    Quit,
    /// To take note of a guess and the pattern that it showed.
    Move { guess: Word, fb: u8 },
}

/// The colour that a letter stands for.
pub open spec fn letter_colour(c: char) -> Option<int> {
    if c == 'g' {
        Some(2)
    } else if c == 'y' {
        Some(1)
    } else if c == 'b' {
        Some(0)
    } else {
        None
    }
}

/// The pattern that a text of five colour letters writes.
pub open spec fn pattern_of(s: Seq<char>) -> Option<int> {
    if s.len() == 5 && forall|i: int| 0 <= i < 5 ==> letter_colour(#[trigger] s[i]) is Some {
        Some(words::base3(Seq::new(5, |i: int| letter_colour(s[i])->0)))
    } else {
        None
    }
}

/// The word that a text of five letters writes.
pub open spec fn word_of(s: Seq<char>) -> Option<Seq<u8>> {
    if words::is_word(encode_utf8(s)) {
        Some(encode_utf8(s))
    } else {
        None
    }
}

/// Reads a pattern: five letters, each `g`, `y` or `b`.
pub fn parse_pattern(s: &str) -> (r: Option<u8>)
    ensures
        match r {
            Some(code) => pattern_of(s@) == Some(code as int) && code < 243,
            None => pattern_of(s@) is None,
        },
{
    let chars = to_chars(s);
    if s.as_bytes().len() != 5 {
        proof {
            if pattern_of(s@) is Some {
                lemma_pattern_ascii(s@);
            }
        }
        return None;
    }
    let mut code: u8 = 0;
    let mut i: usize = 0;
    let ghost d = Seq::new(5, |i: int| letter_colour(s@[i])->0);
    while i < chars.len()
        invariant
            chars@ == s@,
            encode_utf8(s@).len() == 5,
            d == Seq::new(5, |i: int| letter_colour(s@[i])->0),
            i <= chars@.len(),
            i <= 5,
            forall|k: int| 0 <= k < i ==> letter_colour(#[trigger] s@[k]) is Some,
            code == if i == 0 {
                0
            } else if i == 1 {
                d[0]
            } else if i == 2 {
                3 * d[0] + d[1]
            } else if i == 3 {
                9 * d[0] + 3 * d[1] + d[2]
            } else if i == 4 {
                27 * d[0] + 9 * d[1] + 3 * d[2] + d[3]
            } else {
                words::base3(d)
            },
        decreases chars@.len() - i,
    {
        let c = chars[i];
        let v: u8 = if c == 'g' {
            2
        } else if c == 'y' {
            1
        } else if c == 'b' {
            0
        } else {
            assert(letter_colour(s@[i as int]) is None);
            return None;
        };
        proof {
            assert(letter_colour(s@[i as int]) is Some);
            if i == 5 {
                lemma_five_letters(s@, 6);
            }
            assert(d[i as int] == v);
        }
        code = code * 3 + v;
        i = i + 1;
    }
    proof {
        lemma_five_letters(s@, i as int);
    }
    Some(code)
}

/// A text of colour letters has as many bytes as letters.
proof fn lemma_five_letters(s: Seq<char>, n: int)
    requires
        0 <= n <= s.len(),
        forall|k: int| 0 <= k < n ==> letter_colour(#[trigger] s[k]) is Some,
    ensures
        encode_utf8(s).len() >= n,
        n == s.len() ==> encode_utf8(s).len() == n,
    decreases n,
{
    let t = s.take(n);
    assert(is_ascii_chars(t));
    is_ascii_chars_encode_utf8(t);
    if n == s.len() {
        assert(t =~= s);
    } else {
        lemma_encode_longer(s, n);
    }
}

/// Encoding more characters never takes fewer bytes.
proof fn lemma_encode_longer(s: Seq<char>, n: int)
    requires
        0 <= n <= s.len(),
    ensures
        encode_utf8(s).len() >= encode_utf8(s.take(n)).len(),
    decreases s.len(),
{
    if n > 0 {
        assert(s.take(n).drop_first() =~= s.drop_first().take(n - 1));
        lemma_encode_longer(s.drop_first(), n - 1);
    } else {
        assert(s.take(0).len() == 0);
    }
}

proof fn lemma_pattern_ascii(s: Seq<char>)
    requires
        pattern_of(s) is Some,
    ensures
        encode_utf8(s).len() == 5,
{
    lemma_five_letters(s, 5);
}

/// How a line is understood: to stop, a pattern for the guess that was proposed, or a word and a
/// pattern.
pub enum Reading {
    Quit,
    Pattern(int),
    Both(Seq<u8>, int),
}

/// Whether a token asks to stop.
pub open spec fn is_quit(s: Seq<char>) -> bool {
    s == "q"@ || s == "quit"@ || s == "exit"@
}

/// How a list of lowercase tokens is understood. Two tokens are a word and a pattern in either
/// order; if both orders fit, the word comes first.
pub open spec fn reading(toks: Seq<Seq<char>>) -> Option<Reading> {
    if toks.len() == 1 {
        if is_quit(toks[0]) {
            Some(Reading::Quit)
        } else {
            match pattern_of(toks[0]) {
                Some(p) => Some(Reading::Pattern(p)),
                None => None,
            }
        }
    } else if toks.len() == 2 {
        match (word_of(toks[0]), pattern_of(toks[1])) {
            (Some(w), Some(p)) => Some(Reading::Both(w, p)),
            _ => match (pattern_of(toks[0]), word_of(toks[1])) {
                (Some(p), Some(w)) => Some(Reading::Both(w, p)),
                _ => None,
            },
        }
    } else {
        None
    }
}

/// What the reading of a line comes to, given the guess that was proposed.
pub open spec fn means(r: Option<Parsed>, m: Option<Reading>, default_guess: Word) -> bool {
    match r {
        None => m is None,
        Some(Parsed::Quit) => m == Some(Reading::Quit),
        Some(Parsed::Move { guess, fb }) => {
            &&& fb < 243
            &&& m == Some(Reading::Pattern(fb as int)) && guess == default_guess || m == Some(
                Reading::Both(guess@, fb as int),
            ) && words::is_word(guess@)
        },
    }
}

/// The characters of each string of a list.
pub open spec fn texts(toks: Seq<String>) -> Seq<Seq<char>> {
    Seq::new(toks.len(), |i: int| toks[i]@)
}

fn asks_to_quit(s: &str) -> (r: bool)
    ensures
        r == is_quit(s@),
{
    let t = s.to_string();
    t == "q".to_string() || t == "quit".to_string() || t == "exit".to_string()
}

/// Understands a list of lowercase tokens.
pub fn parse_tokens(toks: &Vec<String>, default_guess: &Word) -> (r: Option<Parsed>)
    ensures
        means(r, reading(texts(toks@)), *default_guess),
{
    let ghost t = texts(toks@);
    if toks.len() == 1 {
        let tok = toks[0].as_str();
        assert(tok@ == t[0]);
        if asks_to_quit(tok) {
            return Some(Parsed::Quit);
        }
        match parse_pattern(tok) {
            Some(fb) => Some(Parsed::Move { guess: *default_guess, fb }),
            None => None,
        }
    } else if toks.len() == 2 {
        let first = toks[0].as_str();
        let second = toks[1].as_str();
        assert(first@ == t[0] && second@ == t[1]);
        match (parse_word(first), parse_pattern(second)) {
            (Some(w), Some(fb)) => {
                return Some(Parsed::Move { guess: w, fb });
            },
            _ => {},
        }
        match (parse_pattern(first), parse_word(second)) {
            (Some(fb), Some(w)) => Some(Parsed::Move { guess: w, fb }),
            _ => None,
        }
    } else {
        None
    }
}

/// The tokens of a line: its pieces between white space, without the empty ones, in lowercase.
pub open spec fn tokens(line: Seq<char>) -> Seq<Seq<char>> {
    text::pieces(line, Separator::Space).filter(|t: Seq<char>| t.len() > 0).map_values(
        |t: Seq<char>| text::lowercase_of(t),
    )
}

/// The tokens of a line of ASCII characters.
pub open spec fn ascii_tokens(line: Seq<char>) -> Seq<Seq<char>> {
    text::pieces(line, Separator::Space).filter(|t: Seq<char>| t.len() > 0).map_values(
        |t: Seq<char>| text::ascii_lower(t),
    )
}

/// Understands a line of input. The line asks to stop, gives the pattern of the proposed guess,
/// or gives a word and its pattern; letters may be upper or lower case.
pub fn parse_input(line: &str, default_guess: &Word) -> (r: Option<Parsed>)
    ensures
        means(r, reading(tokens(line@)), *default_guess),
        is_ascii_chars(line@) ==> means(r, reading(ascii_tokens(line@)), *default_guess),
{
    let chars = to_chars(line);
    let n = chars.len();
    let parts = split(&chars, 0, n, Separator::Space);
    let ghost all = text::pieces(line@, Separator::Space);
    let ghost f = |t: Seq<char>| t.len() > 0;
    let ghost m = |t: Seq<char>| text::lowercase_of(t);
    let ghost l = |t: Seq<char>| text::ascii_lower(t);
    let mut toks: Vec<String> = Vec::new();
    let mut i: usize = 0;
    proof {
        assert(chars@.subrange(0, n as int) =~= line@);
        assert(texts(toks@) =~= all.take(0).filter(f).map_values(m)) by {
            reveal(Seq::filter);
        }
        assert(texts(toks@) =~= all.take(0).filter(f).map_values(l)) by {
            reveal(Seq::filter);
        }
    }
    while i < parts.len()
        invariant
            chars@ == line@,
            n == chars@.len(),
            all == text::pieces(line@, Separator::Space),
            f == (|t: Seq<char>| t.len() > 0),
            m == (|t: Seq<char>| text::lowercase_of(t)),
            l == (|t: Seq<char>| text::ascii_lower(t)),
            parts@.len() == all.len(),
            forall|k: int|
                0 <= k < parts@.len() ==> {
                    let (a, b) = #[trigger] parts@[k];
                    a <= b <= n && line@.subrange(a as int, b as int) == all[k]
                },
            i <= parts@.len(),
            texts(toks@) == all.take(i as int).filter(f).map_values(m),
            is_ascii_chars(line@) ==> texts(toks@) == all.take(i as int).filter(f).map_values(l),
        decreases parts@.len() - i,
    {
        let (a, b) = parts[i];
        assert(line@.subrange(a as int, b as int) == all[i as int]);
        let ghost before = toks@;
        if a < b {
            let t = lowercase(line.substring_char(a, b));
            toks.push(t);
        }
        proof {
            reveal(Seq::filter);
            let now = all.take(i + 1);
            assert(now.drop_last() =~= all.take(i as int));
            assert(now.last() == all[i as int]);
            if a < b {
                assert(f(now.last()));
                assert(now.filter(f) =~= all.take(i as int).filter(f).push(all[i as int]));
                assert(texts(toks@) =~= texts(before).push(text::lowercase_of(all[i as int])));
                if is_ascii_chars(line@) {
                    assert(is_ascii_chars(all[i as int]));
                    assert(texts(toks@) =~= texts(before).push(text::ascii_lower(all[i as int])));
                }
            } else {
                assert(!f(now.last()));
                assert(now.filter(f) =~= all.take(i as int).filter(f));
            }
            assert(texts(toks@) =~= now.filter(f).map_values(m));
            if is_ascii_chars(line@) {
                assert(texts(toks@) =~= now.filter(f).map_values(l));
            }
        }
        i = i + 1;
    }
    proof {
        assert(all.take(i as int) =~= all);
    }
    parse_tokens(&toks, default_guess)
}

/// A pattern that is written out reads back: its letters, in lowercase, are the pattern, and the
/// letters of a pattern that was read are those that were typed.
pub proof fn law_pattern_round_trip(code: int, s: Seq<char>)
    requires
        0 <= code < 243,
    ensures
        pattern_of(text::ascii_lower(words::pattern_letters(code))) == Some(code),
        pattern_of(s) == Some(code) ==> s == text::ascii_lower(words::pattern_letters(code)),
{
    let d = words::digits3(code);
    let w = words::pattern_letters(code);
    let t = text::ascii_lower(w);
    words::lemma_digits3(code);
    assert forall|i: int| 0 <= i < 5 implies letter_colour(#[trigger] t[i]) == Some(d[i]) by {
        assert(0 <= d[i] < 3);
        assert(w[i] == words::colour_letter(d[i]));
    }
    assert(Seq::new(5, |i: int| letter_colour(t[i])->0) =~= d);
    if pattern_of(s) == Some(code) {
        let e = Seq::new(5, |i: int| letter_colour(s[i])->0);
        assert(forall|i: int| 0 <= i < 5 ==> 0 <= #[trigger] e[i] < 3);
        words::lemma_base3(e);
        assert(e == d);
        assert forall|i: int| 0 <= i < 5 implies s[i] == t[i] by {
            assert(letter_colour(s[i])->0 == e[i]);
            assert(letter_colour(t[i]) == Some(d[i]));
        }
        assert(s =~= t);
    }
}

/// A word and a pattern may come in either order, unless each of the two could be both.
pub proof fn law_either_order(w: Seq<char>, p: Seq<char>)
    requires
        word_of(w) is Some,
        pattern_of(p) is Some,
        !(pattern_of(w) is Some && word_of(p) is Some),
    ensures
        reading(seq![w, p]) == Some(Reading::Both(word_of(w)->0, pattern_of(p)->0)),
        reading(seq![p, w]) == reading(seq![w, p]),
{
}

/// Which texts are patterns, and which numbers they write: five letters, each `g` for 2, `y` for 1
/// or `b` for 0, are the digits of the number in base three.
pub proof fn law_pattern_text(s: Seq<char>)
    ensures
        pattern_of(s) is Some <==> s.len() == 5 && forall|i: int|
            0 <= i < 5 ==> #[trigger] s[i] == 'g' || s[i] == 'y' || s[i] == 'b',
        pattern_of(s) matches Some(p) ==> {
            let v = |c: char|
                if c == 'g' {
                    2int
                } else if c == 'y' {
                    1int
                } else {
                    0int
                };
            p == 81 * v(s[0]) + 27 * v(s[1]) + 9 * v(s[2]) + 3 * v(s[3]) + v(s[4])
        },
{
    if s.len() == 5 && forall|i: int|
        0 <= i < 5 ==> #[trigger] s[i] == 'g' || s[i] == 'y' || s[i] == 'b' {
        assert forall|i: int| 0 <= i < 5 implies letter_colour(#[trigger] s[i]) is Some by {}
    }
    if pattern_of(s) is Some {
        assert forall|i: int| 0 <= i < 5 implies #[trigger] s[i] == 'g' || s[i] == 'y' || s[i]
            == 'b' by {
            assert(letter_colour(s[i]) is Some);
        }
    }
}

/// Which texts are words: those of five letters from `a` to `z`, each standing for its own byte.
pub proof fn law_word_text(s: Seq<char>)
    ensures
        word_of(s) is Some <==> s.len() == 5 && forall|i: int|
            0 <= i < 5 ==> 'a' <= #[trigger] s[i] && s[i] <= 'z',
        word_of(s) matches Some(w) ==> w.len() == 5 && forall|i: int|
            0 <= i < 5 ==> #[trigger] w[i] == s[i] as u8,
{
    let b = encode_utf8(s);
    if s.len() == 5 && forall|i: int| 0 <= i < 5 ==> 'a' <= #[trigger] s[i] && s[i] <= 'z' {
        assert(is_ascii_chars(s));
        is_ascii_chars_encode_utf8(s);
        assert forall|i: int| 0 <= i < 5 implies words::is_letter(#[trigger] b[i]) by {
            assert('a' <= s[i] && s[i] <= 'z');
            assert(s[i] as u8 == b[i]);
        }
    }
    if words::is_word(b) {
        assert forall|i: int| 0 <= i < b.len() implies #[trigger] b[i] < 128 by {
            assert(words::is_letter(b[i]));
        }
        text::lemma_ascii(b);
        assert(s == text::as_chars(b));
        assert forall|i: int| 0 <= i < 5 implies 'a' <= #[trigger] s[i] && s[i] <= 'z' by {
            assert(words::is_letter(b[i]));
        }
    }
}

/// How one token is understood: it asks to stop exactly if it is "q", "quit" or "exit"; every
/// pattern is the pattern of the proposed guess; and nothing else has a meaning.
pub proof fn law_one_token(t: Seq<char>, p: int)
    ensures
        reading(seq![t]) == Some(Reading::Quit) <==> t == "q"@ || t == "quit"@ || t == "exit"@,
        reading(seq![t]) == Some(Reading::Pattern(p)) <==> pattern_of(t) == Some(p),
        reading(seq![t]) is None <==> pattern_of(t) is None && t != "q"@ && t != "quit"@ && t
            != "exit"@,
{
    reveal_strlit("q");
    reveal_strlit("quit");
    reveal_strlit("exit");
    law_pattern_text(t);
    assert(seq![t].len() == 1 && seq![t][0] == t);
    assert("q"@.len() == 1 && "quit"@.len() == 4 && "exit"@.len() == 4);
}

/// How two tokens are understood: as a word and a pattern if they are that; else as a pattern and a
/// word if they are that; else not at all.
pub proof fn law_two_tokens(t: Seq<char>, u: Seq<char>, w: Seq<u8>, p: int)
    ensures
        reading(seq![t, u]) == Some(Reading::Both(w, p)) <==> (word_of(t) == Some(w) && pattern_of(
            u,
        ) == Some(p)) || (!(word_of(t) is Some && pattern_of(u) is Some) && pattern_of(t) == Some(
            p,
        ) && word_of(u) == Some(w)),
        reading(seq![t, u]) is None <==> !(word_of(t) is Some && pattern_of(u) is Some) && !(
        pattern_of(t) is Some && word_of(u) is Some),
        reading(seq![t, u]) is Some ==> reading(seq![t, u])->0 is Both,
{
    let s = seq![t, u];
    assert(s.len() == 2 && s[0] == t && s[1] == u);
}

/// No tokens, and more than two, have no meaning.
pub proof fn law_other_tokens(toks: Seq<Seq<char>>)
    requires
        toks.len() == 0 || toks.len() > 2,
    ensures
        reading(toks) is None,
{
}

/// What is returned for each way a line is understood, and for nothing else.
pub proof fn law_meaning(r: Option<Parsed>, m: Option<Reading>, default_guess: Word)
    requires
        means(r, m, default_guess),
    ensures
        r is None <==> m is None,
        r == Some(Parsed::Quit) <==> m == Some(Reading::Quit),
        m matches Some(Reading::Pattern(p)) ==> r is Some && r->0 is Move && r->0->guess
            == default_guess && r->0->fb == p,
        m matches Some(Reading::Both(w, p)) ==> r is Some && r->0 is Move && r->0->guess@ == w
            && r->0->fb == p,
{
}

/// A line of one token without white space, of two parts with white space between them, and an
/// empty line: what the tokens are of any line.
pub proof fn law_tokens(a: Seq<char>, c: char, b: Seq<char>)
    requires
        text::is_space(c),
    ensures
        tokens(Seq::empty()) == Seq::<Seq<char>>::empty(),
        ascii_tokens(Seq::empty()) == Seq::<Seq<char>>::empty(),
        tokens(a.push(c) + b) == tokens(a) + tokens(b),
        ascii_tokens(a.push(c) + b) == ascii_tokens(a) + ascii_tokens(b),
        a.len() > 0 && (forall|i: int| 0 <= i < a.len() ==> !text::is_space(#[trigger] a[i]))
            ==> tokens(a) == seq![text::lowercase_of(a)] && ascii_tokens(a) == seq![
            text::ascii_lower(a),
        ],
{
    let sep = Separator::Space;
    let f = |t: Seq<char>| t.len() > 0;
    let m = |t: Seq<char>| text::lowercase_of(t);
    let l = |t: Seq<char>| text::ascii_lower(t);
    let none = Seq::<char>::empty();
    text::law_pieces_join(a, c, b, sep);
    Seq::filter_distributes_over_add(text::pieces(a, sep), text::pieces(b, sep), f);
    let (x, y) = (text::pieces(a, sep).filter(f), text::pieces(b, sep).filter(f));
    assert((x + y).map_values(m) =~= x.map_values(m) + y.map_values(m));
    assert((x + y).map_values(l) =~= x.map_values(l) + y.map_values(l));
    reveal(Seq::filter);
    reveal_with_fuel(Seq::filter, 3);
    text::law_pieces_plain(none, sep);
    assert(seq![none].drop_last() =~= Seq::empty());
    assert(seq![none].filter(f) =~= Seq::empty());
    assert(tokens(none) =~= Seq::empty());
    assert(ascii_tokens(none) =~= Seq::empty());
    if a.len() > 0 && forall|i: int| 0 <= i < a.len() ==> !text::is_space(#[trigger] a[i]) {
        text::law_pieces_plain(a, sep);
        assert(seq![a].drop_last() =~= Seq::empty());
        assert(seq![a].filter(f) =~= seq![a]);
        assert(tokens(a) =~= seq![text::lowercase_of(a)]);
        assert(ascii_tokens(a) =~= seq![text::ascii_lower(a)]);
    }
}

} // verus!
