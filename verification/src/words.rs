//! Words, and the colours that a guess earns against an answer.

use vstd::prelude::*;
use vstd::utf8::*;
use crate::text;
use crate::text::string_from;

verus! {

/// A five-letter word, one byte per letter.
pub type Word = [u8; 5];

/// Number of feedback patterns: three colours in each of five places.
pub const NP: usize = 243;

/// The pattern of five greens.
pub const GREEN: u8 = 242;

/// The byte of the letter `a`.
pub const LETTER_A: u8 = 97;

/// Whether a byte is one of the letters `a` to `z`.
pub open spec fn is_letter(b: u8) -> bool {
    97 <= b <= 122
}

/// Whether a sequence of bytes is five letters from `a` to `z`.
pub open spec fn is_word(w: Seq<u8>) -> bool {
    w.len() == 5 && forall|i: int| 0 <= i < 5 ==> is_letter(#[trigger] w[i])
}

/// Whether the two words can be scored: wherever they differ, both hold a letter.
pub open spec fn scorable(guess: Seq<u8>, answer: Seq<u8>) -> bool {
    &&& guess.len() == 5
    &&& answer.len() == 5
    &&& forall|i: int|
        #![trigger guess[i]]
        #![trigger answer[i]]
        0 <= i < 5 ==> guess[i] == answer[i] || (is_letter(guess[i]) && is_letter(answer[i]))
}

/// How many of the first `n` places hold `letter` in `word` and differ between the two words.
pub open spec fn unmatched(
    word: Seq<u8>,
    guess: Seq<u8>,
    answer: Seq<u8>,
    letter: u8,
    n: int,
) -> nat
    decreases n,
{
    if n <= 0 {
        0
    } else {
        unmatched(word, guess, answer, letter, n - 1) + if guess[n - 1] != answer[n - 1] && word[n
            - 1] == letter {
            1nat
        } else {
            0nat
        }
    }
}

/// The colour of place `i`: 2 (green) where the letters agree; 1 (yellow) where the guessed
/// letter stands somewhere else in the answer, and the unmatched copies of it there are not used
/// up by earlier unmatched places of the guess; 0 (gray) otherwise.
pub open spec fn colour(guess: Seq<u8>, answer: Seq<u8>, i: int) -> int {
    if guess[i] == answer[i] {
        2
    } else if unmatched(guess, guess, answer, guess[i], i) < unmatched(
        answer,
        guess,
        answer,
        guess[i],
        5,
    ) {
        1
    } else {
        0
    }
}

/// The number that five base-three digits write, the first digit most significant.
pub open spec fn base3(d: Seq<int>) -> int {
    81 * d[0] + 27 * d[1] + 9 * d[2] + 3 * d[3] + d[4]
}

/// The colours of all five places.
pub open spec fn colours(guess: Seq<u8>, answer: Seq<u8>) -> Seq<int> {
    Seq::new(5, |i: int| colour(guess, answer, i))
}

/// The pattern of a guess against an answer, as a base-three number.
pub open spec fn pattern(guess: Seq<u8>, answer: Seq<u8>) -> int {
    base3(colours(guess, answer))
}

/// Scores a guess against an answer.
pub fn feedback(guess: &Word, answer: &Word) -> (code: u8)
    requires
        scorable(guess@, answer@),
    ensures
        code == pattern(guess@, answer@),
        code < NP,
{
    let mut res: [u8; 5] = [0u8; 5];
    let mut counts: [u8; 26] = [0u8; 26];
    let mut i: usize = 0;
    while i < 5
        invariant
            i <= 5,
            scorable(guess@, answer@),
            forall|k: int|
                0 <= k < i ==> #[trigger] res@[k] == if guess@[k] == answer@[k] {
                    2u8
                } else {
                    0u8
                },
            forall|k: int| i <= k < 5 ==> #[trigger] res@[k] == 0,
            forall|l: u8|
                is_letter(l) ==> counts@[l - 97] == #[trigger] unmatched(
                    answer@,
                    guess@,
                    answer@,
                    l,
                    i as int,
                ),
            forall|l: u8| #[trigger] unmatched(answer@, guess@, answer@, l, i as int) <= i,
        decreases 5 - i,
    {
        proof {
            assert forall|l: u8| true implies #[trigger] unmatched(
                answer@,
                guess@,
                answer@,
                l,
                i + 1,
            ) == unmatched(answer@, guess@, answer@, l, i as int) + if guess@[i as int]
                != answer@[i as int] && answer@[i as int] == l {
                1nat
            } else {
                0nat
            } by {}
        }
        if guess[i] == answer[i] {
            res[i] = 2;
        } else {
            let c: usize = (answer[i] - LETTER_A) as usize;
            assert(counts@[c as int] == unmatched(
                answer@,
                guess@,
                answer@,
                answer@[i as int],
                i as int,
            ));
            counts[c] = counts[c] + 1;
        }
        i = i + 1;
    }
    i = 0;
    while i < 5
        invariant
            i <= 5,
            scorable(guess@, answer@),
            forall|k: int| 0 <= k < i ==> #[trigger] res@[k] == colour(guess@, answer@, k),
            forall|k: int|
                i <= k < 5 ==> #[trigger] res@[k] == if guess@[k] == answer@[k] {
                    2u8
                } else {
                    0u8
                },
            forall|l: u8|
                is_letter(l) ==> counts@[l - 97] == {
                    let have = #[trigger] unmatched(answer@, guess@, answer@, l, 5);
                    let used = unmatched(guess@, guess@, answer@, l, i as int);
                    if used < have {
                        have - used
                    } else {
                        0
                    }
                },
        decreases 5 - i,
    {
        if res[i] == 0 {
            let c: usize = (guess[i] - LETTER_A) as usize;
            if counts[c] > 0 {
                res[i] = 1;
                counts[c] = counts[c] - 1;
            }
        }
        i = i + 1;
    }
    let mut code: u8 = 0;
    assert(forall|k: int| 0 <= k < 5 ==> #[trigger] res@[k] == colours(guess@, answer@)[k]);
    code = code * 3 + res[0];
    code = code * 3 + res[1];
    code = code * 3 + res[2];
    code = code * 3 + res[3];
    code = code * 3 + res[4];
    code
}

/// A pattern is below 243, and it is five greens exactly when the guess is the answer.
pub proof fn lemma_pattern(guess: Seq<u8>, answer: Seq<u8>)
    requires
        guess.len() == 5,
        answer.len() == 5,
    ensures
        0 <= pattern(guess, answer) < NP,
        pattern(guess, answer) == GREEN <==> guess == answer,
{
    let d = colours(guess, answer);
    assert(forall|i: int| 0 <= i < 5 ==> 0 <= #[trigger] d[i] <= 2);
    if base3(d) == 242 {
        assert(d[0] == 2 && d[1] == 2 && d[2] == 2 && d[3] == 2 && d[4] == 2);
        assert(guess =~= answer);
    } else if guess == answer {
        assert(forall|i: int| 0 <= i < 5 ==> #[trigger] d[i] == 2);
    }
}

/// The letter of a colour: `G` for green, `Y` for yellow, `B` for gray.
pub open spec fn colour_letter(d: int) -> char {
    if d == 2 {
        'G'
    } else if d == 1 {
        'Y'
    } else {
        'B'
    }
}

/// The last five base-three digits of a number, the most significant first.
pub open spec fn digits3(code: int) -> Seq<int> {
    seq![(code / 81) % 3, (code / 27) % 3, (code / 9) % 3, (code / 3) % 3, code % 3]
}

/// The letters of a pattern.
pub open spec fn pattern_letters(code: int) -> Seq<char> {
    Seq::new(5, |i: int| colour_letter(digits3(code)[i]))
}

/// Writes a pattern as five letters.
pub fn decode(code: u8) -> (r: String)
    ensures
        r@ == pattern_letters(code as int),
{
    let mut rest: u8 = code;
    let mut bytes: Vec<u8> = Vec::with_capacity(5);
    bytes.push(66);
    bytes.push(66);
    bytes.push(66);
    bytes.push(66);
    bytes.push(66);
    let mut i: usize = 5;
    while i > 0
        invariant
            i <= 5,
            bytes@.len() == 5,
            rest == if i == 5 {
                code as int
            } else if i == 4 {
                code as int / 3
            } else if i == 3 {
                code as int / 9
            } else if i == 2 {
                code as int / 27
            } else if i == 1 {
                code as int / 81
            } else {
                code as int / 243
            },
            forall|k: int|
                i <= k < 5 ==> #[trigger] bytes@[k] == colour_letter(
                    digits3(code as int)[k],
                ) as u8,
        decreases i,
    {
        let d: u8 = rest % 3;
        assert(d == digits3(code as int)[i - 1]);
        bytes[i - 1] = if d == 2 {
            71
        } else if d == 1 {
            89
        } else {
            66
        };
        rest = rest / 3;
        i = i - 1;
    }
    proof {
        assert forall|k: int| 0 <= k < 5 implies #[trigger] bytes@[k] < 128 by {
            assert(bytes@[k] == colour_letter(digits3(code as int)[k]) as u8);
        }
        text::lemma_ascii(bytes@);
        assert(text::as_chars(bytes@) =~= pattern_letters(code as int));
    }
    string_from(bytes).unwrap()
}

/// A word as a string.
pub fn word_str(w: &Word) -> (r: String)
    requires
        valid_utf8(w@),
    ensures
        encode_utf8(r@) == w@,
        is_word(w@) ==> r@ == text::as_chars(w@),
{
    let mut bytes: Vec<u8> = Vec::with_capacity(5);
    bytes.push(w[0]);
    bytes.push(w[1]);
    bytes.push(w[2]);
    bytes.push(w[3]);
    bytes.push(w[4]);
    proof {
        assert(bytes@ =~= w@);
        if is_word(w@) {
            text::lemma_ascii(w@);
        }
    }
    string_from(bytes).unwrap()
}

/// Reads a word: five letters from `a` to `z`.
pub fn parse_word(s: &str) -> (r: Option<Word>)
    ensures
        match r {
            Some(w) => is_word(encode_utf8(s@)) && w@ == encode_utf8(s@),
            None => !is_word(encode_utf8(s@)),
        },
{
    let b = s.as_bytes();
    if b.len() != 5 {
        return None;
    }
    let mut i: usize = 0;
    while i < 5
        invariant
            i <= 5,
            b@ == encode_utf8(s@),
            b@.len() == 5,
            forall|k: int| 0 <= k < i ==> is_letter(#[trigger] b@[k]),
        decreases 5 - i,
    {
        if b[i] < 97 || b[i] > 122 {
            assert(!is_letter(b@[i as int]));
            return None;
        }
        i = i + 1;
    }
    let w: Word = [b[0], b[1], b[2], b[3], b[4]];
    assert(w@ =~= b@);
    Some(w)
}

/// How many of the first `n` places of a word hold a letter.
pub open spec fn holds(word: Seq<u8>, letter: u8, n: int) -> nat
    decreases n,
{
    if n <= 0 {
        0
    } else {
        holds(word, letter, n - 1) + if word[n - 1] == letter {
            1nat
        } else {
            0nat
        }
    }
}

/// How many of the first `n` places of the guess hold a letter and are green or yellow.
pub open spec fn coloured(guess: Seq<u8>, answer: Seq<u8>, letter: u8, n: int) -> nat
    decreases n,
{
    if n <= 0 {
        0
    } else {
        coloured(guess, answer, letter, n - 1) + if guess[n - 1] == letter && colour(
            guess,
            answer,
            n - 1,
        ) > 0 {
            1nat
        } else {
            0nat
        }
    }
}

proof fn lemma_coloured(guess: Seq<u8>, answer: Seq<u8>, letter: u8, n: int)
    requires
        0 <= n <= 5,
    ensures
        ({
            let used = unmatched(guess, guess, answer, letter, n);
            let have = unmatched(answer, guess, answer, letter, 5);
            let least = if used < have {
                used
            } else {
                have
            };
            &&& coloured(guess, answer, letter, n) == holds(guess, letter, n) - used + least
            &&& holds(guess, letter, n) - used == holds(answer, letter, n) - unmatched(
                answer,
                guess,
                answer,
                letter,
                n,
            )
        }),
    decreases n,
{
    if n > 0 {
        lemma_coloured(guess, answer, letter, n - 1);
    }
}

/// A letter is coloured as often as it can be: the number of its green and yellow places is the
/// number of times that it stands in the guess or in the answer, whichever is smaller.
pub proof fn law_letter_tally(guess: Seq<u8>, answer: Seq<u8>, letter: u8)
    requires
        guess.len() == 5,
        answer.len() == 5,
    ensures
        coloured(guess, answer, letter, 5) == if holds(guess, letter, 5) < holds(
            answer,
            letter,
            5,
        ) {
            holds(guess, letter, 5)
        } else {
            holds(answer, letter, 5)
        },
{
    lemma_coloured(guess, answer, letter, 5);
}

/// A number below 243 is what its five base-three digits write.
pub proof fn lemma_digits3(code: int)
    requires
        0 <= code < 243,
    ensures
        base3(digits3(code)) == code,
        forall|i: int| 0 <= i < 5 ==> 0 <= #[trigger] digits3(code)[i] < 3,
{
    let a = code / 3;
    let b = a / 3;
    let c = b / 3;
    let e = c / 3;
    assert(code / 9 == b && code / 27 == c && code / 81 == e);
    assert(e < 3);
}

/// Five base-three digits are those of the number that they write.
pub proof fn lemma_base3(d: Seq<int>)
    requires
        d.len() == 5,
        forall|i: int| 0 <= i < 5 ==> 0 <= #[trigger] d[i] < 3,
    ensures
        0 <= base3(d) < 243,
        digits3(base3(d)) == d,
{
    let (p, q, r, s, t) = (d[0], d[1], d[2], d[3], d[4]);
    let n = base3(d);
    assert(n / 3 == 27 * p + 9 * q + 3 * r + s && n % 3 == t);
    assert(n / 9 == 9 * p + 3 * q + r && (n / 3) % 3 == s);
    assert(n / 27 == 3 * p + q && (n / 9) % 3 == r);
    assert(n / 81 == p && (n / 27) % 3 == q);
    assert(digits3(n) =~= d);
}

/// How many of the first `n` digits are `x`.
pub open spec fn tally(d: Seq<int>, x: int, n: int) -> nat
    decreases n,
{
    if n <= 0 {
        0
    } else {
        tally(d, x, n - 1) + if d[n - 1] == x {
            1nat
        } else {
            0nat
        }
    }
}

/// The coloured places among the first `n`, counted letter by letter for the letters below `m`.
spec fn coloured_below(guess: Seq<u8>, answer: Seq<u8>, m: int, n: int) -> nat
    decreases m,
{
    if m <= 0 {
        0
    } else {
        coloured_below(guess, answer, m - 1, n) + coloured(guess, answer, (m - 1) as u8, n)
    }
}

proof fn lemma_coloured_below_step(guess: Seq<u8>, answer: Seq<u8>, m: int, n: int)
    requires
        0 <= m <= 256,
        0 < n <= 5,
    ensures
        coloured_below(guess, answer, m, n) == coloured_below(guess, answer, m, n - 1) + if guess[n
            - 1] < m && colour(guess, answer, n - 1) > 0 {
            1int
        } else {
            0int
        },
    decreases m,
{
    if m > 0 {
        lemma_coloured_below_step(guess, answer, m - 1, n);
    }
}

/// Every coloured place holds one letter.
proof fn lemma_coloured_places(guess: Seq<u8>, answer: Seq<u8>, n: int)
    requires
        0 <= n <= 5,
    ensures
        coloured_below(guess, answer, 256, n) + tally(colours(guess, answer), 0, n) == n,
        tally(colours(guess, answer), 0, n) + tally(colours(guess, answer), 1, n) + tally(
            colours(guess, answer),
            2,
            n,
        ) == n,
    decreases n,
{
    if n > 0 {
        lemma_coloured_places(guess, answer, n - 1);
        lemma_coloured_below_step(guess, answer, 256, n);
    } else {
        lemma_coloured_below_none(guess, answer, 256);
    }
}

proof fn lemma_coloured_below_none(guess: Seq<u8>, answer: Seq<u8>, m: int)
    requires
        0 <= m <= 256,
    ensures
        coloured_below(guess, answer, m, 0) == 0,
    decreases m,
{
    if m > 0 {
        lemma_coloured_below_none(guess, answer, m - 1);
    }
}

proof fn lemma_coloured_swapped(x: Seq<u8>, y: Seq<u8>, m: int)
    requires
        x.len() == 5,
        y.len() == 5,
        0 <= m <= 256,
    ensures
        coloured_below(x, y, m, 5) == coloured_below(y, x, m, 5),
    decreases m,
{
    if m > 0 {
        lemma_coloured_swapped(x, y, m - 1);
        law_letter_tally(x, y, (m - 1) as u8);
        law_letter_tally(y, x, (m - 1) as u8);
    }
}

proof fn lemma_greens_swapped(x: Seq<u8>, y: Seq<u8>, n: int)
    requires
        0 <= n <= 5,
    ensures
        tally(colours(x, y), 2, n) == tally(colours(y, x), 2, n),
    decreases n,
{
    if n > 0 {
        lemma_greens_swapped(x, y, n - 1);
    }
}

/// Swapping guess and answer keeps the greens in their places, and the numbers of yellows and of
/// grays.
pub proof fn law_swapped(x: Seq<u8>, y: Seq<u8>)
    requires
        x.len() == 5,
        y.len() == 5,
    ensures
        forall|i: int|
            0 <= i < 5 ==> (#[trigger] digits3(pattern(x, y))[i] == 2 <==> digits3(
                pattern(y, x),
            )[i] == 2),
        tally(digits3(pattern(x, y)), 1, 5) == tally(digits3(pattern(y, x)), 1, 5),
        tally(digits3(pattern(x, y)), 0, 5) == tally(digits3(pattern(y, x)), 0, 5),
{
    lemma_base3(colours(x, y));
    lemma_base3(colours(y, x));
    lemma_coloured_places(x, y, 5);
    lemma_coloured_places(y, x, 5);
    lemma_coloured_swapped(x, y, 256);
    lemma_greens_swapped(x, y, 5);
}

/// The letters of a word are counted by its multiset.
proof fn lemma_holds(word: Seq<u8>, letter: u8, n: int)
    requires
        0 <= n <= word.len(),
    ensures
        holds(word, letter, n) == word.take(n).to_multiset().count(letter),
    decreases n,
{
    broadcast use vstd::seq_lib::group_to_multiset_ensures;

    if n > 0 {
        lemma_holds(word, letter, n - 1);
        assert(word.take(n) =~= word.take(n - 1).push(word[n - 1]));
    } else {
        assert(word.take(0) =~= Seq::empty());
    }
}

proof fn lemma_coloured_filter(
    guess: Seq<u8>,
    answer: Seq<u8>,
    letter: u8,
    n: nat,
    f: spec_fn(int) -> bool,
)
    requires
        n <= 5,
        forall|i: int| 0 <= i < 5 ==> (#[trigger] f(i) <==> guess[i] == letter && colour(
            guess,
            answer,
            i,
        ) > 0),
    ensures
        coloured(guess, answer, letter, n as int) == Seq::new(n, |i: int| i).filter(f).len(),
    decreases n,
{
    reveal(Seq::filter);
    let s = Seq::new(n, |i: int| i);
    if n > 0 {
        lemma_coloured_filter(guess, answer, letter, (n - 1) as nat, f);
        assert(s.drop_last() =~= Seq::new((n - 1) as nat, |i: int| i));
        assert(s.last() == n - 1);
        assert(f(n - 1) <==> guess[n - 1] == letter && colour(guess, answer, n - 1) > 0);
    }
}

/// What a pattern says, place by place. Its base-three digits are 2 exactly where the words agree.
/// Of every letter as many places are not 0 as both words can match: the smaller of the numbers of
/// times that it stands in the two words. And of two places of one letter the earlier one is
/// coloured first: after a 0 there is no 1.
pub proof fn law_pattern_places(guess: Seq<u8>, answer: Seq<u8>, letter: u8)
    requires
        guess.len() == 5,
        answer.len() == 5,
    ensures
        ({
            let p = pattern(guess, answer);
            let d = seq![p / 81, (p / 27) % 3, (p / 9) % 3, (p / 3) % 3, p % 3];
            &&& 0 <= p < 243
            &&& forall|i: int|
                0 <= i < 5 ==> (#[trigger] d[i] == 2 <==> guess[i] == answer[i])
            &&& Seq::new(5, |i: int| i).filter(|i: int| guess[i] == letter && d[i] != 0).len()
                == if guess.to_multiset().count(letter) < answer.to_multiset().count(letter) {
                guess.to_multiset().count(letter)
            } else {
                answer.to_multiset().count(letter)
            }
            &&& forall|i: int, j: int|
                0 <= i < j < 5 && guess[i] == guess[j] && #[trigger] d[i] == 0 ==> #[trigger] d[j]
                    != 1
        }),
{
    let p = pattern(guess, answer);
    let d = seq![p / 81, (p / 27) % 3, (p / 9) % 3, (p / 3) % 3, p % 3];
    let c = colours(guess, answer);
    lemma_base3(c);
    assert((p / 81) % 3 == p / 81);
    assert(d =~= digits3(p));
    assert forall|i: int| 0 <= i < 5 implies (#[trigger] d[i] == 2 <==> guess[i] == answer[i]) by {
        assert(c[i] == colour(guess, answer, i));
    }
    let f = |i: int| guess[i] == letter && d[i] != 0;
    assert forall|i: int| 0 <= i < 5 implies (#[trigger] f(i) <==> guess[i] == letter && colour(
        guess,
        answer,
        i,
    ) > 0) by {
        assert(c[i] == d[i]);
    }
    lemma_coloured_filter(guess, answer, letter, 5, f);
    law_letter_tally(guess, answer, letter);
    lemma_holds(guess, letter, 5);
    lemma_holds(answer, letter, 5);
    assert(guess.take(5) =~= guess);
    assert(answer.take(5) =~= answer);
    assert forall|i: int, j: int|
        0 <= i < j < 5 && guess[i] == guess[j] && #[trigger] d[i] == 0 implies #[trigger] d[j]
        != 1 by {
        assert(c[i] == 0 && c[j] == d[j]);
        lemma_unmatched_grows(guess, guess, answer, guess[i], i, j);
    }
}

proof fn lemma_unmatched_grows(
    word: Seq<u8>,
    guess: Seq<u8>,
    answer: Seq<u8>,
    letter: u8,
    m: int,
    n: int,
)
    requires
        m <= n,
    ensures
        unmatched(word, guess, answer, letter, m) <= unmatched(word, guess, answer, letter, n),
    decreases n - m,
{
    if m < n && n > 0 {
        lemma_unmatched_grows(word, guess, answer, letter, m, n - 1);
    }
}

/// How a pattern is written: five letters, `G` where the base-three digit is 2, `Y` where it is 1,
/// and `B` where it is 0.
pub proof fn law_letters_of_pattern(code: int)
    requires
        0 <= code,
    ensures
        ({
            let d = seq![
                (code / 81) % 3,
                (code / 27) % 3,
                (code / 9) % 3,
                (code / 3) % 3,
                code % 3,
            ];
            &&& pattern_letters(code).len() == 5
            &&& forall|i: int|
                0 <= i < 5 ==> #[trigger] pattern_letters(code)[i] == if d[i] == 2 {
                    'G'
                } else if d[i] == 1 {
                    'Y'
                } else {
                    'B'
                }
        }),
{
}

} // verus!
