//! Word lists and the archive of past answers, as they stand in text files.

use vstd::prelude::*;
use vstd::utf8::*;
use crate::index;
use crate::index::WordIndex;
use crate::input;
use crate::text;
use crate::text::{split, to_chars, trim, Separator};
use crate::words;
use crate::words::Word;

verus! {

/// The letters of each word of a list.
pub open spec fn spelled(ws: Seq<Word>) -> Seq<Seq<u8>> {
    Seq::new(ws.len(), |i: int| ws[i]@)
}

/// The lines of a text.
pub open spec fn lines(s: Seq<char>) -> Seq<Seq<char>> {
    text::pieces(s, Separator::Char('\n'))
}

/// The words among the first `n` lines: those lines that are a word, but for white space at
/// their ends.
pub open spec fn listed(lines: Seq<Seq<char>>, n: nat) -> Seq<Seq<u8>>
    decreases n,
{
    if n == 0 {
        Seq::empty()
    } else {
        match input::word_of(text::trimmed(lines[n - 1])) {
            Some(w) => listed(lines, (n - 1) as nat).push(w),
            None => listed(lines, (n - 1) as nat),
        }
    }
}

/// The word in the second field of a line of comma-separated fields.
pub open spec fn second_field(line: Seq<char>) -> Option<Seq<u8>> {
    let fields = text::pieces(line, Separator::Char(','));
    if fields.len() > 1 {
        input::word_of(text::trimmed(fields[1]))
    } else {
        None
    }
}

/// The answers in the first `n` lines of an archive, the oldest first. The first line is a
/// heading; lines without a word in the second field are passed over.
pub open spec fn archived(lines: Seq<Seq<char>>, n: nat) -> Seq<Seq<u8>>
    decreases n,
{
    if n <= 1 {
        Seq::empty()
    } else {
        match second_field(lines[n - 1]) {
            Some(w) => archived(lines, (n - 1) as nat).push(w),
            None => archived(lines, (n - 1) as nat),
        }
    }
}

/// Whether a character is a letter from `a` to `z`.
pub open spec fn is_lower(c: char) -> bool {
    'a' <= c && c <= 'z'
}

/// A text writes a word exactly when it is five letters from `a` to `z`.
proof fn lemma_word_chars(s: Seq<char>)
    ensures
        input::word_of(s) is Some <==> s.len() == 5 && forall|i: int|
            0 <= i < 5 ==> is_lower(#[trigger] s[i]),
        input::word_of(s) is Some ==> input::word_of(s)->0 == Seq::new(
            s.len(),
            |i: int| s[i] as u8,
        ),
{
    let b = encode_utf8(s);
    if s.len() == 5 && forall|i: int| 0 <= i < 5 ==> is_lower(#[trigger] s[i]) {
        assert(is_ascii_chars(s));
        is_ascii_chars_encode_utf8(s);
        assert forall|i: int| 0 <= i < 5 implies words::is_letter(#[trigger] b[i]) by {
            assert(is_lower(s[i]));
            assert(s[i] as u8 == b[i]);
        }
        assert(b =~= Seq::new(s.len(), |i: int| s[i] as u8));
    }
    if words::is_word(b) {
        assert forall|i: int| 0 <= i < b.len() implies #[trigger] b[i] < 128 by {
            assert(words::is_letter(b[i]));
        }
        text::lemma_ascii(b);
        assert(s == text::as_chars(b));
        assert forall|i: int| 0 <= i < 5 implies is_lower(#[trigger] s[i]) by {
            assert(words::is_letter(b[i]));
        }
        assert(b =~= Seq::new(s.len(), |i: int| s[i] as u8));
    }
}

/// Reads a stretch of text as a word.
fn word_at(s: &Vec<char>, lo: usize, hi: usize) -> (r: Option<Word>)
    requires
        lo <= hi <= s@.len(),
    ensures
        match r {
            Some(w) => input::word_of(s@.subrange(lo as int, hi as int)) == Some(w@)
                && words::is_word(w@),
            None => input::word_of(s@.subrange(lo as int, hi as int)) is None,
        },
{
    let ghost t = s@.subrange(lo as int, hi as int);
    proof {
        lemma_word_chars(t);
    }
    if hi - lo != 5 {
        return None;
    }
    let mut w: Word = [0u8; 5];
    let mut i: usize = 0;
    while i < 5
        invariant
            lo + 5 == hi,
            hi <= s@.len(),
            t == s@.subrange(lo as int, hi as int),
            input::word_of(t) is Some <==> t.len() == 5 && forall|i: int|
                0 <= i < 5 ==> is_lower(#[trigger] t[i]),
            i <= 5,
            forall|k: int| 0 <= k < i ==> is_lower(#[trigger] t[k]) && w@[k] == t[k] as u8,
        decreases 5 - i,
    {
        let c = s[lo + i];
        assert(c == t[i as int]);
        if c < 'a' || c > 'z' {
            assert(!is_lower(t[i as int]));
            return None;
        }
        w[i] = (c as u32) as u8;
        i = i + 1;
    }
    assert(w@ =~= Seq::new(t.len(), |i: int| t[i] as u8));
    Some(w)
}

/// Reads a word list: the lines that are a word, in order.
pub fn parse_list(text: &str) -> (r: Vec<Word>)
    ensures
        spelled(r@) == listed(lines(text@), lines(text@).len()),
        forall|i: int| 0 <= i < r@.len() ==> words::is_word((#[trigger] r@[i])@),
{
    let chars = to_chars(text);
    let n = chars.len();
    let parts = split(&chars, 0, n, Separator::Char('\n'));
    let ghost all = lines(text@);
    let mut r: Vec<Word> = Vec::new();
    let mut i: usize = 0;
    proof {
        assert(chars@.subrange(0, n as int) =~= text@);
        assert(spelled(r@) =~= listed(all, 0));
    }
    while i < parts.len()
        invariant
            chars@ == text@,
            n == chars@.len(),
            parts@.len() == all.len(),
            forall|k: int|
                0 <= k < parts@.len() ==> {
                    let (a, b) = #[trigger] parts@[k];
                    a <= b <= n && text@.subrange(a as int, b as int) == all[k]
                },
            i <= parts@.len(),
            spelled(r@) == listed(all, i as nat),
            forall|k: int| 0 <= k < r@.len() ==> words::is_word((#[trigger] r@[k])@),
        decreases parts@.len() - i,
    {
        let (a, b) = parts[i];
        assert(text@.subrange(a as int, b as int) == all[i as int]);
        let (lo, hi) = trim(&chars, a, b);
        let ghost before = r@;
        match word_at(&chars, lo, hi) {
            Some(w) => {
                r.push(w);
                assert(spelled(r@) =~= spelled(before).push(w@));
            },
            None => {},
        }
        i = i + 1;
    }
    r
}

/// The past answers, in order.
pub struct History {
    places: WordIndex,
    count: usize,
}

/// How many games ago a word was last the answer, seen from the next game.
pub open spec fn games_since(order: Seq<Word>, w: Word) -> Option<nat> {
    match index::last_place(order, w) {
        Some(k) => Some((order.len() - k) as nat),
        None => None,
    }
}

impl View for History {
    type V = Seq<Word>;

    closed spec fn view(&self) -> Seq<Word> {
        self.places@
    }
}

impl History {
    /// The places are those of the past answers.
    pub closed spec fn wf(&self) -> bool {
        self.places.wf() && self.count == self.places@.len()
    }

    /// No past answers.
    pub fn empty() -> (r: History)
        ensures
            r.wf(),
            r@ == Seq::<Word>::empty(),
    {
        History { places: WordIndex::new(), count: 0 }
    }

    /// How many games ago a word was last the answer: 1 for the latest answer, nothing for a
    /// word that never was one.
    pub fn age(&self, w: &Word) -> (r: Option<usize>)
        requires
            self.wf(),
        ensures
            match r {
                Some(t) => games_since(self@, *w) == Some(t as nat) && t >= 1,
                None => games_since(self@, *w) is None,
            },
    {
        proof {
            index::lemma_last_place(self@, *w);
        }
        match self.places.get(w) {
            Some(k) => Some(self.count - k),
            None => None,
        }
    }
}

/// Reads an archive of past answers.
pub fn parse_history(text: &str) -> (r: History)
    ensures
        r.wf(),
        spelled(r@) == archived(lines(text@), lines(text@).len()),
{
    let chars = to_chars(text);
    let n = chars.len();
    let parts = split(&chars, 0, n, Separator::Char('\n'));
    let ghost all = lines(text@);
    let mut places = WordIndex::new();
    let mut count: usize = 0;
    let mut i: usize = 1;
    proof {
        assert(chars@.subrange(0, n as int) =~= text@);
        assert(spelled(places@) =~= archived(all, 1));
        lemma_pieces_some(text@, Separator::Char('\n'));
    }
    while i < parts.len()
        invariant
            chars@ == text@,
            n == chars@.len(),
            parts@.len() == all.len(),
            forall|k: int|
                0 <= k < parts@.len() ==> {
                    let (a, b) = #[trigger] parts@[k];
                    a <= b <= n && text@.subrange(a as int, b as int) == all[k]
                },
            1 <= i <= parts@.len(),
            places.wf(),
            count == places@.len(),
            count < i,
            spelled(places@) == archived(all, i as nat),
        decreases parts@.len() - i,
    {
        let (a, b) = parts[i];
        assert(text@.subrange(a as int, b as int) == all[i as int]);
        let fields = split(&chars, a, b, Separator::Char(','));
        if fields.len() > 1 {
            let (c, d) = fields[1];
            let (lo, hi) = trim(&chars, c, d);
            let ghost before = places@;
            match word_at(&chars, lo, hi) {
                Some(w) => {
                    places.push(&w, count);
                    count = count + 1;
                    assert(spelled(places@) =~= spelled(before).push(w@));
                },
                None => {},
            }
        }
        i = i + 1;
    }
    History { places, count }
}

/// There is always a piece.
proof fn lemma_pieces_some(s: Seq<char>, sep: Separator)
    ensures
        text::pieces(s, sep).len() >= 1,
    decreases s.len(),
{
    if s.len() > 0 {
        lemma_pieces_some(s.drop_last(), sep);
    }
}

/// The words of a text of one line: the line, if it is a word but for white space at its ends.
pub proof fn law_list_line(line: Seq<char>)
    requires
        forall|i: int| 0 <= i < line.len() ==> #[trigger] line[i] != '\n',
    ensures
        listed(lines(line), lines(line).len()) == match input::word_of(text::trimmed(line)) {
            Some(w) => seq![w],
            None => Seq::empty(),
        },
{
    text::law_pieces_plain(line, Separator::Char('\n'));
    reveal_with_fuel(listed, 2);
    let l = lines(line);
    assert(l[0] == line);
    assert(listed(l, 0) =~= Seq::empty());
    assert(listed(l, 1) =~= match input::word_of(text::trimmed(line)) {
        Some(w) => seq![w],
        None => Seq::empty(),
    });
}

/// The words of two texts, one below the other, are those of the first and then those of the
/// second.
pub proof fn law_list_join(a: Seq<char>, b: Seq<char>)
    ensures
        ({
            let c = a.push('\n') + b;
            listed(lines(c), lines(c).len()) == listed(lines(a), lines(a).len()) + listed(
                lines(b),
                lines(b).len(),
            )
        }),
{
    text::law_pieces_join(a, '\n', b, Separator::Char('\n'));
    lemma_listed_concat(lines(a), lines(b), lines(b).len());
}

proof fn lemma_listed_concat(x: Seq<Seq<char>>, y: Seq<Seq<char>>, n: nat)
    requires
        n <= y.len(),
    ensures
        listed(x + y, x.len() + n) == listed(x, x.len()) + listed(y, n),
    decreases n,
{
    if n == 0 {
        lemma_listed_prefix(x, x + y, x.len());
        assert(listed(x, x.len()) + listed(y, 0) =~= listed(x, x.len()));
    } else {
        lemma_listed_concat(x, y, (n - 1) as nat);
        assert((x + y)[x.len() + n - 1] == y[n - 1]);
        assert(listed(x + y, x.len() + n) =~= listed(x, x.len()) + listed(y, n));
    }
}

proof fn lemma_listed_prefix(x: Seq<Seq<char>>, z: Seq<Seq<char>>, n: nat)
    requires
        n <= x.len(),
        n <= z.len(),
        forall|i: int| 0 <= i < n ==> x[i] == z[i],
    ensures
        listed(x, n) == listed(z, n),
    decreases n,
{
    if n > 0 {
        lemma_listed_prefix(x, z, (n - 1) as nat);
    }
}

/// The heading of an archive holds no answer.
pub proof fn law_archive_heading(line: Seq<char>)
    requires
        forall|i: int| 0 <= i < line.len() ==> #[trigger] line[i] != '\n',
    ensures
        archived(lines(line), lines(line).len()) == Seq::<Seq<u8>>::empty(),
{
    text::law_pieces_plain(line, Separator::Char('\n'));
}

/// One more line of an archive adds the word of its second field, if that is one, as the latest
/// answer.
pub proof fn law_archive_line(a: Seq<char>, line: Seq<char>)
    requires
        forall|i: int| 0 <= i < line.len() ==> #[trigger] line[i] != '\n',
    ensures
        ({
            let c = a.push('\n') + line;
            archived(lines(c), lines(c).len()) == match second_field(line) {
                Some(w) => archived(lines(a), lines(a).len()).push(w),
                None => archived(lines(a), lines(a).len()),
            }
        }),
{
    let c = a.push('\n') + line;
    text::law_pieces_join(a, '\n', line, Separator::Char('\n'));
    text::law_pieces_plain(line, Separator::Char('\n'));
    lemma_pieces_some(a, Separator::Char('\n'));
    let n = lines(c).len();
    assert(lines(c) =~= lines(a).push(line));
    lemma_archived_prefix(lines(a), lines(c), lines(a).len());
    assert(lines(c)[n - 1] == line);
}

proof fn lemma_archived_prefix(x: Seq<Seq<char>>, z: Seq<Seq<char>>, n: nat)
    requires
        n <= x.len(),
        n <= z.len(),
        forall|i: int| 0 <= i < n ==> x[i] == z[i],
    ensures
        archived(x, n) == archived(z, n),
    decreases n,
{
    if n > 1 {
        lemma_archived_prefix(x, z, (n - 1) as nat);
    }
}

/// The second field of a line: what stands between its first comma and the next one, or the end.
/// There is none in a line without a comma.
pub proof fn law_second_field(x: Seq<char>, y: Seq<char>, z: Seq<char>)
    requires
        forall|i: int| 0 <= i < x.len() ==> #[trigger] x[i] != ',',
        forall|i: int| 0 <= i < y.len() ==> #[trigger] y[i] != ',',
    ensures
        second_field(x) is None,
        second_field(x.push(',') + y) == input::word_of(text::trimmed(y)),
        second_field(x.push(',') + (y.push(',') + z)) == input::word_of(text::trimmed(y)),
{
    let sep = Separator::Char(',');
    text::law_pieces_plain(x, sep);
    text::law_pieces_plain(y, sep);
    text::law_pieces_join(x, ',', y, sep);
    text::law_pieces_join(y, ',', z, sep);
    text::law_pieces_join(x, ',', y.push(',') + z, sep);
    lemma_pieces_some(z, sep);
}

/// The age of a word: `t` games ago it was the answer, and it has not been since. There is none
/// exactly if it never was.
pub proof fn law_games_since(order: Seq<Word>, w: Word)
    ensures
        games_since(order, w) is None <==> !order.contains(w),
        games_since(order, w) matches Some(t) ==> 1 <= t <= order.len() && order[order.len() - t]
            == w && forall|i: int| order.len() - t < i < order.len() ==> order[i] != w,
{
    index::law_last_place(order, w);
}

} // verus!
