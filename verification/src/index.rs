//! Finding words in a list.

use std::collections::HashMap;
use vstd::prelude::*;
use crate::words::Word;

verus! {

/// The last place at which a word stands in a list.
pub open spec fn last_place(list: Seq<Word>, w: Word) -> Option<nat>
    decreases list.len(),
{
    if list.len() == 0 {
        None
    } else if list.last() == w {
        Some((list.len() - 1) as nat)
    } else {
        last_place(list.drop_last(), w)
    }
}

/// The last place of a word holds the word.
pub proof fn lemma_last_place(list: Seq<Word>, w: Word)
    ensures
        last_place(list, w) matches Some(k) ==> k < list.len() && list[k as int] == w && (
        forall|i: int| k < i < list.len() ==> list[i] != w),
        last_place(list, w) is None ==> (forall|i: int|
            0 <= i < list.len() ==> list[i] != w),
    decreases list.len(),
{
    if list.len() > 0 {
        lemma_last_place(list.drop_last(), w);
        assert forall|i: int| 0 <= i < list.len() - 1 implies list[i] == list.drop_last()[i] by {}
    }
}

/// The number that the bytes of a word write.
pub open spec fn word_code(w: Seq<u8>) -> int {
    w[0] * 0x1_0000_0000 + w[1] * 0x100_0000 + w[2] * 0x1_0000 + w[3] * 0x100 + w[4]
}

fn code(w: &Word) -> (c: u64)
    ensures
        c == word_code(w@),
{
    w[0] as u64 * 0x1_0000_0000 + w[1] as u64 * 0x100_0000 + w[2] as u64 * 0x1_0000 + w[3] as u64
        * 0x100 + w[4] as u64
}

/// A number is written in one way as a multiple and a smaller rest.
proof fn lemma_digit(x: int, r: int, y: int, q: int, m: int)
    requires
        x * m + r == y * m + q,
        0 <= r < m,
        0 <= q < m,
    ensures
        x == y,
        r == q,
{
    if x < y {
        assert(x * m + m <= y * m) by (nonlinear_arith)
            requires
                x + 1 <= y,
                m > 0,
        ;
    } else if y < x {
        assert(y * m + m <= x * m) by (nonlinear_arith)
            requires
                y + 1 <= x,
                m > 0,
        ;
    }
}

/// Different words have different codes.
proof fn lemma_word_code(a: Word, b: Word)
    requires
        word_code(a@) == word_code(b@),
    ensures
        a == b,
{
    let (s, t) = (a@, b@);
    let s3 = s[3] * 0x100 + s[4];
    let t3 = t[3] * 0x100 + t[4];
    let s2 = s[2] * 0x1_0000 + s3;
    let t2 = t[2] * 0x1_0000 + t3;
    let s1 = s[1] * 0x100_0000 + s2;
    let t1 = t[1] * 0x100_0000 + t2;
    lemma_digit(s[0] as int, s1, t[0] as int, t1, 0x1_0000_0000);
    lemma_digit(s[1] as int, s2, t[1] as int, t2, 0x100_0000);
    lemma_digit(s[2] as int, s3, t[2] as int, t3, 0x1_0000);
    lemma_digit(s[3] as int, s[4] as int, t[3] as int, t[4] as int, 0x100);
    assert(s =~= t);
}

/// Where the words of a list stand; of a word that stands at several places, the last.
pub struct WordIndex {
    places: HashMap<u64, usize>,
    list: Ghost<Seq<Word>>,
}

impl View for WordIndex {
    type V = Seq<Word>;

    closed spec fn view(&self) -> Seq<Word> {
        self.list@
    }
}

impl WordIndex {
    /// The places are those of the list.
    pub closed spec fn wf(&self) -> bool {
        forall|w: Word|
            match #[trigger] last_place(self.list@, w) {
                Some(k) => self.places@.contains_key(word_code(w@) as u64) && self.places@[
                    word_code(w@) as u64] == k,
                None => !self.places@.contains_key(word_code(w@) as u64),
            }
    }

    /// The index of the empty list.
    pub fn new() -> (r: WordIndex)
        ensures
            r.wf(),
            r@ == Seq::<Word>::empty(),
    {
        broadcast use vstd::std_specs::hash::group_hash_axioms;

        WordIndex { places: HashMap::new(), list: Ghost(Seq::empty()) }
    }

    /// Appends a word whose place is the length of the list.
    pub fn push(&mut self, w: &Word, place: usize)
        requires
            old(self).wf(),
            place == old(self)@.len(),
        ensures
            final(self).wf(),
            final(self)@ == old(self)@.push(*w),
    {
        broadcast use vstd::std_specs::hash::group_hash_axioms;

        let c = code(w);
        self.places.insert(c, place);
        self.list = Ghost(self.list@.push(*w));
        proof {
            let list = old(self).list@;
            assert(self.list@.drop_last() =~= list);
            assert forall|v: Word|
                match #[trigger] last_place(self.list@, v) {
                    Some(k) => self.places@.contains_key(word_code(v@) as u64) && self.places@[
                        word_code(v@) as u64] == k,
                    None => !self.places@.contains_key(word_code(v@) as u64),
                } by {
                let before = last_place(list, v);
                if v != *w {
                    if word_code(v@) as u64 == c {
                        lemma_word_code(v, *w);
                    }
                }
            }
        }
    }

    /// The index of a list.
    pub fn of(list: &Vec<Word>) -> (r: WordIndex)
        ensures
            r.wf(),
            r@ == list@,
    {
        let mut r = WordIndex::new();
        let mut i: usize = 0;
        while i < list.len()
            invariant
                i <= list@.len(),
                r.wf(),
                r@ == list@.take(i as int),
            decreases list@.len() - i,
        {
            r.push(&list[i], i);
            assert(list@.take(i + 1) =~= list@.take(i as int).push(list@[i as int]));
            i = i + 1;
        }
        assert(list@.take(i as int) =~= list@);
        r
    }

    /// The last place of a word.
    pub fn get(&self, w: &Word) -> (r: Option<usize>)
        requires
            self.wf(),
        ensures
            match r {
                Some(k) => last_place(self@, *w) == Some(k as nat),
                None => last_place(self@, *w) is None,
            },
    {
        broadcast use vstd::std_specs::hash::group_hash_axioms;

        assert(match last_place(self.list@, *w) {
            Some(k) => self.places@.contains_key(word_code(w@) as u64) && self.places@[word_code(
                w@,
            ) as u64] == k,
            None => !self.places@.contains_key(word_code(w@) as u64),
        });
        match self.places.get(&code(w)) {
            Some(k) => Some(*k),
            None => None,
        }
    }
}

/// The last place of a word in a list: there is none exactly if the word is not on the list, and
/// otherwise the word stands there and nowhere later.
pub proof fn law_last_place(list: Seq<Word>, w: Word)
    ensures
        last_place(list, w) is None <==> !list.contains(w),
        last_place(list, w) matches Some(k) ==> k < list.len() && list[k as int] == w && forall|
            i: int,
        |
            k < i < list.len() ==> list[i] != w,
{
    lemma_last_place(list, w);
    if list.contains(w) {
        let i = choose|i: int| 0 <= i < list.len() && list[i] == w;
        assert(list[i] == w);
    }
}

} // verus!
