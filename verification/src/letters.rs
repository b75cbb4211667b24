//! How often each letter occurs in a list of lines.

use vstd::prelude::*;
use crate::input;
use crate::sort;
use crate::sort::Ordered;
use crate::text::to_chars;

verus! {

/// A letter, the number of times that it occurs, and a place that settles the order of letters that
/// occur equally often.
#[derive(Clone, Copy)]
pub struct Tally {
    pub letter: char,
    pub count: u32,
    pub pos: u32,
}

impl Ordered for Tally {
    /// The most frequent first, then by place.
    open spec fn leq(self, other: Tally) -> bool {
        self.count > other.count || (self.count == other.count && (self.pos < other.pos || (
        self.pos == other.pos && self.letter <= other.letter)))
    }

    proof fn order_is_total(a: Tally, b: Tally, c: Tally) {
    }

    fn le_than(&self, other: &Tally) -> (r: bool) {
        self.count > other.count || (self.count == other.count && (self.pos < other.pos || (
        self.pos == other.pos && self.letter <= other.letter)))
    }
}

/// The characters of the first `n` lines, one line after the other.
pub open spec fn joined(lines: Seq<Seq<char>>, n: nat) -> Seq<char>
    decreases n,
{
    if n == 0 {
        Seq::empty()
    } else {
        joined(lines, (n - 1) as nat) + lines[n - 1]
    }
}

/// How often a character occurs in a text.
pub open spec fn occurrences(s: Seq<char>, c: char) -> nat
    decreases s.len(),
{
    if s.len() == 0 {
        0
    } else {
        occurrences(s.drop_last(), c) + if s.last() == c {
            1nat
        } else {
            0nat
        }
    }
}

/// Whether a list counts a text: no letter has two entries, every entry has the number of times
/// that its letter occurs, and letters without an entry do not occur.
pub open spec fn counts(table: Seq<Tally>, s: Seq<char>) -> bool {
    &&& forall|i: int, j: int|
        0 <= i < j < table.len() ==> (#[trigger] table[i]).letter != (#[trigger] table[j]).letter
    &&& forall|i: int|
        0 <= i < table.len() ==> (#[trigger] table[i]).count == occurrences(s, table[i].letter)
            && table[i].count > 0
    &&& forall|c: char|
        (forall|i: int| 0 <= i < table.len() ==> (#[trigger] table[i]).letter != c)
            ==> #[trigger] occurrences(s, c) == 0
}

proof fn lemma_occurrences_bound(s: Seq<char>, c: char)
    ensures
        occurrences(s, c) <= s.len(),
    decreases s.len(),
{
    if s.len() > 0 {
        lemma_occurrences_bound(s.drop_last(), c);
    }
}

/// Where a letter has its entry.
fn find_letter(table: &Vec<Tally>, c: char) -> (r: Option<usize>)
    ensures
        match r {
            Some(i) => i < table@.len() && table@[i as int].letter == c,
            None => forall|i: int| 0 <= i < table@.len() ==> (#[trigger] table@[i]).letter != c,
        },
{
    let mut i: usize = 0;
    while i < table.len()
        invariant
            i <= table@.len(),
            forall|k: int| 0 <= k < i ==> (#[trigger] table@[k]).letter != c,
        decreases table@.len() - i,
    {
        if table[i].letter == c {
            return Some(i);
        }
        i = i + 1;
    }
    None
}

/// One more character changes the count of that character only.
proof fn lemma_occurrences_push(s: Seq<char>, c: char)
    ensures
        forall|x: char| #[trigger]
            occurrences(s.push(c), x) == occurrences(s, x) + if x == c {
                1int
            } else {
                0int
            },
{
    assert(s.push(c).drop_last() =~= s);
}

/// Raising the entry of a character counts one more of it.
proof fn lemma_raise(before: Seq<Tally>, after: Seq<Tally>, s: Seq<char>, c: char, i: int)
    requires
        counts(before, s),
        0 <= i < before.len(),
        before[i].letter == c,
        after.len() == before.len(),
        after[i].letter == c,
        after[i].count == before[i].count + 1,
        forall|k: int| 0 <= k < before.len() && k != i ==> #[trigger] after[k] == before[k],
    ensures
        counts(after, s.push(c)),
{
    let now = s.push(c);
    lemma_occurrences_push(s, c);
    assert forall|j: int, k: int| 0 <= j < k < after.len() implies (#[trigger] after[j]).letter != (
    #[trigger] after[k]).letter by {
        assert(before[j].letter != before[k].letter);
    }
    assert forall|k: int| 0 <= k < after.len() implies (#[trigger] after[k]).count == occurrences(
        now,
        after[k].letter,
    ) && after[k].count > 0 by {
        assert(before[k].count == occurrences(s, before[k].letter));
        if k < i {
            assert(before[k].letter != before[i].letter);
        } else if k > i {
            assert(before[i].letter != before[k].letter);
        }
    }
    assert forall|x: char|
        (forall|k: int| 0 <= k < after.len() ==> (#[trigger] after[k]).letter
            != x) implies #[trigger] occurrences(now, x) == 0 by {
        assert(after[i].letter != x);
        assert forall|k: int| 0 <= k < before.len() implies (#[trigger] before[k]).letter != x by {
            assert(after[k].letter != x);
        }
        assert(occurrences(s, x) == 0);
    }
}

/// A new entry counts the first of a character.
proof fn lemma_first(before: Seq<Tally>, t: Tally, s: Seq<char>)
    requires
        counts(before, s),
        forall|i: int| 0 <= i < before.len() ==> (#[trigger] before[i]).letter != t.letter,
        t.count == 1,
    ensures
        counts(before.push(t), s.push(t.letter)),
{
    let after = before.push(t);
    let now = s.push(t.letter);
    lemma_occurrences_push(s, t.letter);
    assert(occurrences(s, t.letter) == 0);
    assert forall|k: int| 0 <= k < after.len() implies (#[trigger] after[k]).count == occurrences(
        now,
        after[k].letter,
    ) && after[k].count > 0 by {
        if k < before.len() {
            assert(after[k] == before[k]);
        }
    }
    assert forall|j: int, k: int| 0 <= j < k < after.len() implies (#[trigger] after[j]).letter != (
    #[trigger] after[k]).letter by {
        if k < before.len() {
            assert(before[j].letter != before[k].letter);
        } else {
            assert(before[j].letter != t.letter);
        }
    }
    assert forall|x: char|
        (forall|k: int| 0 <= k < after.len() ==> (#[trigger] after[k]).letter
            != x) implies #[trigger] occurrences(now, x) == 0 by {
        assert(after[before.len() as int].letter != x);
        assert forall|k: int| 0 <= k < before.len() implies (#[trigger] before[k]).letter != x by {
            assert(after[k].letter != x);
        }
        assert(occurrences(s, x) == 0);
    }
}

/// Counts one more character.
fn count_one(table: &mut Vec<Tally>, c: char, s: Ghost<Seq<char>>)
    requires
        counts(old(table)@, s@),
        s@.len() < u32::MAX,
        old(table)@.len() <= s@.len(),
    ensures
        counts(final(table)@, s@.push(c)),
        final(table)@.len() <= s@.len() + 1,
{
    let ghost before = table@;
    match find_letter(table, c) {
        Some(i) => {
            let t = table[i];
            proof {
                assert(before[i as int].count == occurrences(s@, c));
                lemma_occurrences_bound(s@, c);
            }
            table[i] = Tally { letter: c, count: t.count + 1, pos: t.pos };
            proof {
                lemma_raise(before, table@, s@, c, i as int);
            }
        },
        None => {
            let t = Tally { letter: c, count: 1, pos: table.len() as u32 };
            table.push(t);
            proof {
                lemma_first(before, t, s@);
            }
        },
    }
}

/// Counts the letters of some lines, the most frequent first.
pub fn letter_counts(lines: &Vec<String>) -> (r: Vec<Tally>)
    requires
        joined(input::texts(lines@), lines@.len()).len() <= u32::MAX,
    ensures
        counts(r@, joined(input::texts(lines@), lines@.len())),
        sort::ascending(r@),
{
    let ghost all = input::texts(lines@);
    let mut table: Vec<Tally> = Vec::new();
    let mut i: usize = 0;
    while i < lines.len()
        invariant
            all == input::texts(lines@),
            joined(all, lines@.len()).len() <= u32::MAX,
            i <= lines@.len(),
            counts(table@, joined(all, i as nat)),
            table@.len() <= joined(all, i as nat).len(),
        decreases lines@.len() - i,
    {
        let chars = to_chars(lines[i].as_str());
        let ghost before = joined(all, i as nat);
        proof {
            lemma_joined_grows(all, i as nat + 1, lines@.len());
            assert(chars@ == all[i as int]);
            assert(before + chars@.take(0) =~= before);
        }
        let mut k: usize = 0;
        while k < chars.len()
            invariant
                k <= chars@.len(),
                before.len() + chars@.len() <= u32::MAX,
                counts(table@, before + chars@.take(k as int)),
                table@.len() <= before.len() + k,
            decreases chars@.len() - k,
        {
            let s: Ghost<Seq<char>> = Ghost(before + chars@.take(k as int));
            count_one(&mut table, chars[k], s);
            assert(before + chars@.take(k + 1) =~= s@.push(chars@[k as int]));
            k = k + 1;
        }
        assert(chars@.take(k as int) =~= chars@);
        i = i + 1;
    }
    let r = sort::sort(&table);
    proof {
        lemma_counts_sorted(table@, joined(all, lines@.len()));
    }
    r
}

proof fn lemma_joined_grows(lines: Seq<Seq<char>>, m: nat, n: nat)
    requires
        m <= n,
    ensures
        joined(lines, m).len() <= joined(lines, n).len(),
    decreases n,
{
    if m < n {
        lemma_joined_grows(lines, m, (n - 1) as nat);
    }
}

/// Sorting keeps the counts.
proof fn lemma_counts_sorted(table: Seq<Tally>, s: Seq<char>)
    requires
        counts(table, s),
    ensures
        counts(sort::sorted(table), s),
        sort::ascending(sort::sorted(table)),
{
    let t = sort::sorted(table);
    sort::lemma_sorted(table);
    assert(table.no_duplicates());
    table.lemma_multiset_has_no_duplicates();
    t.lemma_multiset_has_no_duplicates_conv();
    assert forall|i: int, j: int| 0 <= i < j < t.len() implies (#[trigger] t[i]).letter != (
    #[trigger] t[j]).letter by {
        assert(t.contains(t[i]) && t.contains(t[j]));
        let k = choose|k: int| 0 <= k < table.len() && table[k] == t[i];
        let l = choose|l: int| 0 <= l < table.len() && table[l] == t[j];
        assert(t[i] != t[j]);
        if k < l {
            assert(table[k].letter != table[l].letter);
        } else {
            assert(table[l].letter != table[k].letter);
        }
    }
    assert forall|i: int| 0 <= i < t.len() implies (#[trigger] t[i]).count == occurrences(
        s,
        t[i].letter,
    ) && t[i].count > 0 by {
        assert(t.contains(t[i]));
        let k = choose|k: int| 0 <= k < table.len() && table[k] == t[i];
        assert(table[k].count > 0);
    }
    assert forall|c: char|
        (forall|i: int| 0 <= i < t.len() ==> (#[trigger] t[i]).letter
            != c) implies #[trigger] occurrences(s, c) == 0 by {
        assert forall|k: int| 0 <= k < table.len() implies (#[trigger] table[k]).letter != c by {
            assert(t.contains(table[k]));
            let i = choose|i: int| 0 <= i < t.len() && t[i] == table[k];
            assert(t[i].letter != c);
        }
    }
}

/// The sum of the counts of a list.
pub open spec fn count_sum(table: Seq<Tally>) -> nat
    decreases table.len(),
{
    if table.len() == 0 {
        0
    } else {
        count_sum(table.drop_last()) + table.last().count as nat
    }
}

/// Sums the counts of a list.
pub fn total_count(table: &Vec<Tally>) -> (r: u64)
    requires
        table@.len() <= u32::MAX,
    ensures
        r == count_sum(table@),
{
    let mut r: u64 = 0;
    let mut i: usize = 0;
    assert(table@.take(0).len() == 0);
    while i < table.len()
        invariant
            i <= table@.len() <= u32::MAX,
            r == count_sum(table@.take(i as int)),
            r <= i * u32::MAX,
        decreases table@.len() - i,
    {
        assert(table@.take(i + 1).drop_last() =~= table@.take(i as int));
        r = r + table[i].count as u64;
        i = i + 1;
    }
    assert(table@.take(i as int) =~= table@);
    r
}

proof fn lemma_without(s: Seq<char>, c: char, x: char)
    ensures
        occurrences(s.filter(|y: char| y != c), x) == if x == c {
            0
        } else {
            occurrences(s, x)
        },
        s.filter(|y: char| y != c).len() + occurrences(s, c) == s.len(),
    decreases s.len(),
{
    reveal(Seq::filter);
    let f = |y: char| y != c;
    if s.len() > 0 {
        lemma_without(s.drop_last(), c, x);
        if f(s.last()) {
            lemma_occurrences_push(s.drop_last().filter(f), s.last());
        }
    }
}

/// Every character is counted once: the counts add up to the length of the text.
pub proof fn law_counts_total(table: Seq<Tally>, s: Seq<char>)
    requires
        counts(table, s),
    ensures
        count_sum(table) == s.len(),
    decreases table.len(),
{
    if table.len() == 0 {
        if s.len() > 0 {
            assert(occurrences(s, s.last()) == 0);
        }
    } else {
        let c = table.last().letter;
        let t = table.drop_last();
        let u = s.filter(|y: char| y != c);
        assert(table[table.len() - 1] == table.last());
        lemma_without(s, c, c);
        assert forall|i: int, j: int| 0 <= i < j < t.len() implies (#[trigger] t[i]).letter != (
        #[trigger] t[j]).letter by {
            assert(table[i].letter != table[j].letter);
        }
        assert forall|i: int| 0 <= i < t.len() implies (#[trigger] t[i]).count == occurrences(
            u,
            t[i].letter,
        ) && t[i].count > 0 by {
            lemma_without(s, c, t[i].letter);
            assert(table[i].letter != table[table.len() - 1].letter);
        }
        assert forall|x: char|
            (forall|i: int| 0 <= i < t.len() ==> (#[trigger] t[i]).letter
                != x) implies #[trigger] occurrences(u, x) == 0 by {
            lemma_without(s, c, x);
            if x != c {
                assert forall|i: int| 0 <= i < table.len() implies (#[trigger] table[i]).letter
                    != x by {
                    if i < t.len() {
                        assert(t[i].letter != x);
                    }
                }
            }
        }
        law_counts_total(t, u);
    }
}

/// How often a character occurs is its number in the multiset of the text.
pub proof fn law_occurrences(s: Seq<char>, c: char)
    ensures
        occurrences(s, c) == s.to_multiset().count(c),
    decreases s.len(),
{
    broadcast use vstd::seq_lib::group_to_multiset_ensures;

    if s.len() > 0 {
        law_occurrences(s.drop_last(), c);
        assert(s =~= s.drop_last().push(s.last()));
    } else {
        assert(s =~= Seq::empty());
    }
}

/// The characters of some lines are those of each line, one after the other.
pub proof fn law_joined(lines: Seq<Seq<char>>)
    ensures
        joined(lines, lines.len()) == lines.flatten_alt(),
    decreases lines.len(),
{
    if lines.len() > 0 {
        let t = lines.drop_last();
        law_joined(t);
        lemma_joined_prefix(t, lines, t.len());
    }
}

proof fn lemma_joined_prefix(x: Seq<Seq<char>>, z: Seq<Seq<char>>, n: nat)
    requires
        n <= x.len(),
        n <= z.len(),
        forall|i: int| 0 <= i < n ==> x[i] == z[i],
    ensures
        joined(x, n) == joined(z, n),
    decreases n,
{
    if n > 0 {
        lemma_joined_prefix(x, z, (n - 1) as nat);
    }
}

/// What the list of counts says: every character of the text has one entry, with the number of
/// times that it occurs, nothing else has one, and no entry stands before one of a larger number.
pub proof fn law_letter_table(table: Seq<Tally>, s: Seq<char>, c: char)
    requires
        counts(table, s),
        sort::ascending(table),
    ensures
        s.contains(c) <==> exists|i: int|
            0 <= i < table.len() && (#[trigger] table[i]).letter == c,
        forall|i: int|
            0 <= i < table.len() ==> (#[trigger] table[i]).count == s.to_multiset().count(
                table[i].letter,
            ),
        forall|i: int, j: int|
            0 <= i < j < table.len() ==> (#[trigger] table[i]).letter != (
            #[trigger] table[j]).letter && table[i].count >= table[j].count,
{
    broadcast use vstd::seq_lib::group_to_multiset_ensures;

    law_occurrences(s, c);
    assert(s.contains(c) <==> s.to_multiset().count(c) > 0);
    assert forall|i: int| 0 <= i < table.len() implies (#[trigger] table[i]).count
        == s.to_multiset().count(table[i].letter) by {
        law_occurrences(s, table[i].letter);
    }
    assert forall|i: int, j: int| 0 <= i < j < table.len() implies (#[trigger] table[i]).letter != (
    #[trigger] table[j]).letter && table[i].count >= table[j].count by {
        assert(table[i].leq(table[j]));
    }
    if s.contains(c) && !exists|i: int|
        0 <= i < table.len() && (#[trigger] table[i]).letter == c {
        assert(occurrences(s, c) == 0);
    }
}

/// The sum of the counts is that of all entries.
pub proof fn law_count_sum(table: Seq<Tally>)
    ensures
        count_sum(table) == table.map_values(|t: Tally| t.count as int).fold_left(
            0int,
            |a: int, x: int| a + x,
        ),
    decreases table.len(),
{
    if table.len() > 0 {
        let f = |t: Tally| t.count as int;
        law_count_sum(table.drop_last());
        assert(table.map_values(f).drop_last() =~= table.drop_last().map_values(f));
    }
}

} // verus!
