//! Remembered results, keyed by lists of columns.

use std::collections::HashMap;
use vstd::prelude::*;
use vstd::slice::slice_to_vec;

verus! {

/// A remembered result: the list, and the cost and guess found for it.
pub struct Entry {
    pub key: Vec<u32>,
    pub cost: Option<u128>,
    pub guess: u32,
}

/// A map from lists of columns to a cost and a guess. Lists are found by a hash of their columns.
pub struct Memo {
    slots: HashMap<u64, Vec<Entry>>,
    contents: Ghost<Map<Seq<u32>, (Option<u128>, u32)>>,
}

/// The hash of the first `n` columns of a list.
#[verifier::opaque]
pub open spec fn hash_of(s: Seq<u32>, n: nat) -> int
    decreases n,
{
    if n == 0 {
        0
    } else {
        (hash_of(s, (n - 1) as nat) * 0x9e37_79b9_7f4a_7c15 + s[n - 1] + 1)
            % 0x1_0000_0000_0000_0000
    }
}

fn hash(s: &[u32]) -> (h: u64)
    ensures
        h == hash_of(s@, s@.len()),
{
    reveal(hash_of);
    let mut h: u64 = 0;
    let mut i: usize = 0;
    while i < s.len()
        invariant
            i <= s@.len(),
            h == hash_of(s@, i as nat),
        decreases s@.len() - i,
    {
        reveal(hash_of);
        let x: u128 = h as u128 * 0x9e37_79b9_7f4a_7c15u128 + s[i] as u128 + 1;
        h = (x % 0x1_0000_0000_0000_0000u128) as u64;
        i = i + 1;
    }
    h
}

/// Whether two lists are equal.
pub fn same_list(a: &[u32], b: &[u32]) -> (r: bool)
    ensures
        r == (a@ == b@),
{
    if a.len() != b.len() {
        return false;
    }
    let mut i: usize = 0;
    while i < a.len()
        invariant
            a@.len() == b@.len(),
            i <= a@.len(),
            forall|j: int| 0 <= j < i ==> a@[j] == b@[j],
        decreases a@.len() - i,
    {
        if a[i] != b[i] {
            return false;
        }
        i = i + 1;
    }
    assert(a@ =~= b@);
    true
}

/// Where a list stands in a slot.
fn find(slot: &Vec<Entry>, s: &[u32]) -> (r: Option<usize>)
    ensures
        match r {
            Some(i) => i < slot@.len() && slot@[i as int].key@ == s@,
            None => forall|i: int| 0 <= i < slot@.len() ==> (#[trigger] slot@[i]).key@ != s@,
        },
{
    let mut i: usize = 0;
    while i < slot.len()
        invariant
            i <= slot@.len(),
            forall|j: int| 0 <= j < i ==> (#[trigger] slot@[j]).key@ != s@,
        decreases slot@.len() - i,
    {
        if same_list(slot[i].key.as_slice(), s) {
            return Some(i);
        }
        i = i + 1;
    }
    None
}

/// Every entry stands in the slot of its hash and is part of the map, no list has two entries, and
/// every list of the map has its entry.
spec fn consistent(
    slots: Map<u64, Vec<Entry>>,
    contents: Map<Seq<u32>, (Option<u128>, u32)>,
) -> bool {
    &&& forall|h: u64, i: int|
        slots.contains_key(h) && 0 <= i < slots[h]@.len() ==> {
            let e = #[trigger] slots[h]@[i];
            &&& h == hash_of(e.key@, e.key@.len())
            &&& contents.contains_key(e.key@)
            &&& contents[e.key@] == (e.cost, e.guess)
        }
    &&& forall|h: u64, i: int, j: int|
        slots.contains_key(h) && 0 <= i < j < slots[h]@.len() ==> (#[trigger] slots[h]@[i]).key@
            != (#[trigger] slots[h]@[j]).key@
    &&& forall|k: Seq<u32>| #[trigger]
        contents.contains_key(k) ==> exists|h: u64, i: int|
            h == hash_of(k, k.len()) && slots.contains_key(h) && 0 <= i < slots[h]@.len() && (
            #[trigger] slots[h]@[i]).key@ == k
}

/// Putting one entry into its slot, over an old entry of the same list or at the end.
proof fn lemma_insert(
    before: Map<u64, Vec<Entry>>,
    after: Map<u64, Vec<Entry>>,
    contents: Map<Seq<u32>, (Option<u128>, u32)>,
    s: Seq<u32>,
    v: (Option<u128>, u32),
    h: u64,
    at: int,
)
    requires
        consistent(before, contents),
        h == hash_of(s, s.len()),
        after.contains_key(h),
        forall|g: u64| g != h ==> before.contains_key(g) == after.contains_key(g),
        forall|g: u64| g != h && before.contains_key(g) ==> before[g] == #[trigger] after[g],
        0 <= at < after[h]@.len(),
        after[h]@[at].key@ == s,
        after[h]@[at].cost == v.0,
        after[h]@[at].guess == v.1,
        forall|i: int|
            0 <= i < after[h]@.len() && i != at ==> before.contains_key(h) && i < before[h]@.len()
                && #[trigger] after[h]@[i] == before[h]@[i] && after[h]@[i].key@ != s,
        before.contains_key(h) ==> before[h]@.len() <= after[h]@.len() && (at < before[h]@.len()
            ==> before[h]@[at].key@ == s),
    ensures
        consistent(after, contents.insert(s, v)),
{
    let now = contents.insert(s, v);
    assert forall|g: u64, i: int, j: int|
        after.contains_key(g) && 0 <= i < j < after[g]@.len() implies (
    #[trigger] after[g]@[i]).key@ != (#[trigger] after[g]@[j]).key@ by {
        if g != h {
            assert(before[g]@[i] == after[g]@[i] && before[g]@[j] == after[g]@[j]);
        } else if i != at && j != at {
            assert(before[g]@[i] == after[g]@[i] && before[g]@[j] == after[g]@[j]);
        }
    }
    assert forall|k: Seq<u32>| #[trigger] now.contains_key(k) implies exists|g: u64, i: int|
        g == hash_of(k, k.len()) && after.contains_key(g) && 0 <= i < after[g]@.len() && (
        #[trigger] after[g]@[i]).key@ == k by {
        if k == s {
            assert(after[h]@[at].key@ == k);
        } else {
            assert(contents.contains_key(k));
            let (g, i) = choose|g: u64, i: int|
                g == hash_of(k, k.len()) && before.contains_key(g) && 0 <= i < before[g]@.len() && (
                #[trigger] before[g]@[i]).key@ == k;
            if g == h {
                assert(i != at);
                assert(after[g]@[i] == before[g]@[i]);
            }
            assert(after[g]@[i].key@ == k);
        }
    }
    assert forall|g: u64, i: int| after.contains_key(g) && 0 <= i < after[g]@.len() implies {
        let e = #[trigger] after[g]@[i];
        &&& g == hash_of(e.key@, e.key@.len())
        &&& now.contains_key(e.key@)
        &&& now[e.key@] == (e.cost, e.guess)
    } by {
        if g != h {
            assert(before[g]@[i] == after[g]@[i]);
            assert(before[g]@[i].key@ != s);
        } else if i != at {
            assert(before[h]@[i] == after[h]@[i]);
        }
    }
}

impl View for Memo {
    type V = Map<Seq<u32>, (Option<u128>, u32)>;

    closed spec fn view(&self) -> Map<Seq<u32>, (Option<u128>, u32)> {
        self.contents@
    }
}

impl Memo {
    /// The slots hold the map.
    pub closed spec fn wf(&self) -> bool {
        consistent(self.slots@, self.contents@)
    }

    /// Nothing remembered.
    pub fn new() -> (m: Memo)
        ensures
            m.wf(),
            m@ == Map::<Seq<u32>, (Option<u128>, u32)>::empty(),
    {
        broadcast use vstd::std_specs::hash::group_hash_axioms;

        Memo { slots: HashMap::new(), contents: Ghost(Map::empty()) }
    }

    /// The result remembered for a list.
    pub fn get(&self, s: &[u32]) -> (r: Option<(Option<u128>, u32)>)
        requires
            self.wf(),
        ensures
            match r {
                Some(v) => self@.contains_key(s@) && self@[s@] == v,
                None => !self@.contains_key(s@),
            },
    {
        broadcast use vstd::std_specs::hash::group_hash_axioms;

        let h = hash(s);
        match self.slots.get(&h) {
            Some(slot) => {
                match find(slot, s) {
                    Some(i) => {
                        assert(self.slots@[h]@[i as int].key@ == s@);
                        Some((slot[i].cost, slot[i].guess))
                    },
                    None => None,
                }
            },
            None => None,
        }
    }

    /// Remembers a result.
    pub fn insert(&mut self, s: &[u32], cost: Option<u128>, guess: u32)
        requires
            old(self).wf(),
        ensures
            final(self).wf(),
            final(self)@ == old(self)@.insert(s@, (cost, guess)),
    {
        broadcast use vstd::std_specs::hash::group_hash_axioms;

        let h = hash(s);
        let ghost before = self.slots@;
        let mut slot = match self.slots.remove(&h) {
            Some(slot) => slot,
            None => Vec::new(),
        };
        let e = Entry { key: slice_to_vec(s), cost, guess };
        let found = find(&slot, s);
        let ghost at: int = match found {
            Some(i) => i as int,
            None => slot@.len() as int,
        };
        match found {
            Some(i) => {
                slot[i] = e;
            },
            None => {
                slot.push(e);
            },
        }
        self.slots.insert(h, slot);
        self.contents = Ghost(self.contents@.insert(s@, (cost, guess)));
        proof {
            assert forall|i: int|
                0 <= i < self.slots@[h]@.len() && i != at implies before.contains_key(h) && i
                < before[h]@.len() && #[trigger] self.slots@[h]@[i] == before[h]@[i]
                && self.slots@[h]@[i].key@ != s@ by {
                if found is Some {
                    assert(before[h]@[at].key@ == s@);
                    assert(before[h]@[i].key@ != s@);
                }
            }
            lemma_insert(before, self.slots@, old(self).contents@, s@, (cost, guess), h, at);
        }
    }
}

} // verus!
