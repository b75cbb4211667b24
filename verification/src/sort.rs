//! Sorting by a total order.

use vstd::prelude::*;
use vstd::relations::{sorted_by, total_ordering};

verus! {

/// Values with a total order that code can test.
pub trait Ordered: Sized + Copy {
    /// Whether `self` stands no later than `other`.
    spec fn leq(self, other: Self) -> bool;

    /// The order is total: reflexive, antisymmetric, transitive and connected.
    proof fn order_is_total(a: Self, b: Self, c: Self)
        ensures
            a.leq(a),
            a.leq(b) || b.leq(a),
            a.leq(b) && b.leq(a) ==> a == b,
            a.leq(b) && b.leq(c) ==> a.leq(c),
    ;

    /// Tests the order.
    fn le_than(&self, other: &Self) -> (r: bool)
        ensures
            r == self.leq(*other),
    ;
}

/// The order of `T` as a relation.
pub open spec fn order<T: Ordered>() -> spec_fn(T, T) -> bool {
    |a: T, b: T| a.leq(b)
}

/// The same items in ascending order.
pub open spec fn sorted<T: Ordered>(s: Seq<T>) -> Seq<T> {
    s.sort_by(order::<T>())
}

/// Whether no item stands before a smaller one.
pub open spec fn ascending<T: Ordered>(s: Seq<T>) -> bool {
    forall|i: int, j: int| 0 <= i < j < s.len() ==> #[trigger] s[i].leq(#[trigger] s[j])
}

proof fn lemma_order_total<T: Ordered>()
    ensures
        total_ordering(order::<T>()),
{
    let r = order::<T>();
    assert forall|x: T| #[trigger] r(x, x) by {
        T::order_is_total(x, x, x);
    }
    assert forall|x: T, y: T| #[trigger] r(x, y) && #[trigger] r(y, x) implies x == y by {
        T::order_is_total(x, y, y);
    }
    assert forall|x: T, y: T, z: T| #[trigger] r(x, y) && #[trigger] r(y, z) implies r(x, z) by {
        T::order_is_total(x, y, z);
    }
    assert forall|x: T, y: T| #[trigger] r(x, y) || #[trigger] r(y, x) by {
        T::order_is_total(x, y, y);
    }
}

/// Two lists with the same items, each as often, have the same length and the same members.
pub proof fn lemma_same_items<T>(a: Seq<T>, b: Seq<T>)
    requires
        a.to_multiset() == b.to_multiset(),
    ensures
        a.len() == b.len(),
        forall|x: T| #[trigger] a.contains(x) <==> b.contains(x),
{
    broadcast use vstd::seq_lib::group_to_multiset_ensures;

    a.to_multiset_ensures();
    b.to_multiset_ensures();
    assert forall|x: T| #[trigger] a.contains(x) <==> b.contains(x) by {
        assert(a.contains(x) <==> a.to_multiset().count(x) > 0);
        assert(b.contains(x) <==> b.to_multiset().count(x) > 0);
    }
}

/// Sorting keeps the items and puts them in order.
pub proof fn lemma_sorted<T: Ordered>(s: Seq<T>)
    ensures
        ascending(sorted(s)),
        sorted(s).to_multiset() == s.to_multiset(),
        sorted(s).len() == s.len(),
        forall|x: T| #[trigger] sorted(s).contains(x) <==> s.contains(x),
{
    lemma_order_total::<T>();
    s.lemma_sort_by_ensures(order::<T>());
    lemma_same_items(sorted(s), s);
    let t = sorted(s);
    assert forall|i: int, j: int| 0 <= i < j < t.len() implies #[trigger] t[i].leq(
        #[trigger] t[j],
    ) by {
        assert(order::<T>()(t[i], t[j]));
    }
}

/// A list in order that has the items of `s` is `s` sorted.
pub proof fn lemma_sorted_unique<T: Ordered>(s: Seq<T>, t: Seq<T>)
    requires
        ascending(t),
        t.to_multiset() == s.to_multiset(),
    ensures
        t == sorted(s),
{
    lemma_order_total::<T>();
    lemma_sorted(s);
    assert(sorted_by(t, order::<T>()));
    assert(sorted_by(sorted(s), order::<T>()));
    vstd::seq_lib::lemma_sorted_unique(t, sorted(s), order::<T>());
}

proof fn lemma_take_push<T>(s: Seq<T>, i: int)
    requires
        0 <= i < s.len(),
    ensures
        s.take(i + 1) == s.take(i).push(s[i]),
        s.take(i + 1).to_multiset() == s.take(i).to_multiset().insert(s[i]),
{
    broadcast use vstd::seq_lib::group_to_multiset_ensures;

    assert(s.take(i + 1) =~= s.take(i).push(s[i]));
}

/// Merges two lists in order.
fn merge<T: Ordered>(a: &Vec<T>, b: &Vec<T>) -> (r: Vec<T>)
    requires
        ascending(a@),
        ascending(b@),
        a@.len() + b@.len() <= usize::MAX,
    ensures
        ascending(r@),
        r@.to_multiset() == a@.to_multiset().add(b@.to_multiset()),
{
    broadcast use vstd::seq_lib::group_to_multiset_ensures;

    let mut r: Vec<T> = Vec::with_capacity(a.len() + b.len());
    let mut i: usize = 0;
    let mut j: usize = 0;
    assert(a@.take(0) =~= Seq::empty());
    assert(b@.take(0) =~= Seq::empty());
    assert(r@.to_multiset() =~= a@.take(0).to_multiset().add(b@.take(0).to_multiset()));
    while i < a.len() || j < b.len()
        invariant
            i <= a@.len(),
            j <= b@.len(),
            ascending(a@),
            ascending(b@),
            ascending(r@),
            r@.to_multiset() == a@.take(i as int).to_multiset().add(
                b@.take(j as int).to_multiset(),
            ),
            forall|k: int, l: int|
                0 <= k < r@.len() && i <= l < a@.len() ==> #[trigger] r@[k].leq(#[trigger] a@[l]),
            forall|k: int, l: int|
                0 <= k < r@.len() && j <= l < b@.len() ==> #[trigger] r@[k].leq(#[trigger] b@[l]),
        decreases a@.len() - i + b@.len() - j,
    {
        let ghost before = r@;
        let left = if i >= a.len() {
            false
        } else if j >= b.len() {
            true
        } else {
            a[i].le_than(&b[j])
        };
        if left {
            let x = a[i];
            proof {
                lemma_take_push(a@, i as int);
                assert forall|l: int| i < l < a@.len() implies x.leq(#[trigger] a@[l]) by {}
                assert forall|l: int| j <= l < b@.len() implies x.leq(#[trigger] b@[l]) by {
                    T::order_is_total(x, b@[j as int], b@[l]);
                }
            }
            r.push(x);
            i = i + 1;
        } else {
            let x = b[j];
            proof {
                lemma_take_push(b@, j as int);
                assert forall|l: int| j < l < b@.len() implies x.leq(#[trigger] b@[l]) by {}
                assert forall|l: int| i <= l < a@.len() implies x.leq(#[trigger] a@[l]) by {
                    T::order_is_total(a@[i as int], x, x);
                    T::order_is_total(x, a@[i as int], a@[l]);
                }
            }
            r.push(x);
            j = j + 1;
        }
        proof {
            lemma_take_push(r@, before.len() as int);
            assert(r@.take(before.len() as int) =~= before);
            assert(r@.take(r@.len() as int) =~= r@);
            assert(r@.to_multiset() =~= a@.take(i as int).to_multiset().add(
                b@.take(j as int).to_multiset(),
            ));
        }
    }
    assert(a@.take(a@.len() as int) =~= a@);
    assert(b@.take(b@.len() as int) =~= b@);
    r
}

fn sort_range<T: Ordered>(v: &Vec<T>, lo: usize, hi: usize) -> (r: Vec<T>)
    requires
        lo <= hi <= v@.len(),
    ensures
        ascending(r@),
        r@.to_multiset() == v@.subrange(lo as int, hi as int).to_multiset(),
    decreases hi - lo,
{
    broadcast use vstd::seq_lib::group_to_multiset_ensures;

    if hi - lo <= 1 {
        let mut r: Vec<T> = Vec::new();
        if lo < hi {
            r.push(v[lo]);
        }
        assert(r@ =~= v@.subrange(lo as int, hi as int));
        r
    } else {
        let mid: usize = lo + (hi - lo) / 2;
        let a = sort_range(v, lo, mid);
        let b = sort_range(v, mid, hi);
        proof {
            vstd::seq_lib::lemma_multiset_commutative(
                v@.subrange(lo as int, mid as int),
                v@.subrange(mid as int, hi as int),
            );
            assert(v@.subrange(lo as int, hi as int) =~= v@.subrange(lo as int, mid as int)
                + v@.subrange(mid as int, hi as int));
            lemma_same_items(a@, v@.subrange(lo as int, mid as int));
            lemma_same_items(b@, v@.subrange(mid as int, hi as int));
        }
        merge(&a, &b)
    }
}

/// Sorts a list in ascending order.
pub fn sort<T: Ordered>(v: &Vec<T>) -> (r: Vec<T>)
    ensures
        r@ == sorted(v@),
{
    let r = sort_range(v, 0, v.len());
    proof {
        assert(v@.subrange(0, v@.len() as int) =~= v@);
        lemma_sorted_unique(v@, r@);
    }
    r
}

impl Ordered for u32 {
    open spec fn leq(self, other: u32) -> bool {
        self <= other
    }

    proof fn order_is_total(a: u32, b: u32, c: u32) {
    }

    fn le_than(&self, other: &u32) -> (r: bool) {
        *self <= *other
    }
}

impl Ordered for u64 {
    open spec fn leq(self, other: u64) -> bool {
        self <= other
    }

    proof fn order_is_total(a: u64, b: u64, c: u64) {
    }

    fn le_than(&self, other: &u64) -> (r: bool) {
        *self <= *other
    }
}

} // verus!
