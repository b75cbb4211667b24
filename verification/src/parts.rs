//! Splitting a list of columns by a label, and what the parts add up to.

use vstd::prelude::*;
use crate::bounds;
use crate::sort;

verus! {

/// Sorting or otherwise reordering columns reorders their weights.
pub proof fn lemma_weights_permuted(w: Seq<u64>, s: Seq<u32>, t: Seq<u32>)
    requires
        s.to_multiset() == t.to_multiset(),
    ensures
        bounds::weights_of(w, s).to_multiset() == bounds::weights_of(w, t).to_multiset(),
    decreases s.len(),
{
    broadcast use vstd::seq_lib::group_to_multiset_ensures;

    sort::lemma_same_items(s, t);
    let a = bounds::weights_of(w, s);
    let b = bounds::weights_of(w, t);
    if s.len() == 0 {
        assert(a =~= b);
    } else {
        let x = s.last();
        assert(s[s.len() - 1] == x);
        assert(s.contains(x));
        let k = choose|k: int| 0 <= k < t.len() && t[k] == x;
        assert(s.remove(s.len() - 1) =~= s.drop_last());
        assert(s.drop_last().to_multiset() =~= t.remove(k).to_multiset());
        lemma_weights_permuted(w, s.drop_last(), t.remove(k));
        let a1 = bounds::weights_of(w, s.drop_last());
        let b1 = bounds::weights_of(w, t.remove(k));
        assert(a.remove(s.len() - 1) =~= a1);
        assert(b.remove(k) =~= b1);
        assert(a =~= a1.push(w[x as int]));
        assert(b =~= b1.insert(k, w[x as int]));
        assert(a1.push(w[x as int]).to_multiset() =~= a1.to_multiset().insert(w[x as int]));
        assert(b1.insert(k, w[x as int]).to_multiset() =~= b1.to_multiset().insert(w[x as int]));
    }
}

/// The number of columns that pass a test does not depend on their order.
pub proof fn lemma_filter_len_permuted(s: Seq<u32>, t: Seq<u32>, f: spec_fn(u32) -> bool)
    requires
        s.to_multiset() == t.to_multiset(),
    ensures
        s.filter(f).len() == t.filter(f).len(),
    decreases s.len(),
{
    broadcast use vstd::seq_lib::group_to_multiset_ensures;

    sort::lemma_same_items(s, t);
    if s.len() > 0 {
        let x = s.last();
        assert(s[s.len() - 1] == x);
        assert(s.contains(x));
        let k = choose|k: int| 0 <= k < t.len() && t[k] == x;
        assert(s.remove(s.len() - 1) =~= s.drop_last());
        assert(s.drop_last().to_multiset() =~= t.remove(k).to_multiset());
        lemma_filter_len_permuted(s.drop_last(), t.remove(k), f);
        let a = t.take(k);
        let b = t.skip(k + 1);
        let one = seq![x];
        assert(t =~= (a + one) + b);
        assert(t.remove(k) =~= a + b);
        assert(s =~= s.drop_last() + one);
        Seq::filter_distributes_over_add(a + one, b, f);
        Seq::filter_distributes_over_add(a, one, f);
        Seq::filter_distributes_over_add(a, b, f);
        Seq::filter_distributes_over_add(s.drop_last(), one, f);
    }
}

/// The columns that pass a test are the same in any order.
pub proof fn lemma_filter_permuted(s: Seq<u32>, t: Seq<u32>, f: spec_fn(u32) -> bool)
    requires
        s.to_multiset() == t.to_multiset(),
    ensures
        s.filter(f).to_multiset() == t.filter(f).to_multiset(),
    decreases s.len(),
{
    broadcast use vstd::seq_lib::group_to_multiset_ensures;

    sort::lemma_same_items(s, t);
    if s.len() == 0 {
        assert(s =~= t);
    } else {
        let x = s.last();
        assert(s[s.len() - 1] == x);
        assert(s.contains(x));
        let k = choose|k: int| 0 <= k < t.len() && t[k] == x;
        assert(s.remove(s.len() - 1) =~= s.drop_last());
        assert(s.drop_last().to_multiset() =~= t.remove(k).to_multiset());
        lemma_filter_permuted(s.drop_last(), t.remove(k), f);
        let a = t.take(k);
        let b = t.skip(k + 1);
        let one = seq![x];
        assert(t =~= (a + one) + b);
        assert(t.remove(k) =~= a + b);
        assert(s =~= s.drop_last() + one);
        Seq::filter_distributes_over_add(a + one, b, f);
        Seq::filter_distributes_over_add(a, one, f);
        Seq::filter_distributes_over_add(a, b, f);
        Seq::filter_distributes_over_add(s.drop_last(), one, f);
        vstd::seq_lib::lemma_multiset_commutative(s.drop_last().filter(f), one.filter(f));
        vstd::seq_lib::lemma_multiset_commutative(a.filter(f) + one.filter(f), b.filter(f));
        vstd::seq_lib::lemma_multiset_commutative(a.filter(f), one.filter(f));
        vstd::seq_lib::lemma_multiset_commutative(a.filter(f), b.filter(f));
        assert(s.filter(f).to_multiset() =~= t.filter(f).to_multiset());
    }
}

/// The columns that pass a test are some of all.
pub proof fn lemma_filter_within(s: Seq<u32>, f: spec_fn(u32) -> bool)
    ensures
        s.filter(f).to_multiset().subset_of(s.to_multiset()),
    decreases s.len(),
{
    broadcast use vstd::seq_lib::group_to_multiset_ensures;

    reveal(Seq::filter);
    if s.len() > 0 {
        let t = s.drop_last();
        lemma_filter_within(t, f);
        assert(s =~= t.push(s.last()));
    }
}

/// The test for a label.
pub open spec fn labelled(f: spec_fn(u32) -> int, p: int) -> spec_fn(u32) -> bool {
    |c: u32| f(c) == p
}

/// The total weight of the parts with labels below `n`.
pub open spec fn parts_total(w: Seq<u64>, s: Seq<u32>, f: spec_fn(u32) -> int, n: nat) -> nat
    decreases n,
{
    if n == 0 {
        0
    } else {
        parts_total(w, s, f, (n - 1) as nat) + bounds::total(
            bounds::weights_of(w, s.filter(labelled(f, n - 1))),
        )
    }
}

/// The number of columns in the parts with labels below `n`.
pub open spec fn parts_len(s: Seq<u32>, f: spec_fn(u32) -> int, n: nat) -> nat
    decreases n,
{
    if n == 0 {
        0
    } else {
        parts_len(s, f, (n - 1) as nat) + s.filter(labelled(f, n - 1)).len()
    }
}

/// The sum over the labels below `n` of the heaviest sums of the parts, `caps` of each.
pub open spec fn parts_top(
    w: Seq<u64>,
    s: Seq<u32>,
    f: spec_fn(u32) -> int,
    caps: spec_fn(int) -> nat,
    n: nat,
) -> nat
    decreases n,
{
    if n == 0 {
        0
    } else {
        parts_top(w, s, f, caps, (n - 1) as nat) + bounds::top(
            bounds::weights_of(w, s.filter(labelled(f, n - 1))),
            caps(n - 1),
        )
    }
}

/// The sum of the caps below `n`.
pub open spec fn caps_total(caps: spec_fn(int) -> nat, n: nat) -> nat
    decreases n,
{
    if n == 0 {
        0
    } else {
        caps_total(caps, (n - 1) as nat) + caps(n - 1)
    }
}

/// What one more column does to the parts.
proof fn lemma_part_step(s: Seq<u32>, f: spec_fn(u32) -> int, p: int)
    requires
        s.len() > 0,
    ensures
        s.filter(labelled(f, p)) == if f(s.last()) == p {
            s.drop_last().filter(labelled(f, p)).push(s.last())
        } else {
            s.drop_last().filter(labelled(f, p))
        },
{
    reveal(Seq::filter);
}

proof fn lemma_weights_push(w: Seq<u64>, s: Seq<u32>, x: u32)
    ensures
        bounds::weights_of(w, s.push(x)) == bounds::weights_of(w, s).push(w[x as int]),
        bounds::weights_of(w, s.push(x)).drop_last() == bounds::weights_of(w, s),
        bounds::total(bounds::weights_of(w, s.push(x))) == bounds::total(bounds::weights_of(w, s))
            + w[x as int],
{
    let a = bounds::weights_of(w, s.push(x));
    assert(a =~= bounds::weights_of(w, s).push(w[x as int]));
    assert(a.drop_last() =~= bounds::weights_of(w, s));
}

proof fn lemma_parts_step(w: Seq<u64>, s: Seq<u32>, f: spec_fn(u32) -> int, n: nat)
    requires
        s.len() > 0,
    ensures
        parts_total(w, s, f, n) == parts_total(w, s.drop_last(), f, n) + if 0 <= f(s.last()) < n {
            w[s.last() as int]
        } else {
            0
        },
        parts_len(s, f, n) == parts_len(s.drop_last(), f, n) + if 0 <= f(s.last()) < n {
            1int
        } else {
            0
        },
    decreases n,
{
    if n > 0 {
        lemma_parts_step(w, s, f, (n - 1) as nat);
        lemma_part_step(s, f, n - 1);
        if f(s.last()) == n - 1 {
            lemma_weights_push(w, s.drop_last().filter(labelled(f, n - 1)), s.last());
        }
    }
}

/// The parts hold each column once, if its label is below `n`.
pub proof fn lemma_parts(w: Seq<u64>, s: Seq<u32>, f: spec_fn(u32) -> int, n: nat)
    ensures
        parts_total(w, s, f, n) <= bounds::total(bounds::weights_of(w, s)),
        parts_len(s, f, n) <= s.len(),
        (forall|i: int| 0 <= i < s.len() ==> 0 <= f(#[trigger] s[i]) < n) ==> parts_total(
            w,
            s,
            f,
            n,
        ) == bounds::total(bounds::weights_of(w, s)) && parts_len(s, f, n) == s.len(),
    decreases s.len(),
{
    if s.len() == 0 {
        lemma_parts_empty(w, s, f, n);
    } else {
        let t = s.drop_last();
        lemma_parts(w, t, f, n);
        lemma_parts_step(w, s, f, n);
        assert(s =~= t.push(s.last()));
        lemma_weights_push(w, t, s.last());
        if forall|i: int| 0 <= i < s.len() ==> 0 <= f(#[trigger] s[i]) < n {
            assert forall|i: int| 0 <= i < t.len() implies 0 <= f(#[trigger] t[i]) < n by {
                assert(t[i] == s[i]);
            }
            assert(s[s.len() - 1] == s.last());
        }
    }
}

proof fn lemma_parts_empty(w: Seq<u64>, s: Seq<u32>, f: spec_fn(u32) -> int, n: nat)
    requires
        s.len() == 0,
    ensures
        parts_total(w, s, f, n) == 0,
        parts_len(s, f, n) == 0,
    decreases n,
{
    if n > 0 {
        lemma_parts_empty(w, s, f, (n - 1) as nat);
        reveal(Seq::filter);
    }
}

/// One less at `p`.
pub open spec fn lower(caps: spec_fn(int) -> nat, p: int) -> spec_fn(int) -> nat {
    |q: int|
        if q == p {
            (caps(q) - 1) as nat
        } else {
            caps(q)
        }
}

proof fn lemma_lower_total(caps: spec_fn(int) -> nat, p: int, n: nat)
    requires
        caps(p) > 0,
    ensures
        caps_total(lower(caps, p), n) == caps_total(caps, n) - if 0 <= p < n {
            1int
        } else {
            0
        },
    decreases n,
{
    if n > 0 {
        lemma_lower_total(caps, p, (n - 1) as nat);
    }
}

/// Leaving the last column out of the heaviest sums.
proof fn lemma_parts_top_without(
    w: Seq<u64>,
    s: Seq<u32>,
    f: spec_fn(u32) -> int,
    caps: spec_fn(int) -> nat,
    n: nat,
)
    requires
        s.len() > 0,
        ({
            let p = f(s.last());
            let old_part = bounds::weights_of(w, s.drop_last().filter(labelled(f, p)));
            let new_part = bounds::weights_of(w, s.filter(labelled(f, p)));
            0 <= p < n ==> bounds::top(new_part, caps(p)) == bounds::top(old_part, caps(p))
        }),
    ensures
        parts_top(w, s, f, caps, n) == parts_top(w, s.drop_last(), f, caps, n),
    decreases n,
{
    if n > 0 {
        lemma_parts_top_without(w, s, f, caps, (n - 1) as nat);
        lemma_part_step(s, f, n - 1);
    }
}

/// Taking the last column into the heaviest sums.
proof fn lemma_parts_top_with(
    w: Seq<u64>,
    s: Seq<u32>,
    f: spec_fn(u32) -> int,
    caps: spec_fn(int) -> nat,
    n: nat,
)
    requires
        s.len() > 0,
        caps(f(s.last())) > 0,
        ({
            let p = f(s.last());
            let old_part = bounds::weights_of(w, s.drop_last().filter(labelled(f, p)));
            let new_part = bounds::weights_of(w, s.filter(labelled(f, p)));
            bounds::top(new_part, caps(p)) == w[s.last() as int] + bounds::top(
                old_part,
                (caps(p) - 1) as nat,
            )
        }),
    ensures
        parts_top(w, s, f, caps, n) == parts_top(
            w,
            s.drop_last(),
            f,
            lower(caps, f(s.last())),
            n,
        ) + if 0 <= f(s.last()) < n {
            w[s.last() as int]
        } else {
            0
        },
    decreases n,
{
    if n > 0 {
        lemma_parts_top_with(w, s, f, caps, (n - 1) as nat);
        lemma_part_step(s, f, n - 1);
    }
}

proof fn lemma_parts_top_empty(
    w: Seq<u64>,
    s: Seq<u32>,
    f: spec_fn(u32) -> int,
    caps: spec_fn(int) -> nat,
    n: nat,
)
    requires
        s.len() == 0,
    ensures
        parts_top(w, s, f, caps, n) == 0,
    decreases n,
{
    if n > 0 {
        lemma_parts_top_empty(w, s, f, caps, (n - 1) as nat);
        reveal(Seq::filter);
    }
}

/// The heaviest sums of the parts together are a sum of columns of the whole, and so at most its
/// heaviest sum of that many.
pub proof fn lemma_parts_top(
    w: Seq<u64>,
    s: Seq<u32>,
    f: spec_fn(u32) -> int,
    caps: spec_fn(int) -> nat,
    n: nat,
)
    ensures
        parts_top(w, s, f, caps, n) <= bounds::top(
            bounds::weights_of(w, s),
            caps_total(caps, n),
        ),
    decreases s.len(),
{
    if s.len() == 0 {
        lemma_parts_top_empty(w, s, f, caps, n);
    } else {
        let t = s.drop_last();
        let x = s.last();
        let p = f(x);
        let k = caps_total(caps, n);
        assert(s =~= t.push(x));
        lemma_weights_push(w, t, x);
        lemma_parts_top(w, t, f, caps, n);
        let old_part = t.filter(labelled(f, p));
        lemma_part_step(s, f, p);
        lemma_weights_push(w, old_part, x);
        let ws = bounds::weights_of(w, s);
        let wt = bounds::weights_of(w, t);
        assert(k > 0 ==> bounds::top(ws, k) >= bounds::top(wt, k));
        assert(k == 0 ==> bounds::top(wt, k) == 0);
        if !(0 <= p < n) || bounds::top(bounds::weights_of(w, s.filter(labelled(f, p))), caps(p))
            == bounds::top(bounds::weights_of(w, old_part), caps(p)) {
            lemma_parts_top_without(w, s, f, caps, n);
        } else {
            assert(caps(p) > 0);
            lemma_parts_top_with(w, s, f, caps, n);
            lemma_lower_total(caps, p, n);
            lemma_parts_top(w, t, f, lower(caps, p), n);
            assert(bounds::top(ws, k) >= w[x as int] + bounds::top(wt, (k - 1) as nat));
        }
    }
}

/// The sum of a quantity over some columns.
pub open spec fn sum_over(h: spec_fn(u32) -> int, s: Seq<u32>) -> int
    decreases s.len(),
{
    if s.len() == 0 {
        0
    } else {
        sum_over(h, s.drop_last()) + h(s.last())
    }
}

/// The sum of a quantity over the parts with labels below `n`.
pub open spec fn parts_sum(
    h: spec_fn(u32) -> int,
    s: Seq<u32>,
    f: spec_fn(u32) -> int,
    n: nat,
) -> int
    decreases n,
{
    if n == 0 {
        0
    } else {
        parts_sum(h, s, f, (n - 1) as nat) + sum_over(h, s.filter(labelled(f, n - 1)))
    }
}

proof fn lemma_parts_sum_step(
    h: spec_fn(u32) -> int,
    s: Seq<u32>,
    f: spec_fn(u32) -> int,
    n: nat,
)
    requires
        s.len() > 0,
    ensures
        parts_sum(h, s, f, n) == parts_sum(h, s.drop_last(), f, n) + if 0 <= f(s.last()) < n {
            h(s.last())
        } else {
            0
        },
    decreases n,
{
    if n > 0 {
        lemma_parts_sum_step(h, s, f, (n - 1) as nat);
        lemma_part_step(s, f, n - 1);
        if f(s.last()) == n - 1 {
            let part = s.drop_last().filter(labelled(f, n - 1));
            assert(part.push(s.last()).drop_last() =~= part);
        }
    }
}

/// The parts add up to the whole.
pub proof fn lemma_parts_sum(h: spec_fn(u32) -> int, s: Seq<u32>, f: spec_fn(u32) -> int, n: nat)
    requires
        forall|i: int| 0 <= i < s.len() ==> 0 <= f(#[trigger] s[i]) < n,
    ensures
        parts_sum(h, s, f, n) == sum_over(h, s),
    decreases s.len(),
{
    if s.len() == 0 {
        lemma_parts_sum_empty(h, s, f, n);
    } else {
        let t = s.drop_last();
        assert forall|i: int| 0 <= i < t.len() implies 0 <= f(#[trigger] t[i]) < n by {
            assert(t[i] == s[i]);
        }
        lemma_parts_sum(h, t, f, n);
        lemma_parts_sum_step(h, s, f, n);
        assert(s[s.len() - 1] == s.last());
    }
}

proof fn lemma_parts_sum_empty(
    h: spec_fn(u32) -> int,
    s: Seq<u32>,
    f: spec_fn(u32) -> int,
    n: nat,
)
    requires
        s.len() == 0,
    ensures
        parts_sum(h, s, f, n) == 0,
    decreases n,
{
    if n > 0 {
        lemma_parts_sum_empty(h, s, f, (n - 1) as nat);
        reveal(Seq::filter);
    }
}

/// Quantities that agree on some columns have the same sum over them.
pub proof fn lemma_sum_same(h: spec_fn(u32) -> int, k: spec_fn(u32) -> int, s: Seq<u32>)
    requires
        forall|i: int| 0 <= i < s.len() ==> h(#[trigger] s[i]) == k(s[i]),
    ensures
        sum_over(h, s) == sum_over(k, s),
    decreases s.len(),
{
    if s.len() > 0 {
        assert forall|i: int| 0 <= i < s.len() - 1 implies h(#[trigger] s.drop_last()[i]) == k(
            s.drop_last()[i],
        ) by {
            assert(s.drop_last()[i] == s[i]);
        }
        lemma_sum_same(h, k, s.drop_last());
        assert(s[s.len() - 1] == s.last());
    }
}

/// The sum of the weights of some columns, each times the same number.
pub proof fn lemma_sum_weights(h: spec_fn(u32) -> int, w: Seq<u64>, s: Seq<u32>, m: int)
    requires
        forall|i: int| 0 <= i < s.len() ==> h(#[trigger] s[i]) == w[s[i] as int] * m,
    ensures
        sum_over(h, s) == bounds::total(bounds::weights_of(w, s)) * m,
    decreases s.len(),
{
    if s.len() > 0 {
        let t = s.drop_last();
        assert forall|i: int| 0 <= i < t.len() implies h(#[trigger] t[i]) == w[t[i] as int] * m by {
            assert(t[i] == s[i]);
        }
        lemma_sum_weights(h, w, t, m);
        assert(s =~= t.push(s.last()));
        lemma_weights_push(w, t, s.last());
        assert(s[s.len() - 1] == s.last());
        let x = bounds::total(bounds::weights_of(w, t)) as int;
        let y = w[s.last() as int] as int;
        assert((x + y) * m == x * m + y * m) by (nonlinear_arith);
    } else {
        assert(bounds::weights_of(w, s).len() == 0);
        assert(0 * m == 0);
    }
}

/// The sum of the weights of some columns and of another quantity.
pub proof fn lemma_sum_plus(
    h: spec_fn(u32) -> int,
    k: spec_fn(u32) -> int,
    w: Seq<u64>,
    s: Seq<u32>,
)
    requires
        forall|i: int| 0 <= i < s.len() ==> h(#[trigger] s[i]) == w[s[i] as int] + k(s[i]),
    ensures
        sum_over(h, s) == bounds::total(bounds::weights_of(w, s)) + sum_over(k, s),
    decreases s.len(),
{
    if s.len() > 0 {
        let t = s.drop_last();
        assert forall|i: int| 0 <= i < t.len() implies h(#[trigger] t[i]) == w[t[i] as int] + k(
            t[i],
        ) by {
            assert(t[i] == s[i]);
        }
        lemma_sum_plus(h, k, w, t);
        assert(s =~= t.push(s.last()));
        lemma_weights_push(w, t, s.last());
        assert(s[s.len() - 1] == s.last());
    } else {
        assert(bounds::weights_of(w, s).len() == 0);
    }
}

proof fn lemma_sum_concat(h: spec_fn(u32) -> int, a: Seq<u32>, b: Seq<u32>)
    ensures
        sum_over(h, a + b) == sum_over(h, a) + sum_over(h, b),
    decreases b.len(),
{
    if b.len() == 0 {
        assert(a + b =~= a);
    } else {
        lemma_sum_concat(h, a, b.drop_last());
        assert((a + b).drop_last() =~= a + b.drop_last());
    }
}

/// A sum does not depend on the order of the columns.
pub proof fn lemma_sum_permuted(h: spec_fn(u32) -> int, s: Seq<u32>, t: Seq<u32>)
    requires
        s.to_multiset() == t.to_multiset(),
    ensures
        sum_over(h, s) == sum_over(h, t),
    decreases s.len(),
{
    broadcast use vstd::seq_lib::group_to_multiset_ensures;

    sort::lemma_same_items(s, t);
    if s.len() > 0 {
        let x = s.last();
        assert(s[s.len() - 1] == x);
        assert(s.contains(x));
        let k = choose|k: int| 0 <= k < t.len() && t[k] == x;
        assert(s.remove(s.len() - 1) =~= s.drop_last());
        assert(s.drop_last().to_multiset() =~= t.remove(k).to_multiset());
        lemma_sum_permuted(h, s.drop_last(), t.remove(k));
        let a = t.take(k);
        let b = t.skip(k + 1);
        assert(t =~= a.push(x) + b);
        assert(t.remove(k) =~= a + b);
        assert(a.push(x).drop_last() =~= a);
        lemma_sum_concat(h, a.push(x), b);
        lemma_sum_concat(h, a, b);
    }
}

} // verus!
