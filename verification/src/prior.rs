//! The recency prior: answers are not used again for a long time.

use vstd::prelude::*;
use crate::index;
use crate::lists;
use crate::lists::History;
use crate::words::Word;

verus! {

/// A word is not the answer again within this many games.
pub const COOLDOWN: usize = 500;

/// The time constant, in games, at which the weight of a word recovers after the cooldown.
pub const TAU: usize = 800;

/// What the past says about a word.
#[derive(Clone, Copy)]
pub enum Recency {
    /// Never an answer: full weight.
    Never,
    /// An answer within the cooldown: not a candidate.
    Cooling,
    /// An answer before the cooldown, by this many games: the weight recovers.
    Recovering(usize),
}

/// What the number of games since the last use says about a word.
pub open spec fn recency_of(t: Option<nat>) -> Recency {
    match t {
        None => Recency::Never,
        Some(n) => if n <= COOLDOWN {
            Recency::Cooling
        } else {
            Recency::Recovering((n - COOLDOWN) as usize)
        },
    }
}

/// Classifies a word by the number of games since its last use.
pub fn recency(t: Option<usize>) -> (r: Recency)
    ensures
        r == recency_of(
            match t {
                Some(n) => Some(n as nat),
                None => None,
            },
        ),
{
    match t {
        None => Recency::Never,
        Some(n) => if n <= COOLDOWN {
            Recency::Cooling
        } else {
            Recency::Recovering(n - COOLDOWN)
        },
    }
}

/// What the past answers say about a word.
pub open spec fn standing(order: Seq<Word>, w: Word) -> Recency {
    recency_of(lists::games_since(order, w))
}

/// The candidates that the prior leaves, and how many words it found of each kind.
pub struct Prior {
    pub answers: Vec<Word>,
    pub recency: Vec<Recency>,
    pub excluded: usize,
    pub recovering: usize,
    pub never_used: usize,
}

/// The words among the first `n` that are not cooling down.
pub open spec fn active(order: Seq<Word>, raw: Seq<Word>, n: nat) -> Seq<Word>
    decreases n,
{
    if n == 0 {
        Seq::empty()
    } else if standing(order, raw[n - 1]) is Cooling {
        active(order, raw, (n - 1) as nat)
    } else {
        active(order, raw, (n - 1) as nat).push(raw[n - 1])
    }
}

/// How many of the first `n` words were never an answer.
pub open spec fn never_count(order: Seq<Word>, raw: Seq<Word>, n: nat) -> nat
    decreases n,
{
    if n == 0 {
        0
    } else {
        never_count(order, raw, (n - 1) as nat) + if standing(order, raw[n - 1]) is Never {
            1nat
        } else {
            0nat
        }
    }
}

/// Applies the prior to a list of words: drops those that are cooling down.
pub fn apply_prior(raw: &Vec<Word>, history: &History) -> (r: Prior)
    requires
        history.wf(),
    ensures
        r.answers@ == active(history@, raw@, raw@.len()),
        r.recency@.len() == r.answers@.len(),
        forall|i: int|
            0 <= i < r.answers@.len() ==> #[trigger] r.recency@[i] == standing(
                history@,
                r.answers@[i],
            ) && !(r.recency@[i] is Cooling),
        r.never_used == never_count(history@, raw@, raw@.len()),
        r.recovering == r.answers@.len() - r.never_used,
        r.excluded == raw@.len() - r.answers@.len(),
{
    let mut answers: Vec<Word> = Vec::new();
    let mut kinds: Vec<Recency> = Vec::new();
    let (mut excluded, mut recovering, mut never_used): (usize, usize, usize) = (0, 0, 0);
    let mut i: usize = 0;
    while i < raw.len()
        invariant
            history.wf(),
            i <= raw@.len(),
            answers@ == active(history@, raw@, i as nat),
            kinds@.len() == answers@.len(),
            forall|k: int|
                0 <= k < answers@.len() ==> #[trigger] kinds@[k] == standing(
                    history@,
                    answers@[k],
                ) && !(kinds@[k] is Cooling),
            never_used == never_count(history@, raw@, i as nat),
            answers@.len() == never_used + recovering,
            i == excluded + recovering + never_used,
        decreases raw@.len() - i,
    {
        let w = raw[i];
        let kind = recency(history.age(&w));
        match kind {
            Recency::Cooling => {
                excluded = excluded + 1;
            },
            Recency::Recovering(_) => {
                recovering = recovering + 1;
                answers.push(w);
                kinds.push(kind);
            },
            Recency::Never => {
                never_used = never_used + 1;
                answers.push(w);
                kinds.push(kind);
            },
        }
        i = i + 1;
    }
    Prior { answers, recency: kinds, excluded, recovering, never_used }
}

/// The prior leaves a word exactly when it is on the list and was not an answer within the
/// cooldown.
pub proof fn law_active(order: Seq<Word>, raw: Seq<Word>, w: Word)
    ensures
        active(order, raw, raw.len()).contains(w) <==> raw.contains(w) && match lists::games_since(
            order,
            w,
        ) {
            Some(t) => t > COOLDOWN,
            None => true,
        },
{
    lemma_active(order, raw, raw.len(), w);
    assert(raw.take(raw.len() as int) =~= raw);
}

proof fn lemma_active(order: Seq<Word>, raw: Seq<Word>, n: nat, w: Word)
    requires
        n <= raw.len(),
    ensures
        active(order, raw, n).contains(w) <==> raw.take(n as int).contains(w) && !(standing(
            order,
            w,
        ) is Cooling),
    decreases n,
{
    if n > 0 {
        let m = (n - 1) as nat;
        lemma_active(order, raw, m, w);
        let before = active(order, raw, m);
        let now = active(order, raw, n);
        let t = raw.take(n as int);
        assert(t =~= raw.take(m as int).push(raw[n - 1]));
        assert(t[n - 1] == raw[n - 1]);
        lemma_push_contains(raw.take(m as int), raw[n - 1], w);
        lemma_push_contains(before, raw[n - 1], w);
    } else {
        assert(raw.take(0).len() == 0);
    }
}

proof fn lemma_push_contains(s: Seq<Word>, x: Word, w: Word)
    ensures
        s.push(x).contains(w) <==> s.contains(w) || x == w,
{
    let t = s.push(x);
    assert(t[s.len() as int] == x);
    if s.contains(w) {
        let i = choose|i: int| 0 <= i < s.len() && s[i] == w;
        assert(t[i] == w);
    }
    if t.contains(w) && x != w {
        let i = choose|i: int| 0 <= i < t.len() && t[i] == w;
        assert(s[i] == w);
    }
}

/// The latest answer is cooling down.
pub proof fn law_latest_answer_cools(order: Seq<Word>)
    requires
        order.len() > 0,
    ensures
        lists::games_since(order, order.last()) == Some(1nat),
        standing(order, order.last()) is Cooling,
{
}

/// What the number of games since the last use of a word says, for every number: a word that was
/// never used is `Never` and no other is, one used at most 500 games ago is `Cooling` and no other
/// is, and any other recovers by exactly the games beyond 500.
pub proof fn law_recency(t: Option<nat>)
    ensures
        recency_of(t) is Never <==> t is None,
        recency_of(t) is Cooling <==> t is Some && t->0 <= 500,
        t is Some && 500 < t->0 <= usize::MAX ==> recency_of(t) == Recency::Recovering(
            (t->0 - 500) as usize,
        ),
{
}

/// Of what the past answers say about a word: it was never used exactly if it is not among them. If
/// it is, with its latest use `k` places before the end, it is cooling down exactly if that is at
/// most the cooldown, and otherwise recovers by the difference.
pub proof fn law_standing(order: Seq<Word>, w: Word, i: int)
    requires
        order.len() <= usize::MAX,
    ensures
        standing(order, w) is Never <==> !order.contains(w),
        0 <= i < order.len() && order[i] == w && (forall|j: int|
            i < j < order.len() ==> order[j] != w) ==> {
            let k = order.len() - i;
            &&& standing(order, w) is Cooling <==> k <= 500
            &&& k > 500 ==> standing(order, w) == Recency::Recovering(
                (k - 500) as usize,
            )
        },
{
    index::law_last_place(order, w);
    if 0 <= i < order.len() && order[i] == w && (forall|j: int|
        i < j < order.len() ==> order[j] != w) {
        let p = index::last_place(order, w)->0 as int;
        assert(order.contains(order[i]));
        assert(p == i) by {
            if p > i {
                assert(order[p] != w);
            } else if p < i {
                assert(order[i] != w);
            }
        }
    }
}

/// The prior keeps the order of the list, and repeats: what it leaves is the list without the words
/// whose latest use is within the cooldown.
pub proof fn law_prior_filters(order: Seq<Word>, raw: Seq<Word>)
    ensures
        active(order, raw, raw.len()) == raw.filter(
            |w: Word|
                !exists|i: int|
                    order.len() - 500 <= i < order.len() && 0 <= i && #[trigger] order[i] == w,
        ),
        never_count(order, raw, raw.len()) == raw.filter(|w: Word| !order.contains(w)).len(),
{
    let f = |w: Word|
        !exists|i: int|
            order.len() - 500 <= i < order.len() && 0 <= i && #[trigger] order[i] == w;
    let g = |w: Word| !order.contains(w);
    assert forall|w: Word| #[trigger] f(w) <==> !(standing(order, w) is Cooling) by {
        index::law_last_place(order, w);
        if !f(w) {
            let i = choose|i: int|
                order.len() - 500 <= i < order.len() && 0 <= i && #[trigger] order[i] == w;
            assert(order.contains(order[i]));
            let p = index::last_place(order, w)->0 as int;
            if p < i {
                assert(order[i] != w);
            }
        }
        if standing(order, w) is Cooling {
            let p = index::last_place(order, w)->0 as int;
            assert(order[p] == w);
        }
    }
    assert forall|w: Word| #[trigger] g(w) <==> standing(order, w) is Never by {
        index::law_last_place(order, w);
    }
    lemma_prior_filters(order, raw, raw.len(), f, g);
    assert(raw.take(raw.len() as int) =~= raw);
}

proof fn lemma_prior_filters(
    order: Seq<Word>,
    raw: Seq<Word>,
    n: nat,
    f: spec_fn(Word) -> bool,
    g: spec_fn(Word) -> bool,
)
    requires
        n <= raw.len(),
        forall|w: Word| #[trigger] f(w) <==> !(standing(order, w) is Cooling),
        forall|w: Word| #[trigger] g(w) <==> standing(order, w) is Never,
    ensures
        active(order, raw, n) == raw.take(n as int).filter(f),
        never_count(order, raw, n) == raw.take(n as int).filter(g).len(),
    decreases n,
{
    reveal(Seq::filter);
    if n > 0 {
        lemma_prior_filters(order, raw, (n - 1) as nat, f, g);
        assert(raw.take(n as int).drop_last() =~= raw.take(n - 1));
        assert(raw.take(n as int).last() == raw[n - 1]);
        assert(f(raw[n - 1]) <==> !(standing(order, raw[n - 1]) is Cooling));
        assert(g(raw[n - 1]) <==> standing(order, raw[n - 1]) is Never);
    } else {
        assert(raw.take(0).len() == 0);
    }
}

} // verus!
