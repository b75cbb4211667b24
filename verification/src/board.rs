//! What optimal play is: the model that the solver computes with.
//!
//! Costs are exact. The cost of a set of candidates is the sum, over its words, of the weight of
//! the word times the number of guesses that it takes; divided by the total weight of the set it
//! is the expected number of guesses. `None` stands for a cost without bound: a way to play that
//! makes no progress on some set.

use vstd::prelude::*;
use crate::bounds;
use crate::index;
use crate::parts;
use crate::sort;
use crate::sort::Ordered;
use crate::words;
use crate::words::Word;

verus! {

/// The words of a game: the possible answers, each with its prior weight, and the legal guesses.
/// An answer is named by its column, a guess by its index.
pub struct Board {
    pub answers: Seq<Word>,
    pub guesses: Seq<Word>,
    pub weights: Seq<u64>,
}

/// A guess, with the lower bound that its pattern counts give and its place in the list that it
/// was drawn from.
#[derive(Clone, Copy)]
pub struct Rated {
    pub key: u64,
    pub pos: u32,
    pub guess: u32,
}

impl Ordered for Rated {
    /// By bound, then by place.
    open spec fn leq(self, other: Rated) -> bool {
        self.key < other.key || (self.key == other.key && (self.pos < other.pos || (self.pos
            == other.pos && self.guess <= other.guess)))
    }

    proof fn order_is_total(a: Rated, b: Rated, c: Rated) {
    }

    fn le_than(&self, other: &Rated) -> (r: bool) {
        self.key < other.key || (self.key == other.key && (self.pos < other.pos || (self.pos
            == other.pos && self.guess <= other.guess)))
    }
}

/// The sum of two costs.
pub open spec fn plus(a: Option<nat>, b: Option<nat>) -> Option<nat> {
    match (a, b) {
        (Some(x), Some(y)) => Some(x + y),
        _ => None,
    }
}

/// Whether one cost is smaller than another.
pub open spec fn less(a: Option<nat>, b: Option<nat>) -> bool {
    match (a, b) {
        (Some(x), Some(y)) => x < y,
        (Some(x), None) => true,
        (None, _) => false,
    }
}

impl Board {
    /// Every guess can be scored against every answer, every answer is a legal guess and has a
    /// weight above zero, and columns and indices are 32-bit numbers.
    pub open spec fn valid(self) -> bool {
        &&& self.weights.len() == self.answers.len()
        &&& self.answers.len() <= u32::MAX
        &&& self.guesses.len() <= u32::MAX
        &&& forall|g: int, c: int|
            0 <= g < self.guesses.len() && 0 <= c < self.answers.len() ==> words::scorable(
                #[trigger] self.guesses[g]@,
                #[trigger] self.answers[c]@,
            )
        &&& forall|c: int|
            0 <= c < self.answers.len() ==> index::last_place(
                self.guesses,
                #[trigger] self.answers[c],
            ) is Some
        &&& forall|c: int| 0 <= c < self.weights.len() ==> #[trigger] self.weights[c] > 0
    }

    /// Whether a list holds columns of the board only.
    pub open spec fn columns(self, s: Seq<u32>) -> bool {
        forall|i: int| 0 <= i < s.len() ==> #[trigger] s[i] < self.answers.len()
    }

    /// The pattern of guess `g` against the answer of column `c`.
    pub open spec fn pattern(self, g: int, c: int) -> int {
        words::pattern(self.guesses[g]@, self.answers[c]@)
    }

    /// The index at which the answer of a column stands among the guesses.
    pub open spec fn home(self, c: u32) -> u32 {
        index::last_place(self.guesses, self.answers[c as int])->0 as u32
    }

    /// The total weight of some columns.
    pub open spec fn wsum(self, s: Seq<u32>) -> nat {
        bounds::total(bounds::weights_of(self.weights, s))
    }

    /// The cost that no way to play a set of candidates undercuts.
    pub open spec fn floor(self, s: Seq<u32>) -> nat {
        bounds::perfect_cost(bounds::weights_of(self.weights, s))
    }

    /// The pattern of guess `g` as a label of columns.
    pub open spec fn label(self, g: int) -> spec_fn(u32) -> int {
        |c: u32| self.pattern(g, c as int)
    }

    /// The columns that show pattern `p` after guess `g`, in the order given.
    pub open spec fn part(self, g: int, s: Seq<u32>, p: int) -> Seq<u32> {
        s.filter(parts::labelled(self.label(g), p))
    }

    /// The candidates that are left after guess `g` and pattern `p`, in ascending order.
    pub open spec fn bucket(self, g: int, s: Seq<u32>, p: int) -> Seq<u32> {
        self.part(g, sort::sorted(s), p)
    }

    /// Whether a guess tells at least two of the candidates apart.
    pub open spec fn useful(self, g: int, s: Seq<u32>) -> bool {
        forall|p: int| 0 <= p < 243 ==> #[trigger] self.part(g, s, p).len() != s.len()
    }

    /// The sum of the even costs of the patterns below `n`, but for five greens.
    pub open spec fn even_bound(self, g: int, s: Seq<u32>, n: nat) -> nat
        decreases n,
    {
        if n == 0 {
            0
        } else {
            self.even_bound(g, s, (n - 1) as nat) + if n - 1 == words::GREEN {
                0
            } else {
                bounds::even_cost(self.part(g, s, n - 1).len())
            }
        }
    }

    /// The guesses to choose from: at the root every legal guess, further on the candidates.
    pub open spec fn universe(self, s: Seq<u32>, root: bool) -> Seq<u32> {
        if root {
            Seq::new(self.guesses.len(), |i: int| i as u32)
        } else {
            Seq::new(s.len(), |i: int| self.home(s[i]))
        }
    }

    /// The guess at a place of a list, with its bound.
    pub open spec fn rate(self, s: Seq<u32>, list: Seq<u32>, i: int) -> Rated {
        Rated {
            key: self.even_bound(list[i] as int, s, 243) as u64,
            pos: i as u32,
            guess: list[i],
        }
    }

    /// The useful guesses among the first `n` of a list.
    pub open spec fn rated(self, s: Seq<u32>, list: Seq<u32>, n: nat) -> Seq<Rated>
        decreases n,
    {
        if n == 0 {
            Seq::empty()
        } else if self.useful(list[n - 1] as int, s) {
            self.rated(s, list, (n - 1) as nat).push(self.rate(s, list, n - 1))
        } else {
            self.rated(s, list, (n - 1) as nat)
        }
    }

    /// The useful guesses of a list in the order in which they are tried: by ascending bound, and
    /// as they came where bounds are equal.
    pub open spec fn ranking(self, s: Seq<u32>, list: Seq<u32>) -> Seq<Rated> {
        sort::sorted(self.rated(s, list, list.len()))
    }

    /// The cost of what is left after guess `g` and a pattern below `n` that is not five greens.
    pub open spec fn rest(self, g: int, s: Seq<u32>, n: nat) -> Option<nat>
        decreases s.len(), 0nat, n,
    {
        if n == 0 {
            Some(0)
        } else {
            let sub = self.bucket(g, s, n - 1);
            let before = self.rest(g, s, (n - 1) as nat);
            if n - 1 == words::GREEN || sub.len() == 0 {
                before
            } else if sub.len() >= s.len() {
                None
            } else {
                plus(before, self.best(sub, false).0)
            }
        }
    }

    /// The cost of a set of candidates when `g` is guessed first and play goes on from there.
    pub open spec fn cost(self, g: int, s: Seq<u32>) -> Option<nat>
        decreases s.len(), 1nat, 0nat,
    {
        plus(Some(self.wsum(s)), self.rest(g, s, 243))
    }

    /// The best cost and guess among the first `n` of a ranking. Once a cost is down at the floor
    /// of the set no later guess is tried.
    pub open spec fn search(self, s: Seq<u32>, order: Seq<Rated>, n: nat) -> (Option<nat>, u32)
        decreases s.len(), 2nat, n,
    {
        if n == 0 {
            (None, self.home(s[0]))
        } else {
            let found = self.search(s, order, (n - 1) as nat);
            let g = order[n - 1].guess;
            let c = self.cost(g as int, s);
            if !less(found.0, Some(self.floor(s) + 1)) && less(c, found.0) {
                (c, g)
            } else {
                found
            }
        }
    }

    /// The cost of a set of candidates, and the guess to play. At the root the guess is any legal
    /// one, further on one of the candidates.
    pub open spec fn best(self, s: Seq<u32>, root: bool) -> (Option<nat>, u32)
        decreases s.len(), 3nat, 0nat,
    {
        if s.len() == 1 {
            (Some(self.wsum(s)), self.home(s[0]))
        } else {
            let order = self.ranking(s, self.universe(s, root));
            self.search(s, order, order.len())
        }
    }

    /// Whether a cost and a guess are the best that a set of candidates has: the guess is one to
    /// choose from, the cost is its cost, and no guess to choose from costs less.
    pub open spec fn optimal(self, s: Seq<u32>, root: bool, found: (Option<nat>, u32)) -> bool {
        let list = self.universe(s, root);
        &&& found.0 is Some
        &&& list.contains(found.1)
        &&& found.0 == self.cost(found.1 as int, s)
        &&& forall|i: int|
            0 <= i < list.len() ==> !less(self.cost(#[trigger] list[i] as int, s), found.0)
    }
}

} // verus!
