//! How three ways to choose the second guess compare, for every pattern of the opener.

use vstd::prelude::*;
use crate::admissible;
use crate::board;
use crate::board::Board;
use crate::information;
use crate::memory;
use crate::memory::Store;
use crate::optimal;
use crate::parts;
use crate::play;
use crate::play::{every_column, keep};
use crate::solver;
use crate::solver::{cheapest, Solver};
use crate::sort;
use crate::sort::Ordered;
use crate::words;
use crate::words::GREEN;

verus! {

/// A pattern and the number of candidates that show it.
#[derive(Clone, Copy)]
pub struct Group {
    pub size: u32,
    pub code: u8,
}

impl Ordered for Group {
    /// By size, then by pattern.
    open spec fn leq(self, other: Group) -> bool {
        self.size < other.size || (self.size == other.size && self.code <= other.code)
    }

    proof fn order_is_total(a: Group, b: Group, c: Group) {
    }

    fn le_than(&self, other: &Group) -> (r: bool) {
        self.size < other.size || (self.size == other.size && self.code <= other.code)
    }
}

/// The patterns below `n`, but for five greens, that some candidate shows after the opener.
pub open spec fn shown(b: Board, opener: int, n: nat) -> Seq<Group>
    decreases n,
{
    if n == 0 {
        Seq::empty()
    } else {
        let size = b.part(opener, play::all_columns(b), n - 1).len();
        if n - 1 != GREEN && size > 0 {
            shown(b, opener, (n - 1) as nat).push(Group { size: size as u32, code: (n - 1) as u8 })
        } else {
            shown(b, opener, (n - 1) as nat)
        }
    }
}

/// The patterns that are shown, from the fewest candidates to the most.
pub open spec fn shown_by_size(b: Board, opener: int) -> Seq<Group> {
    sort::sorted(shown(b, opener, 243))
}

/// The candidates after the opener and a pattern, and three second guesses for them, each with
/// its cost: the best of all, the one with the most information, and the best candidate. A cost
/// over the weight is an expected number of guesses.
pub struct Row {
    pub code: u8,
    pub size: usize,
    pub weight: u128,
    pub best: (Option<u128>, u32),
    pub info: (Option<u128>, u32),
    pub cand: (Option<u128>, u32),
    /// Whether the best guess is one of the candidates.
    pub best_is_candidate: bool,
}

/// Whether a guess is the first of those with the most information.
pub open spec fn most_informative(b: Board, s: Seq<u32>, g: u32) -> bool {
    &&& b.legal(g as int)
    &&& forall|k: int|
        b.legal(k) ==> information::spread(b, g as int, s, 243) <= #[trigger] information::spread(
            b,
            k,
            s,
            243,
        )
    &&& forall|k: int|
        0 <= k < g ==> information::spread(b, g as int, s, 243) < #[trigger] information::spread(
            b,
            k,
            s,
            243,
        )
}

/// Whether a guess is the word of a candidate.
pub open spec fn is_candidate(b: Board, s: Seq<u32>, g: u32) -> bool {
    solver::column_of(b, g as int, b.answers.len()) matches Some(c) && s.contains(c)
}

/// Whether a row is that of a set of candidates.
pub open spec fn describes(b: Board, row: Row, s: Seq<u32>) -> bool {
    &&& row.size == s.len()
    &&& row.weight == b.wsum(s)
    &&& (solver::amount(row.best.0), row.best.1) == b.best(s, true)
    &&& most_informative(b, s, row.info.1)
    &&& solver::amount(row.info.0) == if s.len() == 1 {
        Some(b.wsum(s))
    } else {
        b.cost(row.info.1 as int, s)
    }
    &&& (solver::amount(row.cand.0), row.cand.1) == cheapest(b, s, s.len())
    &&& row.best_is_candidate == is_candidate(b, s, row.best.1)
}

/// The rows of an analysis, and for how many of them the best guess is a candidate, is the one
/// with the most information, is the best candidate, or is neither of the two.
pub struct Report {
    pub rows: Vec<Row>,
    pub candidates: u32,
    pub equal_info: u32,
    pub equal_cand: u32,
    pub neither: u32,
}

/// How many of the first `n` rows have a candidate as the best guess.
pub open spec fn count_candidates(rows: Seq<Row>, n: nat) -> nat
    decreases n,
{
    if n == 0 {
        0
    } else {
        count_candidates(rows, (n - 1) as nat) + if rows[n - 1].best_is_candidate {
            1nat
        } else {
            0nat
        }
    }
}

/// How many of the first `n` rows have the same guess as the best and as the one with the most
/// information.
pub open spec fn count_equal_info(rows: Seq<Row>, n: nat) -> nat
    decreases n,
{
    if n == 0 {
        0
    } else {
        count_equal_info(rows, (n - 1) as nat) + if rows[n - 1].best.1 == rows[n - 1].info.1 {
            1nat
        } else {
            0nat
        }
    }
}

/// How many of the first `n` rows have the same guess as the best and as the best candidate.
pub open spec fn count_equal_cand(rows: Seq<Row>, n: nat) -> nat
    decreases n,
{
    if n == 0 {
        0
    } else {
        count_equal_cand(rows, (n - 1) as nat) + if rows[n - 1].best.1 == rows[n - 1].cand.1 {
            1nat
        } else {
            0nat
        }
    }
}

/// How many of the first `n` rows have a best guess that is neither of the other two.
pub open spec fn count_neither(rows: Seq<Row>, n: nat) -> nat
    decreases n,
{
    if n == 0 {
        0
    } else {
        count_neither(rows, (n - 1) as nat) + if rows[n - 1].best.1 != rows[n - 1].info.1 && rows[n
            - 1].best.1 != rows[n - 1].cand.1 {
            1nat
        } else {
            0nat
        }
    }
}

/// Whether a list holds a column.
fn contains(s: &Vec<u32>, c: u32) -> (r: bool)
    ensures
        r == s@.contains(c),
{
    let mut i: usize = 0;
    while i < s.len()
        invariant
            i <= s@.len(),
            forall|k: int| 0 <= k < i ==> s@[k] != c,
        decreases s@.len() - i,
    {
        if s[i] == c {
            return true;
        }
        i = i + 1;
    }
    false
}

/// What is remembered after the three second guesses for a set of candidates have been found, the
/// one with the most information being `info`.
pub open spec fn after_row(b: Board, m: Store, s: Seq<u32>, info: u32) -> Store {
    let best = memory::after_search(b, m, s, true);
    memory::after_candidates(
        b,
        if s.len() == 1 {
            best
        } else {
            memory::after_guess(b, best, info as int, s, None)
        },
        s,
        s.len(),
    )
}

/// What is remembered after the first `n` rows of an analysis.
pub open spec fn after_rows(b: Board, m: Store, opener: int, rows: Seq<Row>, n: nat) -> Store
    decreases n,
{
    if n == 0 {
        m
    } else {
        after_row(
            b,
            after_rows(b, m, opener, rows, (n - 1) as nat),
            b.part(opener, play::all_columns(b), rows[n - 1].code as int),
            rows[n - 1].info.1,
        )
    }
}

/// Compares the three second guesses for one set of candidates.
pub fn analyse(solver: &mut Solver, code: u8, bucket: &Vec<u32>) -> (row: Row)
    requires
        old(solver).wf(),
        old(solver).candidates(bucket@),
    ensures
        final(solver).wf(),
        final(solver)@ == old(solver)@,
        solver::keeps(*old(solver), *final(solver)),
        final(solver).store() == after_row(
            old(solver)@,
            old(solver).store(),
            bucket@,
            row.info.1,
        ),
        row.code == code,
        describes(old(solver)@, row, bucket@),
{
    let s = bucket.as_slice();
    let size = bucket.len();
    let weight = solver.wsum(s);
    let best = solver.solve(s, 0);
    let ghost searched = *solver;
    proof {
        solver::lemma_keeps_same(searched);
        play::lemma_best_legal(solver@, s@);
    }
    let g_info = solver.entropy_best(s);
    let c_info: Option<u128> = if size == 1 {
        Some(weight)
    } else {
        solver.cost_exact(g_info, s)
    };
    let ghost before = *solver;
    let cand = solver.best_candidate(s);
    proof {
        solver::lemma_keeps_twice(searched, before, *solver);
        solver::lemma_keeps_twice(*old(solver), searched, *solver);
    }
    let best_is_candidate = match solver.column(best.1) {
        Some(c) => contains(bucket, c),
        None => false,
    };
    Row { code, size, weight, best, info: (c_info, g_info), cand, best_is_candidate }
}

/// Analyses every pattern of the opener but five greens, from the fewest candidates to the most.
pub fn run_analysis(solver: &mut Solver, opener: u32) -> (r: Report)
    requires
        old(solver).wf(),
        old(solver)@.legal(opener as int),
    ensures
        final(solver).wf(),
        final(solver)@ == old(solver)@,
        solver::keeps(*old(solver), *final(solver)),
        ({
            let b = old(solver)@;
            let order = shown_by_size(b, opener as int);
            &&& r.rows@.len() == order.len()
            &&& forall|k: int|
                0 <= k < order.len() ==> (#[trigger] r.rows@[k]).code == order[k].code && describes(
                    b,
                    r.rows@[k],
                    b.part(opener as int, play::all_columns(b), order[k].code as int),
                )
        }),
        final(solver).store() == after_rows(
            old(solver)@,
            old(solver).store(),
            opener as int,
            r.rows@,
            r.rows@.len(),
        ),
        r.candidates == count_candidates(r.rows@, r.rows@.len()),
        r.equal_info == count_equal_info(r.rows@, r.rows@.len()),
        r.equal_cand == count_equal_cand(r.rows@, r.rows@.len()),
        r.neither == count_neither(r.rows@, r.rows@.len()),
{
    let ghost b = solver@;
    let columns = every_column(solver);
    let all = columns.as_slice();
    let counts = solver.counts(opener, all);
    let mut codes: Vec<Group> = Vec::new();
    let mut p: usize = 0;
    while p < 243
        invariant
            solver.wf(),
            solver@ == b,
            all@ == play::all_columns(b),
            forall|q: int|
                0 <= q < 243 ==> #[trigger] counts@[q] == b.part(opener as int, all@, q).len(),
            p <= 243,
            codes@.len() <= p,
            codes@ == shown(b, opener as int, p as nat),
            forall|k: int|
                0 <= k < codes@.len() ==> b.part(
                    opener as int,
                    all@,
                    (#[trigger] codes@[k]).code as int,
                ).len() > 0,
        decreases 243 - p,
    {
        assert(counts@[p as int] == b.part(opener as int, all@, p as int).len());
        if p != GREEN as usize && counts[p] > 0 {
            codes.push(Group { size: counts[p], code: p as u8 });
        }
        p = p + 1;
    }
    let order = sort::sort(&codes);
    proof {
        sort::lemma_sorted(codes@);
    }
    let mut rows: Vec<Row> = Vec::with_capacity(order.len());
    let mut candidates: u32 = 0;
    let mut equal_info: u32 = 0;
    let mut equal_cand: u32 = 0;
    let mut neither: u32 = 0;
    let mut k: usize = 0;
    proof {
        solver::lemma_keeps_same(*solver);
    }
    while k < order.len()
        invariant
            solver.wf(),
            solver@ == b,
            solver::keeps(*old(solver), *solver),
            b == old(solver)@,
            solver.store() == after_rows(
                b,
                old(solver).store(),
                opener as int,
                rows@,
                k as nat,
            ),
            b.legal(opener as int),
            columns@ == play::all_columns(b),
            b.columns(columns@),
            columns@.len() == b.answers.len(),
            order@ == shown_by_size(b, opener as int),
            order@.len() <= 243,
            order@ == sort::sorted(codes@),
            forall|x: Group| #[trigger] order@.contains(x) <==> codes@.contains(x),
            forall|i: int|
                0 <= i < codes@.len() ==> b.part(
                    opener as int,
                    columns@,
                    (#[trigger] codes@[i]).code as int,
                ).len() > 0,
            k <= order@.len(),
            rows@.len() == k,
            forall|i: int|
                0 <= i < k ==> (#[trigger] rows@[i]).code == order@[i].code && describes(
                    b,
                    rows@[i],
                    b.part(opener as int, columns@, order@[i].code as int),
                ),
            candidates == count_candidates(rows@, k as nat),
            equal_info == count_equal_info(rows@, k as nat),
            equal_cand == count_equal_cand(rows@, k as nat),
            neither == count_neither(rows@, k as nat),
            candidates <= k,
            equal_info <= k,
            equal_cand <= k,
            neither <= k,
        decreases order@.len() - k,
    {
        let code = order[k].code;
        let bucket = keep(solver, opener, &columns, code);
        proof {
            let f = parts::labelled(b.label(opener as int), code as int);
            assert(order@.contains(order@[k as int]));
            let i = choose|i: int| 0 <= i < codes@.len() && codes@[i] == order@[k as int];
            assert(codes@[i].code == code);
            optimal::lemma_filter_members(columns@, f);
            columns@.lemma_filter_len(f);
            assert forall|i: int| 0 <= i < bucket@.len() implies #[trigger] bucket@[i]
                < b.answers.len() by {
                assert(bucket@.contains(bucket@[i]));
                assert(columns@.contains(bucket@[i]));
            }
        }
        let ghost before_row = *solver;
        let row = analyse(solver, code, &bucket);
        proof {
            solver::lemma_keeps_twice(*old(solver), before_row, *solver);
        }
        if row.best_is_candidate {
            candidates = candidates + 1;
        }
        if row.best.1 == row.info.1 {
            equal_info = equal_info + 1;
        }
        if row.best.1 == row.cand.1 {
            equal_cand = equal_cand + 1;
        }
        if row.best.1 != row.info.1 && row.best.1 != row.cand.1 {
            neither = neither + 1;
        }
        let ghost before = rows@;
        rows.push(row);
        proof {
            lemma_counts_prefix(before, rows@, k as nat);
            lemma_after_rows_prefix(
                b,
                old(solver).store(),
                opener as int,
                before,
                rows@,
                k as nat,
            );
        }
        k = k + 1;
    }
    Report { rows, candidates, equal_info, equal_cand, neither }
}

/// Counts over the first rows do not change when rows are added.
proof fn lemma_counts_prefix(a: Seq<Row>, c: Seq<Row>, n: nat)
    requires
        n <= a.len(),
        n <= c.len(),
        forall|i: int| 0 <= i < n ==> a[i] == c[i],
    ensures
        count_candidates(a, n) == count_candidates(c, n),
        count_equal_info(a, n) == count_equal_info(c, n),
        count_equal_cand(a, n) == count_equal_cand(c, n),
        count_neither(a, n) == count_neither(c, n),
    decreases n,
{
    if n > 0 {
        lemma_counts_prefix(a, c, (n - 1) as nat);
    }
}

proof fn lemma_after_rows_prefix(
    b: Board,
    m: Store,
    opener: int,
    a: Seq<Row>,
    c: Seq<Row>,
    n: nat,
)
    requires
        n <= a.len(),
        n <= c.len(),
        forall|i: int| 0 <= i < n ==> a[i] == c[i],
    ensures
        after_rows(b, m, opener, a, n) == after_rows(b, m, opener, c, n),
    decreases n,
{
    if n > 0 {
        lemma_after_rows_prefix(b, m, opener, a, c, (n - 1) as nat);
    }
}

/// What is hardest: the cost over the weight of a row, and the place of the row.
#[derive(Clone, Copy)]
pub struct Hardness {
    pub cost: Option<u128>,
    pub weight: u128,
    pub pos: usize,
}

impl Hardness {
    /// Whether there is no expected number of guesses.
    pub open spec fn unbounded(self) -> bool {
        self.cost is None || self.weight == 0
    }

    /// Whether the expected number of guesses is the larger one.
    pub open spec fn harder(self, other: Hardness) -> bool {
        if other.unbounded() {
            false
        } else if self.unbounded() {
            true
        } else {
            self.cost->0 * other.weight > other.cost->0 * self.weight
        }
    }

    /// The order among equally hard rows.
    pub open spec fn before(self, other: Hardness) -> bool {
        let (x, y) = (
            match self.cost {
                Some(x) => x as int,
                None => -1,
            },
            match other.cost {
                Some(y) => y as int,
                None => -1,
            },
        );
        self.pos < other.pos || (self.pos == other.pos && (x < y || (x == y && self.weight
            <= other.weight)))
    }
}

/// Comparing fractions by cross products is transitive.
proof fn lemma_fractions(a: int, p: int, c: int, q: int, e: int, r: int)
    requires
        p > 0,
        q > 0,
        r > 0,
        0 <= a,
        0 <= c,
        0 <= e,
        a * q >= c * p,
        c * r >= e * q,
    ensures
        a * r >= e * p,
        a * q > c * p || c * r > e * q ==> a * r > e * p,
{
    assert((a * r) * q >= (c * p) * r && (c * p) * r >= (e * p) * q) by (nonlinear_arith)
        requires
            p > 0,
            r > 0,
            a * q >= c * p,
            c * r >= e * q,
    ;
    if a * q > c * p {
        assert((a * r) * q > (c * p) * r) by (nonlinear_arith)
            requires
                r > 0,
                a * q > c * p,
        ;
    }
    if c * r > e * q {
        assert((c * p) * r > (e * p) * q) by (nonlinear_arith)
            requires
                p > 0,
                c * r > e * q,
        ;
    }
    let x = a * r;
    let y = e * p;
    if x < y {
        assert(x * q < y * q) by (nonlinear_arith)
            requires
                x < y,
                q > 0,
        ;
    }
}

/// Whether one fraction is smaller than another, by their whole parts and, where those are
/// equal, by the fractions of their rests turned over.
fn fraction_below(a: u128, p: u128, c: u128, q: u128) -> (r: bool)
    requires
        p > 0,
        q > 0,
    ensures
        r == (a * q < c * p),
    decreases p + q,
{
    let x: u128 = a / p;
    let y: u128 = c / q;
    let u: u128 = a % p;
    let v: u128 = c % q;
    proof {
        vstd::arithmetic::div_mod::lemma_fundamental_div_mod(a as int, p as int);
        vstd::arithmetic::div_mod::lemma_fundamental_div_mod(c as int, q as int);
        assert(p * x == x * p && q * y == y * q) by (nonlinear_arith);
    }
    if x != y {
        proof {
            if x < y {
                assert(a * q < c * p) by (nonlinear_arith)
                    requires
                        a == x * p + u,
                        c == y * q + v,
                        x + 1 <= y,
                        0 <= u < p,
                        0 <= v,
                        q > 0,
                        p > 0,
                {
                    assert(a < (x + 1) * p);
                    assert((x + 1) * p <= y * p);
                    assert(a * q < (y * p) * q);
                    assert((y * p) * q == (y * q) * p);
                    assert((y * q) * p <= c * p);
                }
            } else {
                assert(a * q >= c * p) by (nonlinear_arith)
                    requires
                        a == x * p + u,
                        c == y * q + v,
                        y + 1 <= x,
                        0 <= v < q,
                        0 <= u,
                        q > 0,
                        p > 0,
                {
                    assert(c < (y + 1) * q);
                    assert((y + 1) * q <= x * q);
                    assert(c * p < (x * q) * p);
                    assert((x * q) * p == (x * p) * q);
                    assert((x * p) * q <= a * q);
                }
            }
        }
        return x < y;
    }
    proof {
        assert(a * q - c * p == u * q - v * p) by (nonlinear_arith)
            requires
                a == x * p + u,
                c == y * q + v,
                x == y,
        ;
    }
    if v == 0 {
        assert(0 <= u * q && v * p == 0) by (nonlinear_arith)
            requires
                0 <= u,
                0 < q,
                v == 0,
        ;
        return false;
    }
    if u == 0 {
        assert(u * q == 0 && 0 < v * p) by (nonlinear_arith)
            requires
                u == 0,
                0 < v,
                0 < p,
        ;
        return true;
    }
    proof {
        assert(q * u == u * q && p * v == v * p) by (nonlinear_arith);
    }
    fraction_below(q, v, p, u)
}

impl Ordered for Hardness {
    /// The hardest first, and equally hard ones by place.
    open spec fn leq(self, other: Hardness) -> bool {
        self.harder(other) || (!other.harder(self) && self.before(other))
    }

    proof fn order_is_total(a: Hardness, b: Hardness, c: Hardness) {
        if !a.unbounded() && !b.unbounded() && !c.unbounded() {
            let (x, p) = (a.cost->0 as int, a.weight as int);
            let (y, q) = (b.cost->0 as int, b.weight as int);
            let (z, r) = (c.cost->0 as int, c.weight as int);
            if a.leq(b) && b.leq(c) {
                lemma_fractions(x, p, y, q, z, r);
                if !a.harder(b) && !b.harder(c) {
                    lemma_fractions(z, r, y, q, x, p);
                }
            }
        }
    }

    fn le_than(&self, other: &Hardness) -> (r: bool) {
        let x: Option<u128> = if self.weight == 0 {
            None
        } else {
            self.cost
        };
        let y: Option<u128> = if other.weight == 0 {
            None
        } else {
            other.cost
        };
        let (more, less) = match (x, y) {
            (Some(a), Some(c)) => (
                fraction_below(c, other.weight, a, self.weight),
                fraction_below(a, self.weight, c, other.weight),
            ),
            (None, Some(_)) => (true, false),
            (Some(_), None) => (false, true),
            (None, None) => (false, false),
        };
        let tie = match (self.cost, other.cost) {
            (Some(a), Some(c)) => a < c || (a == c && self.weight <= other.weight),
            (None, Some(_)) => true,
            (Some(_), None) => false,
            (None, None) => self.weight <= other.weight,
        };
        more || (!less && (self.pos < other.pos || (self.pos == other.pos && tie)))
    }
}

/// The rows with their places.
pub open spec fn hardness_of(rows: Seq<Row>) -> Seq<Hardness> {
    Seq::new(
        rows.len(),
        |i: int| Hardness { cost: rows[i].best.0, weight: rows[i].weight, pos: i as usize },
    )
}

/// Ranks the rows from the largest expected number of guesses to the smallest.
pub fn hardest(rows: &Vec<Row>) -> (r: Vec<Hardness>)
    ensures
        r@ == sort::sorted(hardness_of(rows@)),
{
    let mut all: Vec<Hardness> = Vec::with_capacity(rows.len());
    let mut i: usize = 0;
    while i < rows.len()
        invariant
            i <= rows@.len(),
            all@ == hardness_of(rows@).take(i as int),
        decreases rows@.len() - i,
    {
        all.push(Hardness { cost: rows[i].best.0, weight: rows[i].weight, pos: i });
        assert(hardness_of(rows@).take(i + 1) =~= all@);
        i = i + 1;
    }
    assert(hardness_of(rows@).take(i as int) =~= hardness_of(rows@));
    sort::sort(&all)
}

/// The best guess costs no more than the other two: the gaps that an analysis reports are not
/// negative.
pub proof fn law_gaps(b: Board, row: Row, s: Seq<u32>)
    requires
        b.valid(),
        b.columns(s),
        b.distinct(s),
        s.len() >= 1,
        describes(b, row, s),
    ensures
        !board::less(solver::amount(row.info.0), solver::amount(row.best.0)),
        !board::less(solver::amount(row.cand.0), solver::amount(row.best.0)),
{
    admissible::law_full_search_no_worse(b, s);
    solver::lemma_cheapest(b, s, s.len());
    if s.len() > 1 && row.cand.0 is Some {
        let i = choose|i: int|
            0 <= i < s.len() && row.cand.1 == b.home(#[trigger] s[i]) && solver::amount(row.cand.0)
                == b.cost(b.home(s[i]) as int, s);
        optimal::lemma_home(b, s[i]);
    }
}

/// The rows of an analysis hold every candidate once: their sizes, and the number of answers that
/// are the opener, add up to the number of answers.
pub proof fn law_rows_partition(b: Board, opener: int)
    requires
        b.valid(),
        b.legal(opener),
    ensures
        sizes_sum(shown(b, opener, 243)) + b.part(
            opener,
            play::all_columns(b),
            GREEN as int,
        ).len() == b.answers.len(),
{
    let all = play::all_columns(b);
    lemma_sizes_sum(b, opener, 242);
    assert(shown(b, opener, 243) == shown(b, opener, 242));
    assert forall|i: int| 0 <= i < all.len() implies 0 <= b.label(opener)(#[trigger] all[i])
        < 243 by {
        words::lemma_pattern(b.guesses[opener]@, b.answers[all[i] as int]@);
    }
    parts::lemma_parts(b.weights, all, b.label(opener), 243);
}

proof fn lemma_sizes_sum(b: Board, opener: int, n: nat)
    requires
        b.valid(),
        n <= 242,
    ensures
        sizes_sum(shown(b, opener, n)) == parts::parts_len(
            play::all_columns(b),
            b.label(opener),
            n,
        ),
    decreases n,
{
    let all = play::all_columns(b);
    if n > 0 {
        lemma_sizes_sum(b, opener, (n - 1) as nat);
        all.lemma_filter_len(parts::labelled(b.label(opener), n - 1));
        let before = shown(b, opener, (n - 1) as nat);
        if b.part(opener, all, n - 1).len() > 0 {
            assert(shown(b, opener, n).drop_last() =~= before);
        }
    }
}

/// The sum of the sizes of groups.
pub open spec fn sizes_sum(groups: Seq<Group>) -> nat
    decreases groups.len(),
{
    if groups.len() == 0 {
        0
    } else {
        sizes_sum(groups.drop_last()) + groups.last().size as nat
    }
}

/// What the counts of a report count: the rows whose best guess is a candidate, is the one with
/// the most information, is the best candidate, and is neither of the two. A row whose best guess
/// is one of the two is never counted as neither.
pub proof fn law_report_counts(rows: Seq<Row>)
    ensures
        count_candidates(rows, rows.len()) == rows.filter(
            |row: Row| row.best_is_candidate,
        ).len(),
        count_equal_info(rows, rows.len()) == rows.filter(
            |row: Row| row.best.1 == row.info.1,
        ).len(),
        count_equal_cand(rows, rows.len()) == rows.filter(
            |row: Row| row.best.1 == row.cand.1,
        ).len(),
        count_neither(rows, rows.len()) + rows.filter(
            |row: Row| row.best.1 == row.info.1 || row.best.1 == row.cand.1,
        ).len() == rows.len(),
        count_equal_info(rows, rows.len()) + count_neither(rows, rows.len()) <= rows.len(),
        count_equal_cand(rows, rows.len()) + count_neither(rows, rows.len()) <= rows.len(),
        count_equal_info(rows, rows.len()) + count_equal_cand(rows, rows.len()) + count_neither(
            rows,
            rows.len(),
        ) >= rows.len(),
    decreases rows.len(),
{
    reveal(Seq::filter);
    if rows.len() > 0 {
        let t = rows.drop_last();
        law_report_counts(t);
        lemma_counts_prefix(t, rows, t.len());
        assert(rows[rows.len() - 1] == rows.last());
    }
}

/// Which patterns an analysis has rows for, and in which order: every pattern but five greens that
/// some answer shows, once, with the number of answers that show it, from the smallest number to
/// the largest.
pub proof fn law_shown(b: Board, opener: int, p: u8)
    requires
        b.valid(),
        b.legal(opener),
    ensures
        ({
            let groups = shown_by_size(b, opener);
            let number = play::all_columns(b).filter(
                |c: u32|
                    words::pattern(b.guesses[opener]@, b.answers[c as int]@) == p,
            ).len();
            &&& forall|i: int, j: int|
                0 <= i < j < groups.len() ==> (#[trigger] groups[i]).code != (
                #[trigger] groups[j]).code && groups[i].size <= groups[j].size
            &&& (exists|i: int| 0 <= i < groups.len() && (#[trigger] groups[i]).code == p) <==> p
                < 242 && number > 0
            &&& forall|i: int|
                0 <= i < groups.len() && (#[trigger] groups[i]).code == p ==> groups[i].size
                    == number
        }),
{
    let all = play::all_columns(b);
    let list = shown(b, opener, 243);
    let groups = shown_by_size(b, opener);
    let f = |c: u32| words::pattern(b.guesses[opener]@, b.answers[c as int]@) == p;
    assert(f =~= parts::labelled(b.label(opener), p as int));
    assert(all.filter(f) == b.part(opener, all, p as int));
    lemma_shown(b, opener, 243);
    sort::lemma_sorted(list);
    assert(list.no_duplicates());
    list.lemma_multiset_has_no_duplicates();
    groups.lemma_multiset_has_no_duplicates_conv();
    assert forall|i: int, j: int| 0 <= i < j < groups.len() implies (#[trigger] groups[i]).code != (
    #[trigger] groups[j]).code && groups[i].size <= groups[j].size by {
        assert(groups.contains(groups[i]) && groups.contains(groups[j]));
        let x = choose|x: int| 0 <= x < list.len() && list[x] == groups[i];
        let y = choose|y: int| 0 <= y < list.len() && list[y] == groups[j];
        assert(groups[i] != groups[j]);
        if x < y {
            assert(list[x].code < list[y].code);
        } else {
            assert(list[y].code < list[x].code);
        }
        assert(groups[i].leq(groups[j]));
    }
    assert forall|i: int| 0 <= i < groups.len() implies {
        let x = #[trigger] groups[i];
        x.code < 242 && b.part(opener, all, x.code as int).len() == x.size && x.size > 0
    } by {
        assert(groups.contains(groups[i]));
        assert(list.contains(groups[i]));
    }
    if p < 242 && all.filter(f).len() > 0 {
        let x = choose|x: int| 0 <= x < list.len() && (#[trigger] list[x]).code == p;
        assert(list.contains(list[x]));
        assert(groups.contains(list[x]));
        let i = choose|i: int| 0 <= i < groups.len() && groups[i] == list[x];
        assert(groups[i].code == p);
    }
}

proof fn lemma_shown(b: Board, opener: int, n: nat)
    requires
        b.valid(),
        n <= 243,
    ensures
        forall|i: int|
            0 <= i < shown(b, opener, n).len() ==> {
                let x = #[trigger] shown(b, opener, n)[i];
                &&& x.code < n && x.code < 242
                &&& b.part(opener, play::all_columns(b), x.code as int).len() == x.size
                &&& x.size > 0
            },
        forall|i: int, j: int|
            0 <= i < j < shown(b, opener, n).len() ==> (#[trigger] shown(b, opener, n)[i]).code < (
            #[trigger] shown(b, opener, n)[j]).code,
        forall|p: int|
            0 <= p < n && p < 242 && #[trigger] b.part(opener, play::all_columns(b), p).len() > 0
                ==> exists|i: int|
                0 <= i < shown(b, opener, n).len() && (#[trigger] shown(b, opener, n)[i]).code == p,
    decreases n,
{
    let all = play::all_columns(b);
    if n > 0 {
        lemma_shown(b, opener, (n - 1) as nat);
        let before = shown(b, opener, (n - 1) as nat);
        let now = shown(b, opener, n);
        all.lemma_filter_len(parts::labelled(b.label(opener), n - 1));
        assert forall|p: int|
            0 <= p < n && p < 242 && #[trigger] b.part(opener, all, p).len() > 0 implies exists|
            i: int,
        |
            0 <= i < now.len() && (#[trigger] now[i]).code == p by {
            if p == n - 1 {
                assert(now[before.len() as int].code == p);
            } else {
                let i = choose|i: int| 0 <= i < before.len() && (#[trigger] before[i]).code == p;
                assert(now[i] == before[i]);
            }
        }
        assert forall|i: int| 0 <= i < now.len() implies {
            let x = #[trigger] now[i];
            &&& x.code < n && x.code < 242
            &&& b.part(opener, all, x.code as int).len() == x.size
            &&& x.size > 0
        } by {
            if i < before.len() {
                assert(now[i] == before[i]);
            }
        }
        assert forall|i: int, j: int| 0 <= i < j < now.len() implies (#[trigger] now[i]).code < (
        #[trigger] now[j]).code by {
            assert(now[i] == before[i]);
            if j < before.len() {
                assert(now[j] == before[j]);
            }
        }
    }
}

/// What a row says of its candidates, where they are different words: their number and weight; a
/// legal guess than which none costs less; the first legal guess of the most information; a
/// candidate than which none costs less; the cost of each; and whether the best guess is a
/// candidate.
pub proof fn law_row(b: Board, row: Row, s: Seq<u32>, g: int, i: int)
    requires
        b.valid(),
        b.columns(s),
        b.distinct(s),
        s.len() >= 1,
        describes(b, row, s),
        b.legal(g),
        0 <= i < s.len(),
    ensures
        row.size == s.len(),
        row.weight == b.wsum(s),
        b.legal(row.best.1 as int),
        row.best.0 is Some && b.cost(row.best.1 as int, s) == Some(row.best.0->0 as nat),
        b.cost(g, s) matches Some(y) ==> row.best.0->0 <= y,
        b.legal(row.info.1 as int),
        information::spread(b, row.info.1 as int, s, 243) <= information::spread(b, g, s, 243),
        g < row.info.1 ==> information::spread(b, row.info.1 as int, s, 243)
            < information::spread(b, g, s, 243),
        s.len() >= 2 ==> solver::amount(row.info.0) == b.cost(row.info.1 as int, s),
        s.len() == 1 ==> row.info.0 is Some && row.info.0->0 == b.wsum(s),
        exists|k: int| 0 <= k < s.len() && row.cand.1 == b.home(#[trigger] s[k]),
        row.cand.0 is Some && b.cost(row.cand.1 as int, s) == Some(row.cand.0->0 as nat),
        b.cost(b.home(s[i]) as int, s) matches Some(y) && row.cand.0->0 <= y,
        row.best_is_candidate ==> exists|k: int|
            0 <= k < s.len() && row.best.1 == b.home(#[trigger] s[k]),
        b.distinct(play::all_columns(b)) && row.best.1 == b.home(s[i]) ==> row.best_is_candidate,
{
    admissible::law_best_is_optimal(b, s, true);
    admissible::law_full_search_no_worse(b, s);
    optimal::lemma_universe(b, s, true);
    solver::lemma_cheapest(b, s, s.len());
    admissible::lemma_candidate_finite(b, s, i);
    admissible::lemma_candidate_finite(b, s, 0);
    assert(!board::less(b.cost(b.home(s[i]) as int, s), solver::amount(row.cand.0)));
    if row.best_is_candidate {
        let c = solver::column_of(b, row.best.1 as int, b.answers.len())->0;
        solver::law_column(b, row.best.1 as int, b.answers.len());
        let k = choose|k: int| 0 <= k < s.len() && s[k] == c;
        assert(row.best.1 == b.home(s[k]));
    }
    if b.distinct(play::all_columns(b)) && row.best.1 == b.home(s[i]) {
        let all = play::all_columns(b);
        solver::law_column(b, row.best.1 as int, b.answers.len());
        assert(b.home(s[i]) == row.best.1);
        let c = solver::column_of(b, row.best.1 as int, b.answers.len())->0;
        optimal::lemma_home(b, s[i]);
        optimal::lemma_home(b, c);
        assert(all[c as int] == c && all[s[i] as int] == s[i]);
        assert(c == s[i]);
        assert(s.contains(s[i]));
    }
}

/// The hardest rows come first: of two rows in the ranking the earlier one has no bounded cost or
/// both have, and then its expected number of guesses is the larger one, or the two are equal and
/// it is the earlier row. Every row is ranked once, with its own cost and weight.
pub proof fn law_hardest(rows: Seq<Row>, i: int, j: int)
    requires
        rows.len() <= usize::MAX,
        0 <= i < j < rows.len(),
    ensures
        ({
            let r = sort::sorted(hardness_of(rows));
            let (x, y) = (r[i], r[j]);
            &&& r.len() == rows.len()
            &&& x.pos < rows.len() && x.cost == rows[x.pos as int].best.0 && x.weight
                == rows[x.pos as int].weight
            &&& x.pos != y.pos
            &&& y.cost is None || y.weight == 0 ==> x.cost is None || x.weight == 0
            &&& x.cost is Some && x.weight > 0 && y.cost is Some && y.weight > 0 ==> x.cost->0
                * y.weight > y.cost->0 * x.weight || (x.cost->0 * y.weight == y.cost->0 * x.weight
                && x.pos < y.pos)
        }),
{
    let h = hardness_of(rows);
    let r = sort::sorted(h);
    sort::lemma_sorted(h);
    assert forall|m: int, n: int| 0 <= m < n < h.len() implies h[m] != h[n] by {
        assert(h[m].pos == m && h[n].pos == n);
    }
    assert(h.no_duplicates());
    h.lemma_multiset_has_no_duplicates();
    r.lemma_multiset_has_no_duplicates_conv();
    assert(r.contains(r[i]) && r.contains(r[j]));
    let m = choose|m: int| 0 <= m < h.len() && h[m] == r[i];
    let n = choose|n: int| 0 <= n < h.len() && h[n] == r[j];
    assert(r[i] != r[j]);
    assert(r[i].leq(r[j]));
}

proof fn lemma_row_extends(b: Board, m: Store, s: Seq<u32>, info: u32)
    ensures
        memory::extends(m, after_row(b, m, s, info)),
        s.len() >= 2 ==> after_row(b, m, s, info).root.contains_key(s),
{
    let best = memory::after_search(b, m, s, true);
    let next = if s.len() == 1 {
        best
    } else {
        memory::after_guess(b, best, info as int, s, None)
    };
    let n = after_row(b, m, s, info);
    memory::lemma_search_extends(b, m, s);
    memory::lemma_extends_itself(best);
    memory::lemma_guess_extends(b, best, info as int, s, None);
    memory::lemma_candidates_extend(b, next, s, s.len());
    memory::lemma_extends_twice(m, best, next);
    memory::lemma_extends_twice(m, next, n);
    if s.len() >= 2 {
        assert(n.root == best.root);
    }
}

/// What a row remembers: its set of candidates, if there are two or more, and what the guess with
/// the most information leaves, where that has a bounded cost. Nothing is forgotten.
pub proof fn law_row_remembers(b: Board, m: Store, s: Seq<u32>, info: u32, p: int)
    requires
        s.len() >= 2,
    ensures
        ({
            let n = after_row(b, m, s, info);
            &&& n.root.contains_key(s)
            &&& m.root.submap_of(n.root)
            &&& m.beyond.submap_of(n.beyond)
            &&& b.cost(info as int, s) is Some && 0 <= p < 242 && 2 <= b.bucket(
                info as int,
                s,
                p,
            ).len() <= 160 ==> n.beyond.contains_key(b.bucket(info as int, s, p))
        }),
{
    let best = memory::after_search(b, m, s, true);
    let next = memory::after_guess(b, best, info as int, s, None);
    let sub = b.bucket(info as int, s, p);
    lemma_row_extends(b, m, s, info);
    memory::lemma_candidates_extend(b, next, s, s.len());
    if b.cost(info as int, s) is Some && 0 <= p < 242 && 2 <= sub.len() <= 160 {
        memory::law_guess_remembers(b, best, info as int, s, None, p);
        assert(next.beyond.dom().contains(sub));
    }
}

/// An analysis remembers the candidates of every row that has two or more, and forgets nothing.
pub proof fn law_rows_remember(b: Board, m: Store, opener: int, rows: Seq<Row>, n: nat, i: int)
    requires
        0 <= i < n <= rows.len(),
        b.part(opener, play::all_columns(b), rows[i].code as int).len() >= 2,
    ensures
        after_rows(b, m, opener, rows, n).root.contains_key(
            b.part(opener, play::all_columns(b), rows[i].code as int),
        ),
    decreases n,
{
    let all = play::all_columns(b);
    let before = after_rows(b, m, opener, rows, (n - 1) as nat);
    let s = b.part(opener, all, rows[i].code as int);
    let last = b.part(opener, all, rows[n - 1].code as int);
    lemma_row_extends(b, before, last, rows[n - 1].info.1);
    if i < n - 1 {
        law_rows_remember(b, m, opener, rows, (n - 1) as nat, i);
        assert(before.root.dom().contains(s));
    }
}

} // verus!
