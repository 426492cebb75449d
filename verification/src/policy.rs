//! The tree policy: how the search chooses among the children of a node.

use vstd::arithmetic::div_mod::{lemma_div_is_ordered, lemma_div_multiples_vanish};
use vstd::arithmetic::div_mod::{lemma_div_plus_one, lemma_div_pos_is_pos};
use vstd::arithmetic::div_mod::lemma_fundamental_div_mod;
use vstd::arithmetic::div_mod::{lemma_fundamental_div_mod_converse_div, lemma_mod_bound};
use vstd::prelude::*;

verus! {

/// A rule that scores a child as seen from its parent.
///
/// The search descends to the child with the largest score and takes the
/// first of several equal ones. It never asks for the score of a child that
/// no playout has visited.
///
/// A policy owes the search one thing: that its score is a function of
/// what it is asked about, which `scored` names. `Ucb` is the policy of
/// the library.
pub trait TreePolicy {
    /// The score that the policy gives to a child with `child_visits`
    /// visits and a value sum of `child_value_sum` half points, under a
    /// parent with `parent_visits` visits. `exploration` is the
    /// exploration constant in millionths.
    spec fn scored(
        &self,
        exploration: u32,
        parent_visits: u32,
        child_visits: u32,
        child_value_sum: i64,
    ) -> i64;

    /// Computes the score of a child.
    fn score(
        &self,
        exploration: u32,
        parent_visits: u32,
        child_visits: u32,
        child_value_sum: i64,
    ) -> (score: i64)
        requires
            exploration >= 1,
            1 <= child_visits <= parent_visits,
            -2 * child_visits <= child_value_sum <= 2 * child_visits,
        ensures
            score == self.scored(exploration, parent_visits, child_visits, child_value_sum),
    ;
}

/// The values of a list as numbers without bounds.
pub open spec fn ints(values: Seq<i64>) -> Seq<int> {
    Seq::new(values.len(), |k: int| values[k] as int)
}

/// Whether `best` is the place of the first of the largest values.
pub open spec fn is_first_maximum(values: Seq<int>, best: int) -> bool {
    &&& 0 <= best < values.len()
    &&& forall|j: int| 0 <= j < values.len() ==> values[j] <= values[best]
    &&& forall|j: int| 0 <= j < best ==> values[j] < values[best]
}

/// Only one place is that of the first of the largest values.
pub proof fn lemma_first_maximum_unique(values: Seq<int>, a: int, b: int)
    requires
        is_first_maximum(values, a),
        is_first_maximum(values, b),
    ensures
        a == b,
{
    if a < b {
        assert(values[a] < values[b]);
    } else if b < a {
        assert(values[b] < values[a]);
    }
}

/// Finds the first of the largest values.
pub fn first_maximum(values: &Vec<i64>) -> (best: usize)
    requires
        values.len() > 0,
    ensures
        is_first_maximum(ints(values@), best as int),
{
    let mut best: usize = 0;
    let mut i: usize = 1;
    while i < values.len()
        invariant
            1 <= i <= values.len(),
            0 <= best < i,
            forall|j: int| 0 <= j < i ==> values@[j] <= values@[best as int],
            forall|j: int| 0 <= j < best ==> values@[j] < values@[best as int],
        decreases values.len() - i,
    {
        if values[i] > values[best] {
            best = i;
        }
        i += 1;
    }
    best
}

/// The number of score units in one point: large enough to tell any two
/// averages of the same number of visits apart.
pub const UNIT: u64 = 0x2_0000_0000;

/// The number that stands for one in the tables of roots.
pub const ROOT_SCALE: u32 = 0x1_0000;

/// The most that the exploration term of a score can be, in score units.
pub const MOST_BONUS: u64 = 0x4000_0000_0000_0000;

/// The upper confidence bound: the average worth of a child as its parent
/// sees it, plus a term that grows with the visits of the parent and
/// shrinks with those of the child.
///
/// The term is the exploration constant times the root of the logarithm
/// of the parent's visits plus one, divided by the root of the child's
/// visits. The two roots are not computed here: they are read from two
/// tables that hold them as multiples of one in `ROOT_SCALE`, and whoever
/// makes the policy fills the tables.
pub struct Ucb {
    /// At place `N`, the root of the natural logarithm of `N + 1`.
    pub log_roots: Vec<u32>,
    /// At place `n`, one divided by the root of `n`; the place 0 is not
    /// read.
    pub inverse_roots: Vec<u32>,
}

/// The entry of a table at a place, and nothing beyond its end.
pub open spec fn entry(table: Seq<u32>, place: int) -> int {
    if 0 <= place < table.len() {
        table[place] as int
    } else {
        0
    }
}

/// The average worth of a child with `visits` visits and a value sum of
/// `value_sum` half points, as its parent sees it, in score units and
/// rounded down. It is counted from the worst average, minus one point,
/// so that it is never negative.
pub open spec fn exploitation(visits: int, value_sum: int) -> int {
    ((2 * visits - value_sum) * UNIT) / (2 * visits)
}

/// The exploration term for an exploration constant of `exploration`
/// millionths and the two roots, in score units and rounded down, and no
/// more than `MOST_BONUS`.
pub open spec fn exploration_term(exploration: int, log_root: int, inverse_root: int) -> int {
    let term = (exploration * log_root * inverse_root * 2) / 1_000_000;
    if term > MOST_BONUS {
        MOST_BONUS as int
    } else {
        term
    }
}

impl Ucb {
    /// The policy that reads the roots from the given tables.
    pub fn new(log_roots: Vec<u32>, inverse_roots: Vec<u32>) -> (policy: Self)
        ensures
            policy.log_roots == log_roots,
            policy.inverse_roots == inverse_roots,
    {
        Ucb { log_roots, inverse_roots }
    }

    /// The exploration term of a child with `child_visits` visits under a
    /// parent with `parent_visits` visits.
    pub open spec fn bonus(&self, exploration: u32, parent_visits: u32, child_visits: u32) -> int {
        exploration_term(
            exploration as int,
            entry(self.log_roots@, parent_visits as int),
            entry(self.inverse_roots@, child_visits as int),
        )
    }

    /// The upper confidence bound of a child, in score units.
    pub open spec fn bound(
        &self,
        exploration: u32,
        parent_visits: u32,
        child_visits: u32,
        child_value_sum: i64,
    ) -> int {
        exploitation(child_visits as int, child_value_sum as int) + self.bonus(
            exploration,
            parent_visits,
            child_visits,
        )
    }

    /// The bound of a child that the search asks about is a score: it is
    /// not negative and fits the type of the scores.
    pub proof fn lemma_bound_is_score(
        &self,
        exploration: u32,
        parent_visits: u32,
        visits: u32,
        value_sum: i64,
    )
        requires
            visits >= 1,
            -2 * visits <= value_sum <= 2 * visits,
        ensures
            0 <= self.bound(exploration, parent_visits, visits, value_sum) <= 2 * UNIT
                + MOST_BONUS,
            self.scored(exploration, parent_visits, visits, value_sum) == self.bound(
                exploration,
                parent_visits,
                visits,
                value_sum,
            ),
    {
        let d = 2 * visits as int;
        let shifted = d - value_sum;
        assert(0 <= shifted * UNIT <= (2 * UNIT) * d) by (nonlinear_arith)
            requires
                0 <= shifted <= 2 * d,
        ;
        lemma_div_pos_is_pos(shifted * UNIT, d);
        lemma_div_is_ordered(shifted * UNIT, (2 * UNIT) * d, d);
        lemma_div_multiples_vanish(2 * UNIT as int, d);
        assert((2 * UNIT) * d == d * (2 * UNIT)) by (nonlinear_arith);
        let a = entry(self.log_roots@, parent_visits as int);
        let b = entry(self.inverse_roots@, visits as int);
        assert(exploration * a * b * 2 >= 0) by (nonlinear_arith)
            requires
                exploration >= 0,
                a >= 0,
                b >= 0,
        ;
        lemma_div_pos_is_pos(exploration * a * b * 2, 1_000_000);
    }

    /// Of two children with equal visits, the one with the higher average
    /// worth to the parent, which is the one with the smaller value sum
    /// of its own, has the higher bound.
    pub proof fn lemma_better_average_scores_higher(
        &self,
        exploration: u32,
        parent_visits: u32,
        visits: u32,
        better: i64,
        worse: i64,
    )
        requires
            visits >= 1,
            -2 * visits <= better < worse <= 2 * visits,
        ensures
            self.bound(exploration, parent_visits, visits, better) > self.bound(
                exploration,
                parent_visits,
                visits,
                worse,
            ),
            self.scored(exploration, parent_visits, visits, better) > self.scored(
                exploration,
                parent_visits,
                visits,
                worse,
            ),
    {
        self.lemma_bound_is_score(exploration, parent_visits, visits, better);
        self.lemma_bound_is_score(exploration, parent_visits, visits, worse);
        let d = 2 * visits as int;
        let high = (d - better) * UNIT;
        let low = (d - worse) * UNIT;
        assert(high - low == (worse - better) * UNIT) by (nonlinear_arith)
            requires
                high == (d - better) * UNIT,
                low == (d - worse) * UNIT,
        ;
        assert((worse - better) * UNIT >= UNIT) by (nonlinear_arith)
            requires
                worse - better >= 1,
        ;
        assert(low + d <= high);
        lemma_div_plus_one(low, d);
        lemma_div_is_ordered(d + low, high, d);
    }

    /// Of two children with equal averages, the one with fewer visits has
    /// the higher bound, wherever the tables of roots tell the exploration
    /// terms of the two apart.
    pub proof fn lemma_fewer_visits_score_higher(
        &self,
        exploration: u32,
        parent_visits: u32,
        fewer: u32,
        fewer_sum: i64,
        more: u32,
        more_sum: i64,
    )
        requires
            1 <= fewer < more,
            -2 * fewer <= fewer_sum <= 2 * fewer,
            -2 * more <= more_sum <= 2 * more,
            fewer_sum * more == more_sum * fewer,
            self.bonus(exploration, parent_visits, fewer) > self.bonus(
                exploration,
                parent_visits,
                more,
            ),
        ensures
            self.bound(exploration, parent_visits, fewer, fewer_sum) > self.bound(
                exploration,
                parent_visits,
                more,
                more_sum,
            ),
            self.scored(exploration, parent_visits, fewer, fewer_sum) > self.scored(
                exploration,
                parent_visits,
                more,
                more_sum,
            ),
    {
        self.lemma_bound_is_score(exploration, parent_visits, fewer, fewer_sum);
        self.lemma_bound_is_score(exploration, parent_visits, more, more_sum);
        let a = (2 * fewer - fewer_sum) * UNIT;
        let c = (2 * more - more_sum) * UNIT;
        assert(a * (2 * more) == c * (2 * fewer)) by (nonlinear_arith)
            requires
                fewer_sum * more == more_sum * fewer,
                a == (2 * fewer - fewer_sum) * UNIT,
                c == (2 * more - more_sum) * UNIT,
        ;
        assert(a >= 0) by (nonlinear_arith)
            requires
                2 * fewer - fewer_sum >= 0,
                a == (2 * fewer - fewer_sum) * UNIT,
        ;
        lemma_equal_ratios_round_alike(a, 2 * fewer as int, c, 2 * more as int);
    }
}

/// Two fractions that are equal round down to the same number.
pub proof fn lemma_equal_ratios_round_alike(a: int, b: int, c: int, d: int)
    requires
        0 <= a,
        0 < b,
        0 < d,
        a * d == c * b,
    ensures
        a / b == c / d,
{
    let q = a / b;
    let r = a % b;
    lemma_fundamental_div_mod(a, b);
    lemma_mod_bound(a, b);
    let s = c - q * d;
    assert(s * b == r * d) by (nonlinear_arith)
        requires
            a == b * q + r,
            a * d == c * b,
            s == c - q * d,
    ;
    assert(0 <= s < d) by (nonlinear_arith)
        requires
            s * b == r * d,
            0 <= r < b,
            0 < d,
            0 < b,
    ;
    lemma_fundamental_div_mod_converse_div(c, d, q, s);
}

impl TreePolicy for Ucb {
    open spec fn scored(
        &self,
        exploration: u32,
        parent_visits: u32,
        child_visits: u32,
        child_value_sum: i64,
    ) -> i64 {
        self.bound(exploration, parent_visits, child_visits, child_value_sum) as i64
    }

    fn score(
        &self,
        exploration: u32,
        parent_visits: u32,
        child_visits: u32,
        child_value_sum: i64,
    ) -> (score: i64)
        ensures
            score == self.bound(exploration, parent_visits, child_visits, child_value_sum),
    {
        let twice: u64 = 2 * (child_visits as u64);
        let shifted: u64 = (twice as i64 - child_value_sum) as u64;
        assert(shifted * UNIT <= 2 * UNIT * twice) by (nonlinear_arith)
            requires
                shifted <= 2 * twice,
        ;
        assert(2 * UNIT * twice <= 0x8_0000_0000 * 0x2_0000_0000) by (nonlinear_arith)
            requires
                twice <= 0x2_0000_0000,
        ;
        let average: u128 = (shifted as u128 * UNIT as u128) / (twice as u128);
        proof {
            lemma_div_is_ordered(shifted * UNIT, (2 * UNIT) * twice, twice as int);
            lemma_div_multiples_vanish(2 * UNIT as int, twice as int);
            assert((2 * UNIT) * twice == twice * (2 * UNIT)) by (nonlinear_arith);
        }
        let log_root: u32 = if (parent_visits as usize) < self.log_roots.len() {
            self.log_roots[parent_visits as usize]
        } else {
            0
        };
        let inverse_root: u32 = if (child_visits as usize) < self.inverse_roots.len() {
            self.inverse_roots[child_visits as usize]
        } else {
            0
        };
        assert(exploration * log_root <= 0xffff_ffff * 0xffff_ffff) by (nonlinear_arith)
            requires
                0 <= exploration <= 0xffff_ffff,
                0 <= log_root <= 0xffff_ffff,
        ;
        assert((exploration * log_root) * inverse_root <= (0xffff_ffff * 0xffff_ffff)
            * 0xffff_ffff) by (nonlinear_arith)
            requires
                0 <= exploration * log_root <= 0xffff_ffff * 0xffff_ffff,
                0 <= inverse_root <= 0xffff_ffff,
        ;
        let term: u128 = (exploration as u128 * log_root as u128 * inverse_root as u128 * 2)
            / 1_000_000;
        let bonus: u128 = if term > MOST_BONUS as u128 {
            MOST_BONUS as u128
        } else {
            term
        };
        (average + bonus) as i64
    }
}

} // verus!
