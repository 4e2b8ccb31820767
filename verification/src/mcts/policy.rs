//! The policies of the search, and the rule by which the best of a row is
//! picked.

use vstd::prelude::*;
use crate::mcts::score::Ratio;

verus! {

/// How a child is picked on the way down.
#[derive(Debug, Copy, Clone, PartialEq, Eq, Structural)]
pub enum SelectionPolicy {
    /// Upper confidence bound applied to trees.
    UCT,
    /// Not yet there: asking a score by it is not allowed.
    AlphaZero,
}

/// How a node's children are made.
#[derive(Debug, Copy, Clone, PartialEq, Eq, Structural)]
pub enum ExpansionPolicy {
    Random,
}

/// How a playout picks its moves.
#[derive(Debug, Copy, Clone, PartialEq, Eq, Structural)]
pub enum SimulationPolicy {
    Random,
}

impl Default for SelectionPolicy {
    fn default() -> (p: SelectionPolicy)
        ensures
            p == SelectionPolicy::UCT,
    {
        SelectionPolicy::UCT
    }
}

impl Default for ExpansionPolicy {
    fn default() -> (p: ExpansionPolicy)
        ensures
            p == ExpansionPolicy::Random,
    {
        ExpansionPolicy::Random
    }
}

impl Default for SimulationPolicy {
    fn default() -> (p: SimulationPolicy)
        ensures
            p == SimulationPolicy::Random,
    {
        SimulationPolicy::Random
    }
}

impl SelectionPolicy {
    /// The name of the policy.
    pub fn name(&self) -> (s: String)
        ensures
            s@ == match self {
                SelectionPolicy::UCT => "UCT"@,
                SelectionPolicy::AlphaZero => "AlphaZero"@,
            },
    {
        match self {
            SelectionPolicy::UCT => "UCT".to_owned(),
            SelectionPolicy::AlphaZero => "AlphaZero".to_owned(),
        }
    }
}

impl ExpansionPolicy {
    /// The name of the policy.
    pub fn name(&self) -> (s: String)
        ensures
            s@ == "Random"@,
    {
        "Random".to_owned()
    }
}

impl SimulationPolicy {
    /// The name of the policy.
    pub fn name(&self) -> (s: String)
        ensures
            s@ == "Random"@,
    {
        "Random".to_owned()
    }
}

/// The place of the best among the first `n` of `ranks`: the first of those
/// that none exceeds. Zero where there is none to pick from.
pub open spec fn lead(ranks: Seq<int>, n: int) -> int
    decreases n,
{
    if n <= 1 {
        0
    } else {
        let b = lead(ranks, n - 1);
        if ranks[n - 1] > ranks[b] {
            n - 1
        } else {
            b
        }
    }
}

/// The place of the best of `ranks`.
pub open spec fn first_max(ranks: Seq<int>) -> int {
    lead(ranks, ranks.len() as int)
}

/// The lead is a place among those it was picked from; none of them exceeds
/// it, and none before it comes up to it.
pub proof fn lemma_lead(ranks: Seq<int>, n: int)
    requires
        1 <= n <= ranks.len(),
    ensures
        0 <= lead(ranks, n) < n,
        forall|k: int| 0 <= k < n ==> #[trigger] ranks[k] <= ranks[lead(ranks, n)],
        forall|k: int| 0 <= k < lead(ranks, n) ==> #[trigger] ranks[k] < ranks[lead(ranks, n)],
    decreases n,
{
    if n > 1 {
        lemma_lead(ranks, n - 1);
    }
}

/// The best of a row is the first that none exceeds.
pub proof fn lemma_first_max(ranks: Seq<int>)
    requires
        ranks.len() > 0,
    ensures
        0 <= first_max(ranks) < ranks.len(),
        forall|k: int| 0 <= k < ranks.len() ==> #[trigger] ranks[k] <= ranks[first_max(ranks)],
        forall|k: int| 0 <= k < first_max(ranks) ==> #[trigger] ranks[k] < ranks[first_max(ranks)],
{
    lemma_lead(ranks, ranks.len() as int);
}

/// The place of the largest among the first `n` of `shares`: the first of
/// those that none exceeds. Zero where there is none to pick from.
pub open spec fn lead_share(shares: Seq<Ratio>, n: int) -> int
    decreases n,
{
    if n <= 1 {
        0
    } else {
        let b = lead_share(shares, n - 1);
        if shares[n - 1].above(&shares[b]) {
            n - 1
        } else {
            b
        }
    }
}

/// The place of the largest of `shares`.
pub open spec fn first_best(shares: Seq<Ratio>) -> int {
    lead_share(shares, shares.len() as int)
}

/// Among shares with denominators above zero, none exceeds the lead, and
/// none before it comes up to it.
pub proof fn lemma_first_best(shares: Seq<Ratio>, n: int)
    requires
        1 <= n <= shares.len(),
        forall|k: int| 0 <= k < shares.len() ==> (#[trigger] shares[k]).den > 0,
    ensures
        0 <= lead_share(shares, n) < n,
        forall|k: int| 0 <= k < n ==> !(#[trigger] shares[k]).above(&shares[lead_share(shares, n)]),
        forall|k: int|
            0 <= k < lead_share(shares, n) ==> shares[lead_share(shares, n)].above(
                &#[trigger] shares[k],
            ),
    decreases n,
{
    if n > 1 {
        lemma_first_best(shares, n - 1);
        let b = lead_share(shares, n - 1);
        let last = shares[n - 1];
        let top = shares[b];
        if last.above(&top) {
            assert forall|k: int| 0 <= k < n implies !(#[trigger] shares[k]).above(&last) by {
                let x = shares[k];
                if k < n - 1 {
                    assert(!x.above(&top));
                    lemma_above_chain(x, top, last);
                }
            }
            assert forall|k: int| 0 <= k < n - 1 implies last.above(&#[trigger] shares[k]) by {
                let x = shares[k];
                assert(!x.above(&top));
                lemma_above_chain(x, top, last);
            }
        }
    }
}

/// What is not above something that a third is above, the third is above.
pub proof fn lemma_above_chain(x: Ratio, top: Ratio, last: Ratio)
    requires
        x.den > 0,
        top.den > 0,
        last.den > 0,
        !x.above(&top),
        last.above(&top),
    ensures
        last.above(&x),
        !x.above(&last),
{
    let (a, b) = (x.num as int, x.den as int);
    let (c, d) = (top.num as int, top.den as int);
    let (e, f) = (last.num as int, last.den as int);
    assert(a * d <= c * b);
    assert(e * d > c * f);
    assert(e * b > a * f) by (nonlinear_arith)
        requires
            a * d <= c * b,
            e * d > c * f,
            b > 0,
            d > 0,
            f > 0,
            a >= 0,
            c >= 0,
            e >= 0,
    ;
}

} // verus!
