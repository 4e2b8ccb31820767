//! Selection values in fixed point.
//!
//! The value by which the search picks a child is the share of playouts that
//! went well for the side to move there, plus a term that favours children
//! seen less often than their parents: the square root of twice the natural
//! logarithm of the parents' visits over the child's own. Both are kept as
//! whole numbers of 2^-32. The square root is the largest whole number whose
//! square does not exceed its argument. The logarithm to base two is exact at
//! the powers of two and goes in a straight line between them; the natural
//! logarithm is that times ln 2.

use vstd::prelude::*;
use vstd::arithmetic::power2::{pow2, lemma_pow2_unfold, lemma_pow2_pos, lemma2_to64};
use vstd::arithmetic::div_mod::{lemma_div_is_ordered, lemma_div_is_ordered_by_denominator};
use vstd::arithmetic::mul::lemma_mul_inequality;
use crate::rules::Color;

verus! {

/// One, in fixed point.
pub const ONE: u64 = 0x1_0000_0000;

/// The natural logarithm of two, in fixed point, rounded down.
pub const LN2: u64 = 2977044471;

/// The most visits a node counts. Beyond it the node's figures stand still.
pub const VISIT_LIMIT: u64 = 0x3fff_ffff_ffff_ffff;

/// The value by which a child is picked: a number in fixed point, or more
/// than any number where the child was never visited.
#[derive(Clone, Copy, PartialEq, Eq, Structural, Debug)]
pub enum Score {
    Finite(u64),
    Infinite,
}

impl Score {
    /// The place of the score among all scores: the larger, the better.
    pub open spec fn rank(&self) -> int {
        match self {
            Score::Finite(v) => *v as int,
            Score::Infinite => u64::MAX as int + 1,
        }
    }

    /// Whether this score is strictly better than `other`.
    pub fn exceeds(&self, other: &Score) -> (b: bool)
        ensures
            b == (self.rank() > other.rank()),
    {
        match (self, other) {
            (Score::Finite(a), Score::Finite(b)) => *a > *b,
            (Score::Finite(_), Score::Infinite) => false,
            (Score::Infinite, Score::Finite(_)) => true,
            (Score::Infinite, Score::Infinite) => false,
        }
    }
}

/// A share of playouts as a fraction. The denominator is never zero.
#[derive(Clone, Copy, PartialEq, Eq, Structural, Debug)]
pub struct Ratio {
    pub num: u64,
    pub den: u64,
}

impl Ratio {
    /// Whether this fraction is strictly larger than `other`.
    pub open spec fn above(&self, other: &Ratio) -> bool {
        self.num * other.den > other.num * self.den
    }

    /// Whether this fraction is strictly larger than `other`.
    pub fn exceeds(&self, other: &Ratio) -> (b: bool)
        ensures
            b == self.above(other),
    {
        assert(self.num * other.den <= 0xffff_ffff_ffff_ffff * 0xffff_ffff_ffff_ffff) by (nonlinear_arith)
            requires
                0 <= self.num <= 0xffff_ffff_ffff_ffff,
                0 <= other.den <= 0xffff_ffff_ffff_ffff,
        ;
        assert(other.num * self.den <= 0xffff_ffff_ffff_ffff * 0xffff_ffff_ffff_ffff) by (nonlinear_arith)
            requires
                0 <= other.num <= 0xffff_ffff_ffff_ffff,
                0 <= self.den <= 0xffff_ffff_ffff_ffff,
        ;
        let left: u128 = self.num as u128 * other.den as u128;
        let right: u128 = other.num as u128 * self.den as u128;
        left > right
    }
}

/// The share of playouts that went well for `side`, of `visits` playouts in
/// which White earned `white_wins` half points. Nothing of nothing is zero.
pub open spec fn win_share(white_wins: nat, visits: nat, side: Color) -> Ratio {
    if visits == 0 {
        Ratio { num: 0, den: 1 }
    } else {
        match side {
            Color::White => Ratio { num: white_wins as u64, den: (2 * visits) as u64 },
            Color::Black => Ratio { num: (2 * visits - white_wins) as u64, den: (2 * visits) as u64 },
        }
    }
}

/// The whole part of the logarithm to base two.
pub open spec fn log2_floor(n: nat) -> nat
    decreases n,
{
    if n < 2 {
        0
    } else {
        1 + log2_floor(n / 2)
    }
}

/// The logarithm to base two in fixed point: exact at the powers of two, in a
/// straight line between them.
pub open spec fn log2_fixed(n: nat) -> nat {
    let e = log2_floor(n);
    e * ONE as nat + (((n - pow2(e)) * ONE as nat) / pow2(e) as int) as nat
}

/// The natural logarithm in fixed point.
pub open spec fn ln_fixed(n: nat) -> nat {
    log2_fixed(n) * LN2 as nat / ONE as nat
}

/// The square of `r` does not exceed `n`, and the next square does.
pub open spec fn is_sqrt_floor(n: nat, r: nat) -> bool {
    r * r <= n < (r + 1) * (r + 1)
}

/// The largest whole number whose square does not exceed `n`.
pub open spec fn sqrt_floor(n: nat) -> nat {
    choose|r: nat| is_sqrt_floor(n, r)
}

/// The term that favours the less visited, in fixed point.
pub open spec fn exploration(parent_visits: nat, visits: nat) -> nat {
    sqrt_floor(2 * ln_fixed(parent_visits) * ONE as nat / visits)
}

/// The selection value of a node with `visits` > 0 playouts, in fixed point.
pub open spec fn uct(white_wins: nat, visits: nat, parent_visits: nat, side: Color) -> nat {
    let share = win_share(white_wins, visits, side);
    share.num as nat * ONE as nat / share.den as nat + exploration(parent_visits, visits)
}

/// A number whose square brackets `n` is the square root of `n`.
pub proof fn lemma_sqrt_floor(n: nat, r: nat)
    requires
        is_sqrt_floor(n, r),
    ensures
        sqrt_floor(n) == r,
{
    let s = sqrt_floor(n);
    assert(is_sqrt_floor(n, s));
    if s < r {
        assert((s + 1) * (s + 1) <= r * r) by (nonlinear_arith)
            requires
                s + 1 <= r,
        ;
    }
    if r < s {
        assert((r + 1) * (r + 1) <= s * s) by (nonlinear_arith)
            requires
                r + 1 <= s,
        ;
    }
}

/// A number between two neighbouring powers of two has the smaller one's
/// exponent for the whole part of its logarithm.
pub proof fn lemma_log2_floor(n: nat, e: nat)
    requires
        pow2(e) <= n < 2 * pow2(e),
    ensures
        log2_floor(n) == e,
    decreases e,
{
    if e == 0 {
        assert(pow2(0) == 1) by {
            lemma2_to64();
        }
    } else {
        lemma_pow2_unfold(e);
        lemma_pow2_pos((e - 1) as nat);
        assert(n >= 2);
        lemma_log2_floor(n / 2, (e - 1) as nat);
    }
}

/// The whole part of the logarithm to base two of `n`, and two to that power.
pub fn floor_log2(n: u64) -> (r: (u32, u64))
    requires
        n >= 1,
    ensures
        r.0 == log2_floor(n as nat),
        r.1 == pow2(r.0 as nat),
        r.1 <= n < 2 * r.1,
        r.0 < 64,
{
    let mut e: u32 = 0;
    let mut p: u64 = 1;
    proof {
        lemma2_to64();
    }
    while p <= n / 2
        invariant
            p == pow2(e as nat),
            1 <= p <= n,
            e < 64,
        decreases n - p,
    {
        proof {
            lemma_pow2_unfold((e + 1) as nat);
            if e >= 63 {
                vstd::arithmetic::power2::lemma_pow2_strictly_increases(63, (e + 1) as nat);
                lemma2_to64_rest_63();
            }
        }
        p = p * 2;
        e = e + 1;
    }
    proof {
        lemma_log2_floor(n as nat, e as nat);
    }
    (e, p)
}

proof fn lemma2_to64_rest_63()
    ensures
        pow2(63) == 0x8000_0000_0000_0000,
        pow2(64) == 0x1_0000_0000_0000_0000,
{
    vstd::arithmetic::power2::lemma2_to64_rest();
}

/// The logarithm to base two of `n` in fixed point.
pub fn log2_fixed_of(n: u64) -> (r: u64)
    requires
        n >= 1,
    ensures
        r == log2_fixed(n as nat),
        r < 64 * ONE,
{
    let (e, p) = floor_log2(n);
    let rest: u128 = (n - p) as u128 * ONE as u128 / p as u128;
    assert((n - p) * ONE / (p as int) < ONE) by (nonlinear_arith)
        requires
            0 <= n - p < p,
    ;
    assert(e * ONE <= 63 * ONE) by (nonlinear_arith)
        requires
            e <= 63,
    ;
    e as u64 * ONE + rest as u64
}

/// The natural logarithm of `n` in fixed point.
pub fn ln_fixed_of(n: u64) -> (r: u64)
    requires
        n >= 1,
    ensures
        r == ln_fixed(n as nat),
        r < 64 * ONE,
{
    let l = log2_fixed_of(n);
    assert(l * LN2 / (ONE as int) <= l) by (nonlinear_arith)
        requires
            0 <= l,
    ;
    assert(l * LN2 <= 64 * ONE * LN2) by (nonlinear_arith)
        requires
            0 <= l < 64 * ONE,
    ;
    (l as u128 * LN2 as u128 / ONE as u128) as u64
}

/// The largest whole number whose square does not exceed `n`.
pub fn sqrt_floor_of(n: u128) -> (r: u64)
    ensures
        r == sqrt_floor(n as nat),
{
    let mut low: u128 = 0;
    let mut high: u128 = 0x1_0000_0000_0000_0000;
    assert(0x1_0000_0000_0000_0000 * 0x1_0000_0000_0000_0000 > u128::MAX) by (nonlinear_arith);
    while high - low > 1
        invariant
            low < high <= 0x1_0000_0000_0000_0000,
            low * low <= n < high * high,
        decreases high - low,
    {
        let mid = low + (high - low) / 2;
        assert(mid * mid <= 0xffff_ffff_ffff_ffff * 0xffff_ffff_ffff_ffff) by (nonlinear_arith)
            requires
                0 <= mid <= 0xffff_ffff_ffff_ffff,
        ;
        if mid * mid <= n {
            low = mid;
        } else {
            high = mid;
        }
    }
    proof {
        lemma_sqrt_floor(n as nat, low as nat);
    }
    low as u64
}

/// The root of a number below the square of a bound is below the bound.
pub proof fn lemma_sqrt_floor_below(n: nat, bound: nat)
    requires
        n < bound * bound,
    ensures
        sqrt_floor(n) < bound,
{
    let r = sqrt_floor(n);
    lemma_sqrt_exists(n);
    assert(is_sqrt_floor(n, r));
    if r >= bound {
        assert(bound * bound <= r * r) by (nonlinear_arith)
            requires
                bound <= r,
        ;
    }
}

/// Every number has a root.
pub proof fn lemma_sqrt_exists(n: nat)
    ensures
        is_sqrt_floor(n, sqrt_floor(n)),
    decreases n,
{
    if n == 0 {
        assert(0 * 0 <= 0 < (0 + 1) * (0 + 1)) by (nonlinear_arith);
        assert(is_sqrt_floor(0, 0));
    } else {
        lemma_sqrt_exists((n - 1) as nat);
        let r = sqrt_floor((n - 1) as nat);
        if n < (r + 1) * (r + 1) {
            assert(is_sqrt_floor(n, r));
        } else {
            assert((r + 1 + 1) * (r + 1 + 1) > (r + 1) * (r + 1)) by (nonlinear_arith);
            assert(is_sqrt_floor(n, r + 1));
        }
    }
}

/// The term that favours the less visited, in fixed point.
pub fn exploration_of(parent_visits: u64, visits: u64) -> (r: u64)
    requires
        parent_visits >= 1,
        visits >= 1,
    ensures
        r == exploration(parent_visits as nat, visits as nat),
        r < 0x10_0000_0000,
{
    let l = ln_fixed_of(parent_visits);
    assert(2 * l * ONE < 0x1_00_0000_0000_0000_0000) by (nonlinear_arith)
        requires
            0 <= l < 64 * ONE,
            ONE == 0x1_0000_0000,
    ;
    let top: u128 = 2 * l as u128 * ONE as u128;
    assert(top / (visits as u128) <= top) by (nonlinear_arith)
        requires
            visits >= 1,
            top >= 0,
    ;
    proof {
        assert(0x10_0000_0000 * 0x10_0000_0000 == 0x1_00_0000_0000_0000_0000) by (nonlinear_arith);
        lemma_sqrt_floor_below((top / visits as u128) as nat, 0x10_0000_0000);
    }
    sqrt_floor_of(top / visits as u128)
}

/// A number of at least one lies between the power of two of the whole part
/// of its logarithm and the next.
pub proof fn lemma_log2_floor_brackets(n: nat)
    requires
        n >= 1,
    ensures
        pow2(log2_floor(n)) <= n < 2 * pow2(log2_floor(n)),
    decreases n,
{
    if n < 2 {
        lemma2_to64();
    } else {
        lemma_log2_floor_brackets(n / 2);
        lemma_pow2_unfold(log2_floor(n));
    }
}

/// The whole part of the logarithm does not fall as the number rises.
pub proof fn lemma_log2_floor_rises(a: nat, b: nat)
    requires
        a <= b,
    ensures
        log2_floor(a) <= log2_floor(b),
    decreases b,
{
    if a >= 2 {
        lemma_log2_floor_rises(a / 2, b / 2);
    }
}

/// The logarithm in fixed point is exact at the powers of two.
pub proof fn lemma_log2_exact(e: nat)
    ensures
        log2_fixed(pow2(e)) == e * ONE,
{
    lemma_pow2_pos(e);
    lemma_log2_floor(pow2(e), e);
    assert(0 * ONE as nat == 0) by (nonlinear_arith);
    assert(0int / (pow2(e) as int) == 0) by (nonlinear_arith)
        requires
            pow2(e) > 0,
    ;
}

/// The logarithm in fixed point does not fall as the number rises.
pub proof fn lemma_log2_fixed_rises(a: nat, b: nat)
    requires
        1 <= a <= b,
    ensures
        log2_fixed(a) <= log2_fixed(b),
{
    let ea = log2_floor(a);
    let eb = log2_floor(b);
    let pa = pow2(ea);
    let pb = pow2(eb);
    lemma_log2_floor_rises(a, b);
    lemma_log2_floor_brackets(a);
    lemma_log2_floor_brackets(b);
    let fa = ((a - pa) * ONE as nat) / pa as int;
    let fb = ((b - pb) * ONE as nat) / pb as int;
    if ea == eb {
        lemma_mul_inequality(a - pa, b - pb, ONE as int);
        lemma_div_is_ordered(((a - pa) * ONE as nat) as int, ((b - pb) * ONE as nat) as int, pa as int);
    } else {
        assert(fa < ONE) by (nonlinear_arith)
            requires
                0 <= a - pa < pa,
                fa == ((a - pa) * ONE as nat) / pa as int,
        ;
        assert(fb >= 0) by (nonlinear_arith)
            requires
                0 <= b - pb,
                pb > 0,
                fb == ((b - pb) * ONE as nat) / pb as int,
        ;
        assert((ea + 1) * ONE <= eb * ONE) by (nonlinear_arith)
            requires
                ea + 1 <= eb,
        ;
        assert(ea * ONE + fa < (ea + 1) * ONE) by (nonlinear_arith)
            requires
                fa < ONE,
        ;
    }
}

/// The square root does not fall as the number rises.
pub proof fn lemma_sqrt_rises(a: nat, b: nat)
    requires
        a <= b,
    ensures
        sqrt_floor(a) <= sqrt_floor(b),
{
    let r = sqrt_floor(a);
    let s = sqrt_floor(b);
    lemma_sqrt_exists(a);
    lemma_sqrt_exists(b);
    if r > s {
        assert((s + 1) * (s + 1) <= r * r) by (nonlinear_arith)
            requires
                s + 1 <= r,
        ;
    }
}

/// The term that favours the less visited is nothing where the parents
/// were visited once.
pub proof fn lemma_exploration_at_one(visits: nat)
    requires
        visits >= 1,
    ensures
        exploration(1, visits) == 0,
{
    lemma2_to64();
    assert(log2_floor(1) == 0);
    assert(log2_fixed(1) == 0) by {
        assert(0 * ONE as nat == 0) by (nonlinear_arith);
    }
    assert(ln_fixed(1) == 0) by {
        assert(0 * LN2 as nat == 0) by (nonlinear_arith);
    }
    assert(2 * ln_fixed(1) * ONE as nat / visits == 0) by (nonlinear_arith)
        requires
            ln_fixed(1) == 0,
            visits >= 1,
    ;
    assert(is_sqrt_floor(0, 0)) by {
        assert(0 * 0 <= 0 < (0 + 1) * (0 + 1)) by (nonlinear_arith);
    }
    lemma_sqrt_floor(0, 0);
}

/// The term that favours the less visited does not fall as the visits of
/// the parents rise.
pub proof fn lemma_exploration_rises(fewer: nat, more: nat, visits: nat)
    requires
        1 <= fewer <= more,
        visits >= 1,
    ensures
        exploration(fewer, visits) <= exploration(more, visits),
{
    lemma_log2_fixed_rises(fewer, more);
    lemma_mul_inequality(log2_fixed(fewer) as int, log2_fixed(more) as int, LN2 as int);
    lemma_div_is_ordered(
        (log2_fixed(fewer) * LN2 as nat) as int,
        (log2_fixed(more) * LN2 as nat) as int,
        ONE as int,
    );
    let low = ln_fixed(fewer);
    let high = ln_fixed(more);
    assert(2 * low * ONE as nat <= 2 * high * ONE as nat) by (nonlinear_arith)
        requires
            low <= high,
    ;
    lemma_div_is_ordered((2 * low * ONE as nat) as int, (2 * high * ONE as nat) as int, visits as int);
    assert(2 * low * ONE as nat / visits >= 0) by (nonlinear_arith)
        requires
            low >= 0,
            visits >= 1,
    ;
    lemma_sqrt_rises((2 * low * ONE as nat / visits) as nat, (2 * high * ONE as nat / visits) as nat);
}

/// The term that favours the less visited does not rise as the visits of
/// the node rise.
pub proof fn lemma_exploration_falls(parent_visits: nat, fewer: nat, more: nat)
    requires
        1 <= fewer <= more,
    ensures
        exploration(parent_visits, more) <= exploration(parent_visits, fewer),
{
    let top = 2 * ln_fixed(parent_visits) * ONE as nat;
    lemma_div_is_ordered_by_denominator(top as int, fewer as int, more as int);
    assert(top / more >= 0) by (nonlinear_arith)
        requires
            top >= 0,
            more >= 1,
    ;
    lemma_sqrt_rises((top / more) as nat, (top / fewer) as nat);
}

} // verus!
