use vstd::prelude::*;

verus! {

/// A score held exactly as the fraction `num / den`.
///
/// Distances (Levenshtein, Hamming) are whole numbers, `den == 1`; similarities
/// (Jaro, Jaro-Winkler) lie in `[0, 1]`.
#[derive(Clone, Copy, Debug, PartialEq, Eq)]
pub struct Score {
    pub num: u64,
    pub den: u64,
}

/// Whether a smaller or a larger score marks the better match.
#[derive(Clone, Copy, Debug, PartialEq, Eq, Structural)]
pub enum Order {
    LowerIsBetter,
    HigherIsBetter,
}

impl Score {
    pub open spec fn wf(self) -> bool {
        self.den > 0
    }

    /// The whole number `n` as a score.
    pub fn whole(n: u64) -> (r: Score)
        ensures
            r == (Score { num: n, den: 1 }),
    {
        Score { num: n, den: 1 }
    }
}

/// `a < b` as fractions.
pub open spec fn less(a: Score, b: Score) -> bool {
    (a.num as int) * (b.den as int) < (b.num as int) * (a.den as int)
}

/// `a == b` as fractions.
pub open spec fn same_value(a: Score, b: Score) -> bool {
    (a.num as int) * (b.den as int) == (b.num as int) * (a.den as int)
}

/// `a` is a strictly better match than `b` under `o`.
pub open spec fn better(o: Order, a: Score, b: Score) -> bool {
    match o {
        Order::LowerIsBetter => less(a, b),
        Order::HigherIsBetter => less(b, a),
    }
}

pub fn is_less(a: Score, b: Score) -> (r: bool)
    ensures
        r == less(a, b),
{
    proof {
        let big = u64::MAX as int;
        assert((a.num as int) * (b.den as int) <= big * big) by (nonlinear_arith)
            requires 0 <= a.num <= big, 0 <= b.den <= big;
        assert((b.num as int) * (a.den as int) <= big * big) by (nonlinear_arith)
            requires 0 <= b.num <= big, 0 <= a.den <= big;
    }
    let x: u128 = (a.num as u128) * (b.den as u128);
    let y: u128 = (b.num as u128) * (a.den as u128);
    x < y
}

pub fn is_better(o: Order, a: Score, b: Score) -> (r: bool)
    ensures
        r == better(o, a, b),
{
    match o {
        Order::LowerIsBetter => is_less(a, b),
        Order::HigherIsBetter => is_less(b, a),
    }
}

/// Three-way comparison that puts better scores first.
pub fn rank_cmp(o: Order, a: Score, b: Score) -> (r: core::cmp::Ordering)
    ensures
        (r == core::cmp::Ordering::Less) == better(o, a, b),
        (r == core::cmp::Ordering::Greater) == better(o, b, a),
{
    if is_better(o, a, b) {
        core::cmp::Ordering::Less
    } else if is_better(o, b, a) {
        core::cmp::Ordering::Greater
    } else {
        core::cmp::Ordering::Equal
    }
}

} // verus!

verus! {

/// Of two scores, at most one is strictly better than the other.
pub proof fn lemma_better_asymmetric(o: Order, a: Score, b: Score)
    ensures
        better(o, a, b) ==> !better(o, b, a),
{
}

/// If `a` beats `b` and `c` does not beat `b`, then `a` beats `c`.
pub proof fn lemma_better_trans(o: Order, a: Score, b: Score, c: Score)
    requires
        a.wf(),
        b.wf(),
        c.wf(),
        better(o, a, b),
        !better(o, c, b),
    ensures
        better(o, a, c),
{
    let (an, ad, bn, bd, cn, cd) = (
        a.num as int,
        a.den as int,
        b.num as int,
        b.den as int,
        c.num as int,
        c.den as int,
    );
    match o {
        Order::LowerIsBetter => {
            assert(an * cd < cn * ad) by (nonlinear_arith)
                requires an * bd < bn * ad, cn * bd >= bn * cd, ad > 0, bd > 0, cd > 0;
        },
        Order::HigherIsBetter => {
            assert(cn * ad < an * cd) by (nonlinear_arith)
                requires bn * ad < an * bd, bn * cd >= cn * bd, ad > 0, bd > 0, cd > 0;
        },
    }
}

} // verus!
