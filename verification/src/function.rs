use vstd::prelude::*;

use crate::fixed::{Fixed, SCALE};

verus! {

/// Preference of the usual criterion, by the difference `d` of the two
/// evaluations in raw units: full as soon as the first is better.
pub open spec fn usual_pref(d: int) -> int {
    if d <= 0 { 0 } else { SCALE as int }
}

/// Preference of the quasi criterion with indifference threshold `l`.
pub open spec fn quasi_pref(l: int, d: int) -> int {
    if d <= 0 { 0 } else if d < l { 0 } else { SCALE as int }
}

/// Preference of the criterion with linear preference up to `m`.
pub open spec fn linear_pref(m: int, d: int) -> int {
    if d <= 0 { 0 } else if d < m { d * SCALE / m } else { SCALE as int }
}

/// Preference of the level criterion: none up to `q`, half up to `q + s`,
/// full beyond.
pub open spec fn level_pref(q: int, s: int, d: int) -> int {
    if d <= 0 {
        0
    } else if d <= q {
        0
    } else if d <= q + s {
        SCALE as int / 2
    } else {
        SCALE as int
    }
}

/// Preference of the criterion with an indifference threshold `q` and a
/// linear area of width `s` beyond it.
pub open spec fn linear_indifference_pref(q: int, s: int, d: int) -> int {
    if d <= 0 {
        0
    } else if d <= q {
        0
    } else if d <= q + s {
        (d - q) * SCALE / s
    } else {
        SCALE as int
    }
}

/// Difference of two evaluations, in raw units, without overflow.
fn difference(arg1: Fixed, arg2: Fixed) -> (d: i128)
    ensures
        d == arg1@ - arg2@,
{
    (arg1.raw as i128) - (arg2.raw as i128)
}

/// `d * SCALE / p` for `0 < d < p` (or `d <= p`) stays within `0 ..= SCALE`.
proof fn lemma_scaled_ratio(d: int, p: int)
    requires
        0 < d <= p,
    ensures
        0 <= d * SCALE / p <= SCALE,
{
    let s = SCALE as int;
    assert(0 <= d * s / p <= s) by (nonlinear_arith)
        requires 0 < d <= p, s > 0;
}

/// `q * p <= x < (q + 1) * p` for `q = x / p`, `x >= 0`, `p > 0`: the
/// quotient rounded down.
proof fn lemma_quotient_bounds(x: int, p: int)
    requires
        x >= 0,
        p > 0,
    ensures
        (x / p) * p <= x < (x / p + 1) * p,
{
    assert((x / p) * p <= x < (x / p + 1) * p) by (nonlinear_arith)
        requires x >= 0, p > 0;
}

/// The usual criterion gives no preference for a difference that is not
/// positive and full preference (`SCALE`) for every positive difference,
/// however small.
pub proof fn law_usual_preference(d: int)
    ensures
        d <= 0 ==> usual_pref(d) == 0,
        d > 0 ==> usual_pref(d) == SCALE,
{
}

/// The quasi criterion with threshold `l` gives no preference below the
/// threshold and full preference from the threshold on (for a positive
/// difference).
pub proof fn law_quasi_preference(l: int, d: int)
    ensures
        d <= 0 ==> quasi_pref(l, d) == 0,
        0 < d < l ==> quasi_pref(l, d) == 0,
        d > 0 && d >= l ==> quasi_pref(l, d) == SCALE,
{
}

/// The linear criterion with threshold `m` gives, for `0 < d < m`, the share
/// `d / m` of full preference rounded down to a raw unit, and full preference
/// from `m` on (for a positive difference).
pub proof fn law_linear_preference(m: int, d: int)
    ensures
        d <= 0 ==> linear_pref(m, d) == 0,
        0 < d < m ==> linear_pref(m, d) * m <= d * SCALE < (linear_pref(m, d) + 1) * m,
        d > 0 && d >= m ==> linear_pref(m, d) == SCALE,
{
    if 0 < d < m {
        assert(d * SCALE >= 0) by (nonlinear_arith)
            requires d > 0;
        lemma_quotient_bounds(d * SCALE, m);
    }
}

/// The level criterion gives no preference up to the weak threshold `q`, half
/// preference over the weak area up to `q + s`, and full preference beyond
/// (for a positive difference).
pub proof fn law_level_preference(q: int, s: int, d: int)
    ensures
        d <= 0 ==> level_pref(q, s, d) == 0,
        0 < d <= q ==> level_pref(q, s, d) == 0,
        d > 0 && q < d <= q + s ==> level_pref(q, s, d) == 500_000_000_000,
        d > 0 && d > q && d > q + s ==> level_pref(q, s, d) == SCALE,
{
}

/// The linear criterion with indifference threshold `q` and linear area `s`
/// gives no preference up to `q`, the share `(d - q) / s` of full preference
/// (rounded down to a raw unit) between `q` and `q + s`, and full preference
/// beyond (for a positive difference).
pub proof fn law_linear_indifference_preference(q: int, s: int, d: int)
    ensures
        d <= 0 ==> linear_indifference_pref(q, s, d) == 0,
        0 < d <= q ==> linear_indifference_pref(q, s, d) == 0,
        d > 0 && q < d <= q + s ==> linear_indifference_pref(q, s, d) * s <= (d - q) * SCALE < (
        linear_indifference_pref(q, s, d) + 1) * s,
        d > 0 && d > q && d > q + s ==> linear_indifference_pref(q, s, d) == SCALE,
{
    if d > 0 && q < d <= q + s {
        assert((d - q) * SCALE >= 0) by (nonlinear_arith)
            requires d - q > 0;
        lemma_quotient_bounds((d - q) * SCALE, s);
    }
}

/// Each preference function gives the preference its own criterion
/// describes.
pub proof fn law_preference_function(f: PreferenceFunction, d: int)
    ensures
        f matches PreferenceFunction::Usual(_) ==> f.preference(d) == usual_pref(d),
        f matches PreferenceFunction::Quasi(g) ==> f.preference(d) == quasi_pref(g.l@, d),
        f matches PreferenceFunction::Linear(g) ==> f.preference(d) == linear_pref(g.m@, d),
        f matches PreferenceFunction::Level(g) ==> f.preference(d) == level_pref(
            g.weak_treshold@,
            g.weak_area@,
            d,
        ),
        f matches PreferenceFunction::LinearWithIndeference(g) ==> f.preference(d)
            == linear_indifference_pref(g.indiference_threshold@, g.linear_area@, d),
        f matches PreferenceFunction::Usual(_) ==> (d > 0 ==> f.preference(d) == SCALE),
        f matches PreferenceFunction::Quasi(g) ==> (0 < d < g.l@ ==> f.preference(d) == 0) && (
        d > 0 && d >= g.l@ ==> f.preference(d) == SCALE),
        f matches PreferenceFunction::Linear(g) ==> (0 < d < g.m@ ==> f.preference(d) * g.m@ <= d
            * SCALE < (f.preference(d) + 1) * g.m@) && (d > 0 && d >= g.m@ ==> f.preference(d)
            == SCALE),
        f matches PreferenceFunction::Level(g) ==> (0 < d <= g.weak_treshold@ ==> f.preference(d)
            == 0) && (d > 0 && g.weak_treshold@ < d <= g.weak_treshold@ + g.weak_area@
            ==> f.preference(d) == 500_000_000_000) && (d > 0 && d > g.weak_treshold@ && d
            > g.weak_treshold@ + g.weak_area@ ==> f.preference(d) == SCALE),
        f matches PreferenceFunction::LinearWithIndeference(g) ==> (0 < d
            <= g.indiference_threshold@ ==> f.preference(d) == 0) && (d > 0
            && g.indiference_threshold@ < d <= g.indiference_threshold@ + g.linear_area@
            ==> f.preference(d) * g.linear_area@ <= (d - g.indiference_threshold@) * SCALE < (
        f.preference(d) + 1) * g.linear_area@) && (d > 0 && d > g.indiference_threshold@ && d
            > g.indiference_threshold@ + g.linear_area@ ==> f.preference(d) == SCALE),
{
    match f {
        PreferenceFunction::Usual(_) => law_usual_preference(d),
        PreferenceFunction::Quasi(g) => law_quasi_preference(g.l@, d),
        PreferenceFunction::Linear(g) => law_linear_preference(g.m@, d),
        PreferenceFunction::Level(g) => law_level_preference(g.weak_treshold@, g.weak_area@, d),
        PreferenceFunction::LinearWithIndeference(g) => law_linear_indifference_preference(
            g.indiference_threshold@,
            g.linear_area@,
            d,
        ),
    }
}

/// The usual criterion: strict preference as soon as one action is better.
#[derive(Clone, Copy, Debug)]
pub struct UsualFunction {}

impl UsualFunction {
    /// Preference of `arg1` over `arg2`.
    pub fn compare(&self, arg1: Fixed, arg2: Fixed) -> (r: Fixed)
        ensures
            r@ == usual_pref(arg1@ - arg2@),
            arg1@ <= arg2@ ==> r@ == 0,
            arg1@ > arg2@ ==> r@ == SCALE,
    {
        proof {
            law_usual_preference(arg1@ - arg2@);
        }
        let diff = difference(arg1, arg2);
        if diff <= 0 {
            return Fixed::zero();
        }
        Fixed { raw: SCALE }
    }
}

/// The quasi criterion: no preference below the threshold `l`.
#[derive(Clone, Copy, Debug)]
pub struct QuasiFunction {
    pub l: Fixed,
}

impl QuasiFunction {
    /// Preference of `arg1` over `arg2`.
    pub fn compare(&self, arg1: Fixed, arg2: Fixed) -> (r: Fixed)
        ensures
            r@ == quasi_pref(self.l@, arg1@ - arg2@),
            arg1@ - arg2@ < self.l@ ==> r@ == 0,
            arg1@ > arg2@ && arg1@ - arg2@ >= self.l@ ==> r@ == SCALE,
    {
        proof {
            law_quasi_preference(self.l@, arg1@ - arg2@);
        }
        let diff = difference(arg1, arg2);
        if diff <= 0 {
            return Fixed::zero();
        }
        if diff < self.l.raw as i128 {
            return Fixed::zero();
        }
        Fixed { raw: SCALE }
    }
}

/// Linear preference that reaches full preference at `m`.
#[derive(Clone, Copy, Debug)]
pub struct LinearFunction {
    pub m: Fixed,
}

impl LinearFunction {
    /// Preference of `arg1` over `arg2`.
    pub fn compare(&self, arg1: Fixed, arg2: Fixed) -> (r: Fixed)
        ensures
            r@ == linear_pref(self.m@, arg1@ - arg2@),
            arg1@ <= arg2@ ==> r@ == 0,
            0 < arg1@ - arg2@ < self.m@ ==> r@ * self.m@ <= (arg1@ - arg2@) * SCALE < (r@ + 1)
                * self.m@,
            arg1@ > arg2@ && arg1@ - arg2@ >= self.m@ ==> r@ == SCALE,
    {
        proof {
            law_linear_preference(self.m@, arg1@ - arg2@);
        }
        let diff = difference(arg1, arg2);
        if diff <= 0 {
            return Fixed::zero();
        }
        let p = self.m.raw as i128;
        if diff < p {
            proof {
                lemma_scaled_ratio(diff as int, p as int);
            }
            let q = (diff * (SCALE as i128)) / p;
            return Fixed { raw: q as i64 };
        }
        Fixed { raw: SCALE }
    }
}

/// Level criterion: no preference up to the weak threshold, half preference
/// over the weak area, full preference beyond.
#[derive(Clone, Copy, Debug)]
pub struct LevelFunction {
    pub weak_treshold: Fixed,
    pub weak_area: Fixed,
}

impl LevelFunction {
    /// Preference of `arg1` over `arg2`.
    pub fn compare(&self, arg1: Fixed, arg2: Fixed) -> (r: Fixed)
        ensures
            r@ == level_pref(self.weak_treshold@, self.weak_area@, arg1@ - arg2@),
            arg1@ - arg2@ <= self.weak_treshold@ ==> r@ == 0,
            arg1@ > arg2@ && self.weak_treshold@ < arg1@ - arg2@ <= self.weak_treshold@
                + self.weak_area@ ==> r@ == 500_000_000_000,
            arg1@ > arg2@ && arg1@ - arg2@ > self.weak_treshold@ && arg1@ - arg2@
                > self.weak_treshold@ + self.weak_area@ ==> r@ == SCALE,
    {
        proof {
            law_level_preference(self.weak_treshold@, self.weak_area@, arg1@ - arg2@);
        }
        let diff = difference(arg1, arg2);
        if diff <= 0 {
            return Fixed::zero();
        }
        let q = self.weak_treshold.raw as i128;
        if diff <= q {
            return Fixed::zero();
        }
        if diff <= q + (self.weak_area.raw as i128) {
            return Fixed { raw: SCALE / 2 };
        }
        Fixed { raw: SCALE }
    }
}

/// Linear preference over an area that starts at an indifference threshold.
#[derive(Clone, Copy, Debug)]
pub struct LinearWithIndeferenceFunction {
    pub indiference_threshold: Fixed,
    pub linear_area: Fixed,
}

impl LinearWithIndeferenceFunction {
    /// Preference of `arg1` over `arg2`.
    pub fn compare(&self, arg1: Fixed, arg2: Fixed) -> (r: Fixed)
        ensures
            r@ == linear_indifference_pref(
                self.indiference_threshold@,
                self.linear_area@,
                arg1@ - arg2@,
            ),
            arg1@ - arg2@ <= self.indiference_threshold@ ==> r@ == 0,
            arg1@ > arg2@ && self.indiference_threshold@ < arg1@ - arg2@ <= self.indiference_threshold@
                + self.linear_area@ ==> r@ * self.linear_area@ <= (arg1@ - arg2@
                - self.indiference_threshold@) * SCALE < (r@ + 1) * self.linear_area@,
            arg1@ > arg2@ && arg1@ - arg2@ > self.indiference_threshold@ && arg1@ - arg2@
                > self.indiference_threshold@ + self.linear_area@ ==> r@ == SCALE,
    {
        proof {
            law_linear_indifference_preference(
                self.indiference_threshold@,
                self.linear_area@,
                arg1@ - arg2@,
            );
        }
        let diff = difference(arg1, arg2);
        if diff <= 0 {
            return Fixed::zero();
        }
        let q = self.indiference_threshold.raw as i128;
        if diff <= q {
            return Fixed::zero();
        }
        let s = self.linear_area.raw as i128;
        if diff <= q + s {
            proof {
                lemma_scaled_ratio(diff - q, s as int);
            }
            let r = ((diff - q) * (SCALE as i128)) / s;
            return Fixed { raw: r as i64 };
        }
        Fixed { raw: SCALE }
    }
}

/// The preference functions a criterion can use.
#[derive(Clone, Copy, Debug)]
pub enum PreferenceFunction {
    Usual(UsualFunction),
    Quasi(QuasiFunction),
    Linear(LinearFunction),
    Level(LevelFunction),
    LinearWithIndeference(LinearWithIndeferenceFunction),
}

impl PreferenceFunction {
    /// Preference, in raw units, for a difference `d` of evaluations.
    pub open spec fn preference(self, d: int) -> int {
        match self {
            PreferenceFunction::Usual(_) => usual_pref(d),
            PreferenceFunction::Quasi(f) => quasi_pref(f.l@, d),
            PreferenceFunction::Linear(f) => linear_pref(f.m@, d),
            PreferenceFunction::Level(f) => level_pref(f.weak_treshold@, f.weak_area@, d),
            PreferenceFunction::LinearWithIndeference(f) => linear_indifference_pref(
                f.indiference_threshold@,
                f.linear_area@,
                d,
            ),
        }
    }

    /// Preference of `arg1` over `arg2`.
    pub fn compare(&self, arg1: Fixed, arg2: Fixed) -> (r: Fixed)
        ensures
            r@ == self.preference(arg1@ - arg2@),
    {
        match self {
            PreferenceFunction::Usual(f) => f.compare(arg1, arg2),
            PreferenceFunction::Quasi(f) => f.compare(arg1, arg2),
            PreferenceFunction::Linear(f) => f.compare(arg1, arg2),
            PreferenceFunction::Level(f) => f.compare(arg1, arg2),
            PreferenceFunction::LinearWithIndeference(f) => f.compare(arg1, arg2),
        }
    }
}

/// Every preference lies between none (`0`) and full (`SCALE`).
pub proof fn lemma_preference_bounded(f: PreferenceFunction, d: int)
    ensures
        0 <= f.preference(d) <= SCALE,
{
    match f {
        PreferenceFunction::Linear(g) => {
            if 0 < d < g.m@ {
                lemma_scaled_ratio(d, g.m@);
            }
        },
        PreferenceFunction::LinearWithIndeference(g) => {
            let q = g.indiference_threshold@;
            let s = g.linear_area@;
            if 0 < d && q < d <= q + s {
                lemma_scaled_ratio(d - q, s);
            }
        },
        _ => {},
    }
}

/// There is no preference for an action that is not better: in particular
/// none of an action over itself, and of two actions at most one is
/// preferred to the other.
pub proof fn lemma_no_preference_unless_better(f: PreferenceFunction, d: int)
    requires
        d <= 0,
    ensures
        f.preference(d) == 0,
{
}

/// Preference never decreases as the difference grows.
pub proof fn lemma_preference_monotone(f: PreferenceFunction, d1: int, d2: int)
    requires
        d1 <= d2,
    ensures
        f.preference(d1) <= f.preference(d2),
{
    let s = SCALE as int;
    lemma_preference_bounded(f, d1);
    lemma_preference_bounded(f, d2);
    match f {
        PreferenceFunction::Linear(g) => {
            let m = g.m@;
            if 0 < d1 && d2 < m {
                assert(d1 * s / m <= d2 * s / m) by (nonlinear_arith)
                    requires 0 < d1 <= d2, m > 0, s > 0;
            }
        },
        PreferenceFunction::LinearWithIndeference(g) => {
            let q = g.indiference_threshold@;
            let w = g.linear_area@;
            if 0 < d1 && q < d1 && d2 <= q + w {
                assert((d1 - q) * s / w <= (d2 - q) * s / w) by (nonlinear_arith)
                    requires 0 < d1 - q <= d2 - q, w > 0, s > 0;
            }
        },
        _ => {},
    }
}

} // verus!
