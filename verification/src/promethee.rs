use vstd::prelude::*;

use crate::fixed::{fits_i64, fixed_div, fixed_mul, tdiv, Fixed, SCALE};
use crate::function::{lemma_preference_bounded, PreferenceFunction};

verus! {

/// Whether a criterion is to be maximised or minimised.
#[derive(Clone, Copy, Debug, PartialEq, Eq, Structural)]
pub enum Goal {
    Max,
    Min,
}

/// One criterion: the evaluation of every action, its weight, the preference
/// function that compares two evaluations and whether more is better.
#[derive(Clone, Debug)]
pub struct Criteria {
    pub actions: Vec<Fixed>,
    pub weight: Fixed,
    pub function: PreferenceFunction,
    pub goal: Goal,
}

/// Positive, negative and net outranking flow of every action.
#[derive(Clone, Debug)]
pub struct Flow {
    pub positive_flow: Vec<Fixed>,
    pub negative_flow: Vec<Fixed>,
    pub net_flow: Vec<Fixed>,
}

/// Largest magnitude, in raw units, that a flow may reach while it is summed.
pub open spec fn flow_limit() -> int {
    4_000_000_000_000_000_000
}

pub open spec fn abs(x: int) -> int {
    if x < 0 { -x } else { x }
}

/// The numbers of a sequence of `Fixed`, in raw units.
pub open spec fn values(v: Seq<Fixed>) -> Seq<int> {
    v.map_values(|x: Fixed| x@)
}

/// Sum of the weights of the first `kn` criteria.
pub open spec fn weight_sum(cs: Seq<Criteria>, kn: int) -> int
    decreases kn,
{
    if kn <= 0 { 0 } else { weight_sum(cs, kn - 1) + cs[kn - 1].weight@ }
}

/// Sum of all the weights.
pub open spec fn total_weight(cs: Seq<Criteria>) -> int {
    weight_sum(cs, cs.len() as int)
}

/// Largest number of actions among the first `kn` criteria.
pub open spec fn max_len(cs: Seq<Criteria>, kn: int) -> int
    decreases kn,
{
    if kn <= 0 {
        0
    } else {
        let rest = max_len(cs, kn - 1);
        let here = cs[kn - 1].actions.len() as int;
        if here > rest { here } else { rest }
    }
}

/// Number of actions that are ranked: the largest number any criterion has.
pub open spec fn action_count(cs: Seq<Criteria>) -> int {
    max_len(cs, cs.len() as int)
}

/// Weight of criterion `k` divided by the total weight.
pub open spec fn normalized_weight(cs: Seq<Criteria>, k: int) -> int {
    fixed_div(cs[k].weight@, total_weight(cs))
}

/// Preference of action `i` over action `j` under criterion `c`.
pub open spec fn action_preference(c: Criteria, i: int, j: int) -> int {
    c.function.preference(c.actions@[i]@ - c.actions@[j]@)
}

/// What comparing action `i` with action `j` adds to the positive flow of
/// `i`, with weight `w`: how much `i` is preferred to `j`, in the direction of
/// the goal.
pub open spec fn positive_term(c: Criteria, w: int, i: int, j: int) -> int {
    match c.goal {
        Goal::Max => fixed_mul(w, action_preference(c, i, j)),
        Goal::Min => fixed_mul(w, action_preference(c, j, i)),
    }
}

/// What comparing action `i` with action `j` adds to the negative flow of `i`.
pub open spec fn negative_term(c: Criteria, w: int, i: int, j: int) -> int {
    match c.goal {
        Goal::Max => fixed_mul(w, action_preference(c, j, i)),
        Goal::Min => fixed_mul(w, action_preference(c, i, j)),
    }
}

/// Positive flow that criterion `c` gives action `i` against the first `jn`
/// actions.
pub open spec fn criterion_positive(c: Criteria, w: int, i: int, jn: int) -> int
    decreases jn,
{
    if jn <= 0 { 0 } else { criterion_positive(c, w, i, jn - 1) + positive_term(c, w, i, jn - 1) }
}

/// Negative flow that criterion `c` gives action `i` against the first `jn`
/// actions.
pub open spec fn criterion_negative(c: Criteria, w: int, i: int, jn: int) -> int
    decreases jn,
{
    if jn <= 0 { 0 } else { criterion_negative(c, w, i, jn - 1) + negative_term(c, w, i, jn - 1) }
}

/// Number of actions whose flows one criterion updates: the actions that it
/// evaluates and that have both a positive and a negative flow.
pub open spec fn updated_count(c: Criteria, f: Flow) -> int {
    let l = c.actions.len() as int;
    let p = f.positive_flow.len() as int;
    let q = f.negative_flow.len() as int;
    if l <= p && l <= q { l } else if p <= q { p } else { q }
}

/// `after` is `before` with criterion `c`, weighted by `w`, added: each of the
/// first `updated_count` actions gains its positive and negative flow under `c`
/// against all the actions of `c`; every other entry, the net flows and the
/// lengths are unchanged.
pub open spec fn flow_step(c: Criteria, w: int, before: Flow, after: Flow) -> bool {
    let m = updated_count(c, before);
    let l = c.actions.len() as int;
    &&& after.net_flow@ == before.net_flow@
    &&& after.positive_flow.len() == before.positive_flow.len()
    &&& after.negative_flow.len() == before.negative_flow.len()
    &&& forall|i: int|
        0 <= i < before.positive_flow.len() ==> #[trigger] after.positive_flow@[i]@
            == before.positive_flow@[i]@ + if i < m { criterion_positive(c, w, i, l) } else { 0 }
    &&& forall|i: int|
        0 <= i < before.negative_flow.len() ==> #[trigger] after.negative_flow@[i]@
            == before.negative_flow@[i]@ + if i < m { criterion_negative(c, w, i, l) } else { 0 }
}

/// Positive flow of action `i` from the first `kn` criteria, each weighted by
/// its normalized weight; a criterion with fewer actions adds nothing to the
/// actions it lacks.
pub open spec fn raw_positive(cs: Seq<Criteria>, kn: int, i: int) -> int
    decreases kn,
{
    if kn <= 0 {
        0
    } else {
        let c = cs[kn - 1];
        raw_positive(cs, kn - 1, i) + if i < c.actions.len() {
            criterion_positive(c, normalized_weight(cs, kn - 1), i, c.actions.len() as int)
        } else {
            0
        }
    }
}

/// Negative flow of action `i` from the first `kn` criteria.
pub open spec fn raw_negative(cs: Seq<Criteria>, kn: int, i: int) -> int
    decreases kn,
{
    if kn <= 0 {
        0
    } else {
        let c = cs[kn - 1];
        raw_negative(cs, kn - 1, i) + if i < c.actions.len() {
            criterion_negative(c, normalized_weight(cs, kn - 1), i, c.actions.len() as int)
        } else {
            0
        }
    }
}

/// A summed flow, divided by the number of other actions when asked to.
pub open spec fn scaled_flow(divide: bool, cs: Seq<Criteria>, raw: int) -> int {
    if divide {
        fixed_div(raw, (action_count(cs) - 1) * SCALE)
    } else {
        raw
    }
}

/// Positive flow of action `i` over all criteria.
pub open spec fn positive_flow(divide: bool, cs: Seq<Criteria>, i: int) -> int {
    scaled_flow(divide, cs, raw_positive(cs, cs.len() as int, i))
}

/// Negative flow of action `i` over all criteria.
pub open spec fn negative_flow(divide: bool, cs: Seq<Criteria>, i: int) -> int {
    scaled_flow(divide, cs, raw_negative(cs, cs.len() as int, i))
}

/// Bound on every flow summed over the first `kn` criteria: each criterion
/// contributes one more than its number of actions times the magnitude of its
/// normalized weight.
pub open spec fn weight_mass(cs: Seq<Criteria>, kn: int) -> int
    decreases kn,
{
    if kn <= 0 {
        0
    } else {
        weight_mass(cs, kn - 1) + (cs[kn - 1].actions.len() + 1) * abs(normalized_weight(cs, kn - 1))
    }
}

/// Inputs that the ranking handles: at least one criterion, a total weight
/// that can divide, at least one action (two when flows are divided by the
/// number of other actions, which must be a `Fixed`), and flows whose
/// magnitude stays within `flow_limit`.
pub open spec fn rankable(divide: bool, cs: Seq<Criteria>) -> bool {
    &&& 1 <= cs.len() <= u32::MAX
    &&& total_weight(cs) != 0
    &&& action_count(cs) >= 1
    &&& divide ==> action_count(cs) >= 2 && fits_i64((action_count(cs) - 1) * SCALE)
    &&& weight_mass(cs, cs.len() as int) <= flow_limit()
}

/// What a ranking of `cs` returns: the positive and negative flow of every
/// action, its net flow (positive minus negative), and the actions ranked by
/// net flow.
pub open spec fn ranking_result(divide: bool, cs: Seq<Criteria>, flow: Flow, order: Vec<usize>) -> bool {
    &&& flow.positive_flow.len() == action_count(cs)
    &&& flow.negative_flow.len() == action_count(cs)
    &&& flow.net_flow.len() == action_count(cs)
    &&& forall|i: int|
        0 <= i < action_count(cs) ==> #[trigger] flow.positive_flow@[i]@ == positive_flow(divide, cs, i)
    &&& forall|i: int|
        0 <= i < action_count(cs) ==> #[trigger] flow.negative_flow@[i]@ == negative_flow(divide, cs, i)
    &&& forall|i: int|
        0 <= i < action_count(cs) ==> #[trigger] flow.net_flow@[i]@ == flow.positive_flow@[i]@
            - flow.negative_flow@[i]@
    &&& is_ranking(values(flow.net_flow@), order@)
}

/// Action `a` comes before action `b`: its net flow is larger, or equal with a
/// smaller index.
pub open spec fn ranked_before(net: Seq<int>, a: int, b: int) -> bool {
    net[a] > net[b] || (net[a] == net[b] && a < b)
}

/// `r` lists every action once, best net flow first, ties in index order.
pub open spec fn is_ranking(net: Seq<int>, r: Seq<usize>) -> bool {
    &&& r.len() == net.len()
    &&& forall|p: int| 0 <= p < r.len() ==> #[trigger] r[p] < net.len()
    &&& forall|p: int, q: int| 0 <= p < q < r.len() ==> r[p] != r[q]
    &&& forall|p: int, q: int|
        0 <= p < q < r.len() ==> ranked_before(net, #[trigger] r[p] as int, #[trigger] r[q] as int)
}

// ---------------------------------------------------------------------------
// Bounds

/// `|w * p / SCALE| <= |w|` for a preference `p` between none and full.
pub proof fn lemma_weighted_preference_bound(w: int, p: int)
    requires
        0 <= p <= SCALE,
    ensures
        abs(fixed_mul(w, p)) <= abs(w),
{
    let s = SCALE as int;
    if w >= 0 {
        assert(w * p / s <= w) by (nonlinear_arith)
            requires w >= 0, 0 <= p <= s, s > 0;
        assert(w * p / s >= 0) by (nonlinear_arith)
            requires w >= 0, 0 <= p <= s, s > 0;
    } else {
        assert((-w) * p / s <= -w) by (nonlinear_arith)
            requires w < 0, 0 <= p <= s, s > 0;
        assert((-w) * p / s >= 0) by (nonlinear_arith)
            requires w < 0, 0 <= p <= s, s > 0;
        assert(-(w * p) == (-w) * p) by (nonlinear_arith);
    }
}

/// Each positive and negative term is bounded by the weight.
pub proof fn lemma_terms_bound(c: Criteria, w: int, i: int, j: int)
    ensures
        abs(positive_term(c, w, i, j)) <= abs(w),
        abs(negative_term(c, w, i, j)) <= abs(w),
{
    lemma_preference_bounded(c.function, c.actions@[i]@ - c.actions@[j]@);
    lemma_preference_bounded(c.function, c.actions@[j]@ - c.actions@[i]@);
    lemma_weighted_preference_bound(w, action_preference(c, i, j));
    lemma_weighted_preference_bound(w, action_preference(c, j, i));
}

/// A criterion's flow against `jn` actions is at most `jn` times the weight.
pub proof fn lemma_criterion_bound(c: Criteria, w: int, i: int, jn: int)
    requires
        jn >= 0,
    ensures
        abs(criterion_positive(c, w, i, jn)) <= jn * abs(w),
        abs(criterion_negative(c, w, i, jn)) <= jn * abs(w),
    decreases jn,
{
    if jn > 0 {
        lemma_criterion_bound(c, w, i, jn - 1);
        lemma_terms_bound(c, w, i, jn - 1);
        assert((jn - 1) * abs(w) + abs(w) == jn * abs(w)) by (nonlinear_arith);
    }
}

/// The mass grows with every criterion.
pub proof fn lemma_mass_monotone(cs: Seq<Criteria>, k1: int, k2: int)
    requires
        0 <= k1 <= k2,
    ensures
        0 <= weight_mass(cs, k1) <= weight_mass(cs, k2),
    decreases k2,
{
    if k2 > 0 {
        let m = cs[k2 - 1].actions.len() + 1;
        let a = abs(normalized_weight(cs, k2 - 1));
        assert(m * a >= 0) by (nonlinear_arith)
            requires m >= 1, a >= 0;
        if k1 < k2 {
            lemma_mass_monotone(cs, k1, k2 - 1);
        } else {
            lemma_mass_monotone(cs, 0, k2 - 1);
        }
    }
}

/// Flows summed over the first `kn` criteria stay within the mass.
pub proof fn lemma_raw_flow_bound(cs: Seq<Criteria>, kn: int, i: int)
    requires
        0 <= kn <= cs.len(),
    ensures
        abs(raw_positive(cs, kn, i)) <= weight_mass(cs, kn),
        abs(raw_negative(cs, kn, i)) <= weight_mass(cs, kn),
    decreases kn,
{
    if kn > 0 {
        lemma_raw_flow_bound(cs, kn - 1, i);
        let c = cs[kn - 1];
        let m = c.actions.len() as int;
        let w = normalized_weight(cs, kn - 1);
        lemma_criterion_bound(c, w, i, m);
        assert(m * abs(w) <= (m + 1) * abs(w)) by (nonlinear_arith)
            requires m >= 0;
    }
}

/// The weights of the first `kn` criteria sum to at most `kn` times the
/// largest `i64`.
pub proof fn lemma_weight_sum_bound(cs: Seq<Criteria>, kn: int)
    requires
        0 <= kn <= cs.len(),
    ensures
        abs(weight_sum(cs, kn)) <= kn * 0x8000_0000_0000_0000,
    decreases kn,
{
    if kn > 0 {
        lemma_weight_sum_bound(cs, kn - 1);
    }
}

/// `max_len` is the largest number of actions and is reached by some
/// criterion.
pub proof fn lemma_max_len(cs: Seq<Criteria>, kn: int)
    requires
        0 <= kn <= cs.len(),
    ensures
        forall|k: int| 0 <= k < kn ==> cs[k].actions.len() <= max_len(cs, kn),
        max_len(cs, kn) >= 0,
    decreases kn,
{
    if kn > 0 {
        lemma_max_len(cs, kn - 1);
    }
}

} // verus!
