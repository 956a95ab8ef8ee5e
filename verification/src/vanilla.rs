use itertools::Itertools;
use vstd::prelude::*;

use crate::fixed::{div_trunc, fixed_mul, lemma_div_whole_bound, Fixed, SCALE};
use crate::promethee::{
    abs, action_count, action_preference, criterion_negative, criterion_positive, flow_limit,
    is_ranking, lemma_criterion_bound, lemma_mass_monotone, lemma_max_len, lemma_raw_flow_bound,
    lemma_terms_bound, lemma_weight_sum_bound, max_len, negative_flow, negative_term,
    normalized_weight, positive_flow, positive_term, rankable, ranked_before, ranking_result,
    raw_negative, raw_positive, total_weight, updated_count, flow_step, values, weight_mass, weight_sum,
    Criteria, Flow, Goal,
};

verus! {

/// `itertools::Itertools::collect_vec` on the range `0..n`: the claim is that
/// it collects the indices `0, 1, ..., n - 1` in order, as the range yields
/// them.
#[verifier::external_body]
fn collect_indices(n: usize) -> (v: Vec<usize>)
    ensures
        v@ == Seq::new(n as nat, |i: int| i as usize),
{
    (0..n).collect_vec()
}

/// The actions `0 .. net.len()` ordered by decreasing net flow; actions with
/// equal net flow keep their index order, as a stable sort leaves them.
pub fn rank_order(net: &Vec<Fixed>) -> (r: Vec<usize>)
    ensures
        is_ranking(values(net@), r@),
{
    let ghost vals = values(net@);
    let n = net.len();
    let indices = collect_indices(n);
    let mut r: Vec<usize> = Vec::new();
    assert(vals.len() == n);
    for t in 0..n
        invariant
            n == net.len(),
            vals == values(net@),
            vals.len() == n,
            indices@ == Seq::new(n as nat, |i: int| i as usize),
            r.len() == t,
            forall|p: int| 0 <= p < r.len() ==> #[trigger] r@[p] < t,
            forall|p: int, q: int| 0 <= p < q < r.len() ==> r@[p] != r@[q],
            forall|p: int, q: int|
                0 <= p < q < r.len() ==> ranked_before(vals, #[trigger] r@[p] as int, #[trigger] r@[q] as int),
    {
        let idx = indices[t];
        assert(idx == t);
        let key = net[idx].raw;
        assert(vals[t as int] == key);
        let mut pos: usize = 0;
        while pos < r.len() && net[r[pos]].raw >= key
            invariant
                n == net.len(),
                vals == values(net@),
                vals.len() == n,
                r.len() == t,
                t < n,
                forall|p: int| 0 <= p < r.len() ==> #[trigger] r@[p] < t,
                pos <= r.len(),
                forall|p: int| 0 <= p < pos ==> vals[#[trigger] r@[p] as int] >= key,
            decreases r.len() - pos,
        {
            assert(vals[r@[pos as int] as int] == net@[r@[pos as int] as int]@);
            pos += 1;
        }
        proof {
            if pos < r.len() {
                assert(vals[r@[pos as int] as int] == net@[r@[pos as int] as int]@);
                assert(vals[r@[pos as int] as int] < key);
            }
        }
        let ghost old_r = r@;
        r.insert(pos, idx);
        proof {
            old_r.insert_ensures(pos as int, idx);
            assert(r@ == old_r.insert(pos as int, idx));
            assert forall|p: int| 0 <= p < r.len() implies #[trigger] r@[p] < t + 1 by {
                if p < pos {
                } else if p > pos {
                    assert(r@[p] == old_r[p - 1]);
                }
            }
            assert forall|p: int, q: int| 0 <= p < q < r.len() implies r@[p] != r@[q] by {
                if q < pos {
                } else if q == pos {
                    assert(old_r[p] < t);
                } else if p < pos {
                    assert(r@[q] == old_r[q - 1]);
                } else if p == pos {
                    assert(r@[q] == old_r[q - 1]);
                    assert(old_r[q - 1] < t);
                } else {
                    assert(r@[q] == old_r[q - 1]);
                    assert(r@[p] == old_r[p - 1]);
                }
            }
            assert forall|p: int, q: int| 0 <= p < q < r.len() implies ranked_before(
                vals,
                #[trigger] r@[p] as int,
                #[trigger] r@[q] as int,
            ) by {
                if q < pos {
                } else if q == pos {
                    assert(vals[old_r[p] as int] >= key);
                    assert(old_r[p] < t);
                } else if p < pos {
                    assert(r@[q] == old_r[q - 1]);
                } else if p == pos {
                    assert(r@[q] == old_r[q - 1]);
                    if q - 1 > pos {
                        assert(ranked_before(vals, old_r[pos as int] as int, old_r[q - 1] as int));
                    }
                } else {
                    assert(r@[q] == old_r[q - 1]);
                    assert(r@[p] == old_r[p - 1]);
                }
            }
        }
    }
    r
}

/// The sum of all the weights, in raw units.
fn sum_of_weights(criterias: &Vec<Criteria>) -> (total: i128)
    requires
        criterias.len() <= u32::MAX,
    ensures
        total == total_weight(criterias@),
        -0x8000_0000_0000_0000_0000_0000 <= total <= 0x8000_0000_0000_0000_0000_0000,
{
    let ghost cs = criterias@;
    let nc = criterias.len();
    let mut total: i128 = 0;
    for k in 0..nc
        invariant
            cs == criterias@,
            nc == cs.len(),
            nc <= u32::MAX,
            total == weight_sum(cs, k as int),
    {
        proof {
            lemma_weight_sum_bound(cs, k as int);
        }
        total = total + criterias[k].weight.raw as i128;
    }
    proof {
        lemma_weight_sum_bound(cs, nc as int);
    }
    total
}

/// The largest number of actions of any criterion.
fn most_actions(criterias: &Vec<Criteria>) -> (n: usize)
    ensures
        n == action_count(criterias@),
{
    let ghost cs = criterias@;
    let nc = criterias.len();
    let mut n: usize = 0;
    for k in 0..nc
        invariant
            cs == criterias@,
            nc == cs.len(),
            n == max_len(cs, k as int),
    {
        let len = criterias[k].actions.len();
        if len > n {
            n = len;
        }
    }
    n
}

/// The PROMETHEE II ranking that compares every pair of actions under every
/// criterion.
pub struct Vanilla {
    pub divide_by_alternatives: bool,
}

impl Vanilla {
    /// A ranker that divides the flows by the number of other actions when
    /// `divide_by_alternatives` holds.
    pub fn new(divide_by_alternatives: bool) -> (v: Self)
        ensures
            v.divide_by_alternatives == divide_by_alternatives,
    {
        Self { divide_by_alternatives }
    }

    /// Adds to `flow` what `criteria`, with the normalized weight `weight`,
    /// gives every action: against every other action of the criterion, the
    /// weighted preference for it to the positive flow and the weighted
    /// preference against it to the negative flow.
    fn flow(&self, criteria: &Criteria, weight: Fixed, flow: Flow) -> (r: Flow)
        requires
            forall|i: int|
                0 <= i < updated_count(*criteria, flow) ==> abs(#[trigger] flow.positive_flow@[i]@)
                    + criteria.actions.len() * abs(weight@) <= flow_limit(),
            forall|i: int|
                0 <= i < updated_count(*criteria, flow) ==> abs(#[trigger] flow.negative_flow@[i]@)
                    + criteria.actions.len() * abs(weight@) <= flow_limit(),
        ensures
            flow_step(*criteria, weight@, flow, r),
    {
        let ghost c = *criteria;
        let ghost f0 = flow;
        let ghost p0 = flow.positive_flow@;
        let ghost n0 = flow.negative_flow@;
        let ghost net0 = flow.net_flow@;
        let mut flow = flow;
        let l = criteria.actions.len();
        let mut m = l;
        if flow.positive_flow.len() < m {
            m = flow.positive_flow.len();
        }
        if flow.negative_flow.len() < m {
            m = flow.negative_flow.len();
        }
        assert(m == updated_count(c, f0));
        for i in 0..m
            invariant
                c == *criteria,
                l == criteria.actions.len(),
                m <= l,
                m <= p0.len(),
                m <= n0.len(),
                flow.positive_flow.len() == p0.len(),
                flow.negative_flow.len() == n0.len(),
                forall|i2: int|
                    0 <= i2 < m ==> abs(#[trigger] p0[i2]@) + l * abs(weight@) <= flow_limit(),
                forall|i2: int|
                    0 <= i2 < m ==> abs(#[trigger] n0[i2]@) + l * abs(weight@) <= flow_limit(),
                forall|i2: int|
                    0 <= i2 < i ==> #[trigger] flow.positive_flow@[i2]@ == p0[i2]@
                        + criterion_positive(c, weight@, i2, l as int),
                forall|i2: int|
                    0 <= i2 < i ==> #[trigger] flow.negative_flow@[i2]@ == n0[i2]@
                        + criterion_negative(c, weight@, i2, l as int),
                forall|i2: int| i <= i2 < p0.len() ==> #[trigger] flow.positive_flow@[i2] == p0[i2],
                forall|i2: int| i <= i2 < n0.len() ==> #[trigger] flow.negative_flow@[i2] == n0[i2],
                flow.net_flow@ == net0,
        {
            for j in 0..l
                invariant
                    c == *criteria,
                    l == criteria.actions.len(),
                    0 <= i < m,
                    m <= l,
                    m <= p0.len(),
                    m <= n0.len(),
                    flow.positive_flow.len() == p0.len(),
                    flow.negative_flow.len() == n0.len(),
                    abs(p0[i as int]@) + l * abs(weight@) <= flow_limit(),
                    abs(n0[i as int]@) + l * abs(weight@) <= flow_limit(),
                    forall|i2: int|
                        0 <= i2 < i ==> #[trigger] flow.positive_flow@[i2]@ == p0[i2]@
                            + criterion_positive(c, weight@, i2, l as int),
                    forall|i2: int|
                        0 <= i2 < i ==> #[trigger] flow.negative_flow@[i2]@ == n0[i2]@
                            + criterion_negative(c, weight@, i2, l as int),
                    flow.positive_flow@[i as int]@ == p0[i as int]@ + criterion_positive(
                        c,
                        weight@,
                        i as int,
                        j as int,
                    ),
                    flow.negative_flow@[i as int]@ == n0[i as int]@ + criterion_negative(
                        c,
                        weight@,
                        i as int,
                        j as int,
                    ),
                    forall|i2: int|
                        i < i2 < p0.len() ==> #[trigger] flow.positive_flow@[i2] == p0[i2],
                    forall|i2: int|
                        i < i2 < n0.len() ==> #[trigger] flow.negative_flow@[i2] == n0[i2],
                    flow.net_flow@ == net0,
            {
                let a = criteria.actions[i];
                let b = criteria.actions[j];
                let forward = criteria.function.compare(a, b);
                let backward = criteria.function.compare(b, a);
                let (positive, negative) = if criteria.goal == Goal::Min {
                    (backward, forward)
                } else {
                    (forward, backward)
                };
                proof {
                    assert(forward@ == action_preference(c, i as int, j as int));
                    assert(backward@ == action_preference(c, j as int, i as int));
                    assert(fixed_mul(weight@, positive@) == positive_term(c, weight@, i as int, j as int));
                    assert(fixed_mul(weight@, negative@) == negative_term(c, weight@, i as int, j as int));
                    lemma_terms_bound(c, weight@, i as int, j as int);
                    lemma_criterion_bound(c, weight@, i as int, j + 1);
                    assert((j + 1) * abs(weight@) <= l * abs(weight@)) by (nonlinear_arith)
                        requires j + 1 <= l;
                    assert(abs(weight@) <= l * abs(weight@)) by (nonlinear_arith)
                        requires 1 <= l;
                }
                let p = flow.positive_flow[i].add(weight.mul(positive));
                let q = flow.negative_flow[i].add(weight.mul(negative));
                flow.positive_flow[i] = p;
                flow.negative_flow[i] = q;
            }
        }
        flow
    }

    /// Whether `rank` can rank `criterias`: see `rankable`.
    pub fn can_rank(&self, criterias: &Vec<Criteria>) -> (b: bool)
        ensures
            b == rankable(self.divide_by_alternatives, criterias@),
    {
        let ghost cs = criterias@;
        let divide = self.divide_by_alternatives;
        let nc = criterias.len();
        if nc == 0 || nc > 0xffff_ffff {
            return false;
        }
        let total = sum_of_weights(criterias);
        if total == 0 {
            return false;
        }
        let n = most_actions(criterias);
        if n == 0 {
            return false;
        }
        if divide {
            if n < 2 {
                return false;
            }
            let limit: usize = 9_223_372;
            proof {
                assert(i64::MAX == 9_223_372 * SCALE + 36_854_775_807);
                assert(((n - 1) * SCALE <= i64::MAX) == (n - 1 <= 9_223_372)) by (nonlinear_arith)
                    requires n >= 2, SCALE == 1_000_000_000_000i64, i64::MAX == 9_223_372 * SCALE + 36_854_775_807;
            }
            if n - 1 > limit {
                return false;
            }
        }
        proof {
            lemma_weight_sum_bound(cs, nc as int);
        }
        let mut mass: i128 = 0;
        for k in 0..nc
            invariant
                cs == criterias@,
                nc == cs.len(),
                nc <= u32::MAX,
                total == total_weight(cs),
                total != 0,
                -0x8000_0000_0000_0000_0000_0000 <= total <= 0x8000_0000_0000_0000_0000_0000,
                mass == weight_mass(cs, k as int),
                mass <= flow_limit(),
        {
            let criteria = &criterias[k];
            proof {
                assert(-0x8000_0000_0000_0000_0000_0000_0000 <= criteria.weight.raw as i128 * SCALE
                    <= 0x8000_0000_0000_0000_0000_0000_0000) by (nonlinear_arith)
                    requires i64::MIN <= criteria.weight.raw <= i64::MAX, SCALE == 1_000_000_000_000i64;
            }
            let wide: i128 = (criteria.weight.raw as i128) * (SCALE as i128);
            let nw = div_trunc(wide, total);
            let magnitude: i128 = if nw < 0 { -nw } else { nw };
            let ghost m = criteria.actions.len() as int;
            proof {
                assert(magnitude == abs(normalized_weight(cs, k as int)));
                assert(magnitude <= (m + 1) * magnitude) by (nonlinear_arith)
                    requires m >= 0, magnitude >= 0;
                lemma_mass_monotone(cs, k + 1, nc as int);
                lemma_mass_monotone(cs, 0, k as int);
            }
            if magnitude > 4_000_000_000_000_000_000 {
                return false;
            }
            proof {
                assert((m + 1) * magnitude <= 0x1_0000_0000_0000_0000 * 4_000_000_000_000_000_000) by (nonlinear_arith)
                    requires 0 <= m <= 0xffff_ffff_ffff_ffff, 0 <= magnitude <= 4_000_000_000_000_000_000;
            }
            let count: i128 = criteria.actions.len() as i128 + 1;
            mass = mass + count * magnitude;
            if mass > 4_000_000_000_000_000_000 {
                return false;
            }
        }
        true
    }

    /// Ranks `criterias` where `rank` can, and gives `None` where it cannot.
    pub fn try_rank(self, criterias: Vec<Criteria>) -> (res: Option<(Flow, Vec<usize>)>)
        ensures
            res is Some <==> rankable(self.divide_by_alternatives, criterias@),
            res matches Some(r) ==> ranking_result(self.divide_by_alternatives, criterias@, r.0, r.1),
    {
        if self.can_rank(&criterias) {
            Some(self.rank(criterias))
        } else {
            None
        }
    }

    /// Ranks the actions under all criteria.
    ///
    /// The weights are divided by their total; every criterion adds, to each
    /// of its actions, the weighted preference for it over every other of its
    /// actions to its positive flow and the weighted preference against it to
    /// its negative flow (the other way round for a criterion to minimise).
    /// With `divide_by_alternatives` both flows are then divided by the number
    /// of other actions. The net flow is positive minus negative flow, and the
    /// ranking lists the actions best net flow first.
    pub fn rank(self, criterias: Vec<Criteria>) -> (res: (Flow, Vec<usize>))
        requires
            rankable(self.divide_by_alternatives, criterias@),
        ensures
            ranking_result(self.divide_by_alternatives, criterias@, res.0, res.1),
    {
        let ghost cs = criterias@;
        let divide = self.divide_by_alternatives;
        let nc = criterias.len();

        // Used to normalize the criteria weights.
        let total = sum_of_weights(&criterias);

        let n = most_actions(&criterias);

        let mut zeros_pos: Vec<Fixed> = Vec::new();
        let mut zeros_neg: Vec<Fixed> = Vec::new();
        let mut zeros_net: Vec<Fixed> = Vec::new();
        for i in 0..n
            invariant
                zeros_pos.len() == i,
                zeros_neg.len() == i,
                zeros_net.len() == i,
                forall|p: int| 0 <= p < i ==> #[trigger] zeros_pos@[p]@ == 0,
                forall|p: int| 0 <= p < i ==> #[trigger] zeros_neg@[p]@ == 0,
        {
            zeros_pos.push(Fixed::zero());
            zeros_neg.push(Fixed::zero());
            zeros_net.push(Fixed::zero());
        }
        let mut flow = Flow { positive_flow: zeros_pos, negative_flow: zeros_neg, net_flow: zeros_net };

        proof {
            lemma_weight_sum_bound(cs, nc as int);
            lemma_max_len(cs, nc as int);
        }
        for k in 0..nc
            invariant
                cs == criterias@,
                nc == cs.len(),
                rankable(divide, cs),
                total == total_weight(cs),
                -0x8000_0000_0000_0000_0000_0000 <= total <= 0x8000_0000_0000_0000_0000_0000,
                n == action_count(cs),
                forall|k2: int| 0 <= k2 < nc ==> cs[k2].actions.len() <= n,
                flow.positive_flow.len() == n,
                flow.negative_flow.len() == n,
                flow.net_flow.len() == n,
                forall|i: int| 0 <= i < n ==> #[trigger] flow.positive_flow@[i]@ == raw_positive(cs, k as int, i),
                forall|i: int| 0 <= i < n ==> #[trigger] flow.negative_flow@[i]@ == raw_negative(cs, k as int, i),
        {
            let criteria = &criterias[k];
            let ghost m = criteria.actions.len() as int;
            let ghost w = normalized_weight(cs, k as int);
            proof {
                lemma_mass_monotone(cs, k + 1, nc as int);
                lemma_mass_monotone(cs, 0, k as int);
                assert(abs(w) <= (m + 1) * abs(w)) by (nonlinear_arith)
                    requires m >= 0;
                assert(m * abs(w) <= (m + 1) * abs(w)) by (nonlinear_arith)
                    requires m >= 0;
                assert forall|i: int| 0 <= i < m implies abs(#[trigger] flow.positive_flow@[i]@) + m * abs(w)
                    <= flow_limit() by {
                    lemma_raw_flow_bound(cs, k as int, i);
                }
                assert forall|i: int| 0 <= i < m implies abs(#[trigger] flow.negative_flow@[i]@) + m * abs(w)
                    <= flow_limit() by {
                    lemma_raw_flow_bound(cs, k as int, i);
                }
                assert(-0x8000_0000_0000_0000_0000_0000_0000 <= criteria.weight.raw as i128 * SCALE
                    <= 0x8000_0000_0000_0000_0000_0000_0000) by (nonlinear_arith)
                    requires i64::MIN <= criteria.weight.raw <= i64::MAX, SCALE == 1_000_000_000_000i64;
            }
            let wide: i128 = (criteria.weight.raw as i128) * (SCALE as i128);
            let nw = div_trunc(wide, total);
            assert(nw == w);
            let weight = Fixed { raw: nw as i64 };
            let ghost before = flow;
            assert(updated_count(*criteria, flow) == m);
            flow = self.flow(criteria, weight, flow);
            proof {
                assert forall|i: int| 0 <= i < n implies #[trigger] flow.positive_flow@[i]@ == raw_positive(
                    cs,
                    k + 1,
                    i,
                ) && flow.negative_flow@[i]@ == raw_negative(cs, k + 1, i) by {
                    assert(before.positive_flow@[i]@ == raw_positive(cs, k as int, i));
                    assert(before.negative_flow@[i]@ == raw_negative(cs, k as int, i));
                }
            }
        }

        let den = if divide {
            Fixed::from_int((n - 1) as i64)
        } else {
            Fixed::zero()
        };
        for i in 0..n
            invariant
                cs == criterias@,
                nc == cs.len(),
                rankable(divide, cs),
                n == action_count(cs),
                divide ==> den@ == (n - 1) * SCALE,
                flow.positive_flow.len() == n,
                flow.negative_flow.len() == n,
                flow.net_flow.len() == n,
                forall|i2: int| 0 <= i2 < i ==> #[trigger] flow.positive_flow@[i2]@ == positive_flow(divide, cs, i2),
                forall|i2: int| 0 <= i2 < i ==> #[trigger] flow.negative_flow@[i2]@ == negative_flow(divide, cs, i2),
                forall|i2: int|
                    0 <= i2 < i ==> #[trigger] flow.net_flow@[i2]@ == flow.positive_flow@[i2]@
                        - flow.negative_flow@[i2]@,
                forall|i2: int| i <= i2 < n ==> #[trigger] flow.positive_flow@[i2]@ == raw_positive(cs, nc as int, i2),
                forall|i2: int| i <= i2 < n ==> #[trigger] flow.negative_flow@[i2]@ == raw_negative(cs, nc as int, i2),
        {
            proof {
                lemma_raw_flow_bound(cs, nc as int, i as int);
            }
            let mut p = flow.positive_flow[i];
            let mut q = flow.negative_flow[i];
            if divide {
                proof {
                    lemma_div_whole_bound(p@, n - 1);
                    lemma_div_whole_bound(q@, n - 1);
                }
                p = p.div(den);
                q = q.div(den);
            }
            flow.positive_flow[i] = p;
            flow.negative_flow[i] = q;
            flow.net_flow[i] = p.sub(q);
        }

        let order = rank_order(&flow.net_flow);
        (flow, order)
    }
}

} // verus!
