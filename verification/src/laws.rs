use vstd::prelude::*;

use vstd::arithmetic::div_mod::{lemma_div_by_multiple, lemma_div_denominator};
use vstd::set_lib::{lemma_int_range, lemma_subset_equality, set_int_range};

use crate::fixed::{fixed_div, fixed_mul, tdiv, SCALE};
use crate::function::{lemma_no_preference_unless_better, lemma_preference_bounded};
use crate::promethee::{
    action_count, action_preference, criterion_negative, criterion_positive, is_ranking,
    lemma_max_len, max_len, negative_flow, negative_term, normalized_weight, positive_flow,
    positive_term, ranked_before, ranking_result, raw_negative, raw_positive, total_weight, values,
    weight_sum, abs, flow_step, rankable, weight_mass, updated_count, Criteria, Flow, Goal,
};

verus! {

/// `f(0) + f(1) + ... + f(n - 1)`.
pub open spec fn sum_to(f: spec_fn(int) -> int, n: int) -> int
    decreases n,
{
    if n <= 0 { 0 } else { sum_to(f, n - 1) + f(n - 1) }
}

/// Sums of functions that agree below `n` agree.
pub proof fn lemma_sum_ext(f: spec_fn(int) -> int, g: spec_fn(int) -> int, n: int)
    requires
        forall|i: int| 0 <= i < n ==> #[trigger] f(i) == g(i),
    ensures
        sum_to(f, n) == sum_to(g, n),
    decreases n,
{
    if n > 0 {
        lemma_sum_ext(f, g, n - 1);
    }
}

/// The sum of a pointwise sum is the sum of the sums.
pub proof fn lemma_sum_add(f: spec_fn(int) -> int, g: spec_fn(int) -> int, h: spec_fn(int) -> int, n: int)
    requires
        forall|i: int| 0 <= i < n ==> #[trigger] h(i) == f(i) + g(i),
    ensures
        sum_to(h, n) == sum_to(f, n) + sum_to(g, n),
    decreases n,
{
    if n > 0 {
        lemma_sum_add(f, g, h, n - 1);
    }
}

/// The sum of a pointwise difference is the difference of the sums.
pub proof fn lemma_sum_sub(f: spec_fn(int) -> int, g: spec_fn(int) -> int, h: spec_fn(int) -> int, n: int)
    requires
        forall|i: int| 0 <= i < n ==> #[trigger] h(i) == f(i) - g(i),
    ensures
        sum_to(h, n) == sum_to(f, n) - sum_to(g, n),
    decreases n,
{
    if n > 0 {
        lemma_sum_sub(f, g, h, n - 1);
    }
}

/// A function that vanishes below `n` sums to zero.
pub proof fn lemma_sum_zero(f: spec_fn(int) -> int, n: int)
    requires
        forall|i: int| 0 <= i < n ==> #[trigger] f(i) == 0,
    ensures
        sum_to(f, n) == 0,
    decreases n,
{
    if n > 0 {
        lemma_sum_zero(f, n - 1);
    }
}

/// A function that vanishes from `m` on sums below `n` as it does below `m`.
pub proof fn lemma_sum_prefix(f: spec_fn(int) -> int, g: spec_fn(int) -> int, m: int, n: int)
    requires
        0 <= m <= n,
        forall|i: int| 0 <= i < n ==> #[trigger] g(i) == if i < m { f(i) } else { 0 },
    ensures
        sum_to(g, n) == sum_to(f, m),
    decreases n,
{
    if n > m {
        lemma_sum_prefix(f, g, m, n - 1);
    } else {
        lemma_sum_ext(f, g, n);
    }
}

/// A finite double sum can be summed in either order.
pub proof fn lemma_double_sum_swap(g: spec_fn(int, int) -> int, a: int, b: int)
    requires
        a >= 0,
    ensures
        sum_to(|i: int| sum_to(|j: int| g(i, j), b), a) == sum_to(
            |j: int| sum_to(|i: int| g(i, j), a),
            b,
        ),
    decreases a,
{
    if a == 0 {
        lemma_sum_zero(|j: int| sum_to(|i: int| g(i, j), a), b);
    } else {
        lemma_double_sum_swap(g, a - 1, b);
        let rows = |j: int| sum_to(|i: int| g(i, j), a);
        let rows_before = |j: int| sum_to(|i: int| g(i, j), a - 1);
        let last = |j: int| g(a - 1, j);
        assert forall|j: int| 0 <= j < b implies #[trigger] rows(j) == rows_before(j) + last(j) by {
        }
        lemma_sum_add(rows_before, last, rows, b);
        lemma_sum_ext(|j: int| g(a - 1, j), last, b);
        let cols = |i: int| sum_to(|j: int| g(i, j), b);
        assert(sum_to(cols, a) == sum_to(cols, a - 1) + cols(a - 1));
        assert(cols(a - 1) == sum_to(last, b));
    }
}

/// The positive flow a criterion gives against `jn` actions is the sum of its
/// terms, and so is the negative flow.
pub proof fn lemma_criterion_sums(c: Criteria, w: int, i: int, jn: int)
    ensures
        criterion_positive(c, w, i, jn) == sum_to(|j: int| positive_term(c, w, i, j), jn),
        criterion_negative(c, w, i, jn) == sum_to(|j: int| negative_term(c, w, i, j), jn),
    decreases jn,
{
    if jn > 0 {
        lemma_criterion_sums(c, w, i, jn - 1);
    }
}

/// Under one criterion, the positive flows of its actions sum to the same as
/// their negative flows: what one action gains over another, the other loses.
pub proof fn lemma_criterion_balanced(c: Criteria, w: int, m: int)
    requires
        m >= 0,
    ensures
        sum_to(|i: int| criterion_positive(c, w, i, m), m) == sum_to(
            |i: int| criterion_negative(c, w, i, m),
            m,
        ),
{
    let pt = |i: int, j: int| positive_term(c, w, i, j);
    assert forall|i: int| 0 <= i < m implies #[trigger] criterion_positive(c, w, i, m) == sum_to(
        |j: int| pt(i, j),
        m,
    ) by {
        lemma_criterion_sums(c, w, i, m);
        lemma_sum_ext(|j: int| positive_term(c, w, i, j), |j: int| pt(i, j), m);
    }
    lemma_sum_ext(
        |i: int| criterion_positive(c, w, i, m),
        |i: int| sum_to(|j: int| pt(i, j), m),
        m,
    );
    assert forall|i: int| 0 <= i < m implies #[trigger] criterion_negative(c, w, i, m) == sum_to(
        |j: int| pt(j, i),
        m,
    ) by {
        lemma_criterion_sums(c, w, i, m);
        lemma_sum_ext(|j: int| negative_term(c, w, i, j), |j: int| pt(j, i), m);
    }
    lemma_sum_ext(
        |i: int| criterion_negative(c, w, i, m),
        |i: int| sum_to(|j: int| pt(j, i), m),
        m,
    );
    lemma_double_sum_swap(pt, m, m);
}

/// Over the first `kn` criteria, the positive flows of the first `n` actions
/// sum to the same as their negative flows, when no criterion has more than
/// `n` actions.
pub proof fn lemma_flows_balanced(cs: Seq<Criteria>, kn: int, n: int)
    requires
        0 <= kn <= cs.len(),
        forall|k: int| 0 <= k < kn ==> cs[k].actions.len() <= n,
    ensures
        sum_to(|i: int| raw_positive(cs, kn, i), n) == sum_to(|i: int| raw_negative(cs, kn, i), n),
    decreases kn,
{
    if kn == 0 {
        lemma_sum_zero(|i: int| raw_positive(cs, kn, i), n);
        lemma_sum_zero(|i: int| raw_negative(cs, kn, i), n);
    } else {
        lemma_flows_balanced(cs, kn - 1, n);
        let c = cs[kn - 1];
        let m = c.actions.len() as int;
        let w = crate::promethee::normalized_weight(cs, kn - 1);
        let pos_here = |i: int| if i < m { criterion_positive(c, w, i, m) } else { 0 };
        let neg_here = |i: int| if i < m { criterion_negative(c, w, i, m) } else { 0 };
        lemma_sum_add(|i: int| raw_positive(cs, kn - 1, i), pos_here, |i: int| raw_positive(cs, kn, i), n);
        lemma_sum_add(|i: int| raw_negative(cs, kn - 1, i), neg_here, |i: int| raw_negative(cs, kn, i), n);
        lemma_sum_prefix(|i: int| criterion_positive(c, w, i, m), pos_here, m, n);
        lemma_sum_prefix(|i: int| criterion_negative(c, w, i, m), neg_here, m, n);
        lemma_criterion_balanced(c, w, m);
    }
}

/// Net flows sum to zero: when the flows are not divided by the number of
/// other actions, the net flows of all actions that a ranking returns add up
/// to exactly zero.
pub proof fn law_net_flows_sum_to_zero(cs: Seq<Criteria>, flow: Flow, order: Vec<usize>)
    requires
        ranking_result(false, cs, flow, order),
    ensures
        sum_to(|i: int| flow.net_flow@[i]@, flow.net_flow.len() as int) == 0,
{
    let n = action_count(cs);
    lemma_max_len(cs, cs.len() as int);
    lemma_flows_balanced(cs, cs.len() as int, n);
    let pos = |i: int| raw_positive(cs, cs.len() as int, i);
    let neg = |i: int| raw_negative(cs, cs.len() as int, i);
    assert forall|i: int| 0 <= i < n implies #[trigger] flow.net_flow@[i]@ == pos(i) - neg(i) by {
        assert(flow.positive_flow@[i]@ == pos(i));
        assert(flow.negative_flow@[i]@ == neg(i));
    }
    lemma_sum_sub(pos, neg, |i: int| flow.net_flow@[i]@, n);
}


// ---------------------------------------------------------------------------
// The ranking is determined by the net flows

/// A sequence of distinct actions below `n`, of length `n`, lists every
/// action below `n`.
pub proof fn lemma_ranking_lists_all(net: Seq<int>, r: Seq<usize>, x: int)
    requires
        is_ranking(net, r),
        0 <= x < net.len(),
    ensures
        exists|p: int| 0 <= p < r.len() && r[p] == x,
{
    let n = net.len() as int;
    let s = r.map_values(|v: usize| v as int);
    assert(s.no_duplicates()) by {
        assert forall|p: int, q: int| 0 <= p < s.len() && 0 <= q < s.len() && p != q implies s[p]
            != s[q] by {
            if p < q {
                assert(r[p] != r[q]);
            } else {
                assert(r[q] != r[p]);
            }
        }
    }
    s.unique_seq_to_set();
    lemma_int_range(0, n);
    assert(s.to_set().subset_of(set_int_range(0, n))) by {
        assert forall|v: int| s.to_set().contains(v) implies set_int_range(0, n).contains(v) by {
            let p = choose|p: int| 0 <= p < s.len() && s[p] == v;
            assert(r[p] < n);
        }
    }
    lemma_subset_equality(s.to_set(), set_int_range(0, n));
    assert(set_int_range(0, n).contains(x));
    assert(s.to_set().contains(x));
    let p = choose|p: int| 0 <= p < s.len() && s[p] == x;
    assert(r[p] == x);
}

/// Two rankings of the same net flows agree up to position `p`.
proof fn lemma_rankings_agree_upto(net: Seq<int>, r1: Seq<usize>, r2: Seq<usize>, p: int)
    requires
        is_ranking(net, r1),
        is_ranking(net, r2),
        0 <= p < r1.len(),
    ensures
        forall|q: int| 0 <= q <= p ==> r1[q] == r2[q],
    decreases p,
{
    if p > 0 {
        lemma_rankings_agree_upto(net, r1, r2, p - 1);
    }
    let a = r1[p];
    let b = r2[p];
    if a != b {
        lemma_ranking_lists_all(net, r2, a as int);
        let qa = choose|q: int| 0 <= q < r2.len() && r2[q] == a;
        if qa < p {
            assert(r1[qa] == a);
        }
        assert(qa > p);
        assert(ranked_before(net, r2[p] as int, r2[qa] as int));
        lemma_ranking_lists_all(net, r1, b as int);
        let qb = choose|q: int| 0 <= q < r1.len() && r1[q] == b;
        if qb < p {
            assert(r2[qb] == b);
        }
        assert(qb > p);
        assert(ranked_before(net, r1[p] as int, r1[qb] as int));
    }
}

/// The ranking is determined by the net flows: any two rankings of the same
/// net flows are equal, so ties are always broken the same way (by index).
pub proof fn law_ranking_is_unique(net: Seq<int>, r1: Seq<usize>, r2: Seq<usize>)
    requires
        is_ranking(net, r1),
        is_ranking(net, r2),
    ensures
        r1 == r2,
{
    if r1.len() > 0 {
        lemma_rankings_agree_upto(net, r1, r2, r1.len() - 1);
    }
    assert(r1 =~= r2);
}

// ---------------------------------------------------------------------------
// Reversing every goal

/// `rs` is `cs` with the goal of every criterion reversed.
pub open spec fn reversed_goals(cs: Seq<Criteria>, rs: Seq<Criteria>) -> bool {
    &&& rs.len() == cs.len()
    &&& forall|k: int|
        0 <= k < cs.len() ==> {
            &&& (#[trigger] rs[k]).actions == cs[k].actions
            &&& rs[k].weight == cs[k].weight
            &&& rs[k].function == cs[k].function
            &&& rs[k].goal != cs[k].goal
        }
}

/// Criteria that agree in everything but goal have the same weight sums,
/// numbers of actions and preferences.
proof fn lemma_same_shape(cs: Seq<Criteria>, rs: Seq<Criteria>, kn: int)
    requires
        rs.len() == cs.len(),
        0 <= kn <= cs.len(),
        forall|k: int|
            0 <= k < cs.len() ==> (#[trigger] rs[k]).actions == cs[k].actions && rs[k].weight
                == cs[k].weight,
    ensures
        weight_sum(rs, kn) == weight_sum(cs, kn),
        max_len(rs, kn) == max_len(cs, kn),
    decreases kn,
{
    if kn > 0 {
        lemma_same_shape(cs, rs, kn - 1);
        assert(rs[kn - 1].actions == cs[kn - 1].actions);
    }
}

pub proof fn lemma_reversed_criterion(c: Criteria, r: Criteria, w: int, i: int, jn: int)
    requires
        r.actions == c.actions,
        r.function == c.function,
        r.goal != c.goal,
    ensures
        criterion_positive(r, w, i, jn) == criterion_negative(c, w, i, jn),
        criterion_negative(r, w, i, jn) == criterion_positive(c, w, i, jn),
    decreases jn,
{
    if jn > 0 {
        lemma_reversed_criterion(c, r, w, i, jn - 1);
        assert(action_preference(r, i, jn - 1) == action_preference(c, i, jn - 1));
        assert(action_preference(r, jn - 1, i) == action_preference(c, jn - 1, i));
    }
}

proof fn lemma_reversed_flows(cs: Seq<Criteria>, rs: Seq<Criteria>, kn: int, i: int)
    requires
        reversed_goals(cs, rs),
        0 <= kn <= cs.len(),
    ensures
        raw_positive(rs, kn, i) == raw_negative(cs, kn, i),
        raw_negative(rs, kn, i) == raw_positive(cs, kn, i),
    decreases kn,
{
    if kn > 0 {
        lemma_reversed_flows(cs, rs, kn - 1, i);
        lemma_same_shape(cs, rs, cs.len() as int);
        let k = kn - 1;
        assert(rs[k].actions == cs[k].actions);
        assert(normalized_weight(rs, k) == normalized_weight(cs, k));
        lemma_reversed_criterion(cs[k], rs[k], normalized_weight(cs, k), i, cs[k].actions.len() as int);
    }
}

/// Reversing the goal of every criterion (maximise for minimise and back)
/// exchanges the positive and negative flow of every action and negates its
/// net flow.
pub proof fn law_reversed_goals_exchange_flows(
    divide: bool,
    cs: Seq<Criteria>,
    rs: Seq<Criteria>,
    flow: Flow,
    order: Vec<usize>,
    reversed_flow: Flow,
    reversed_order: Vec<usize>,
)
    requires
        reversed_goals(cs, rs),
        ranking_result(divide, cs, flow, order),
        ranking_result(divide, rs, reversed_flow, reversed_order),
    ensures
        reversed_flow.positive_flow@ == flow.negative_flow@,
        reversed_flow.negative_flow@ == flow.positive_flow@,
        reversed_flow.net_flow.len() == flow.net_flow.len(),
        forall|i: int|
            0 <= i < flow.net_flow.len() ==> #[trigger] reversed_flow.net_flow@[i]@ == -flow.net_flow@[i]@,
{
    lemma_same_shape(cs, rs, cs.len() as int);
    let n = action_count(cs);
    assert forall|i: int| 0 <= i < n implies #[trigger] reversed_flow.positive_flow@[i]
        == flow.negative_flow@[i] by {
        lemma_reversed_flows(cs, rs, cs.len() as int, i);
        assert(reversed_flow.positive_flow@[i]@ == positive_flow(divide, rs, i));
        assert(flow.negative_flow@[i]@ == negative_flow(divide, cs, i));
    }
    assert forall|i: int| 0 <= i < n implies #[trigger] reversed_flow.negative_flow@[i]
        == flow.positive_flow@[i] by {
        lemma_reversed_flows(cs, rs, cs.len() as int, i);
        assert(reversed_flow.negative_flow@[i]@ == negative_flow(divide, rs, i));
        assert(flow.positive_flow@[i]@ == positive_flow(divide, cs, i));
    }
    assert(reversed_flow.positive_flow@ =~= flow.negative_flow@);
    assert(reversed_flow.negative_flow@ =~= flow.positive_flow@);
}

// ---------------------------------------------------------------------------
// Scaling every weight

/// `ss` is `cs` with every weight multiplied by the positive fraction
/// `num / den`: `den * ss[k].weight == num * cs[k].weight`.
pub open spec fn scaled_weights(cs: Seq<Criteria>, ss: Seq<Criteria>, num: int, den: int) -> bool {
    &&& num > 0
    &&& den > 0
    &&& ss.len() == cs.len()
    &&& forall|k: int|
        0 <= k < cs.len() ==> {
            &&& (#[trigger] ss[k]).actions == cs[k].actions
            &&& ss[k].function == cs[k].function
            &&& ss[k].goal == cs[k].goal
            &&& den * ss[k].weight@ == num * cs[k].weight@
        }
}

/// Rounding toward zero gives the same quotient after both sides are
/// multiplied by the same positive factor.
pub proof fn lemma_tdiv_scale(a: int, b: int, c: int)
    requires
        c > 0,
        b != 0,
    ensures
        tdiv(c * a, c * b) == tdiv(a, b),
{
    assert forall|x: int, y: int| x >= 0 && y > 0 implies #[trigger] ((c * x) / (c * y)) == x / y by {
        lemma_div_by_multiple(x, c);
        assert(x * c == c * x) by (nonlinear_arith);
        lemma_div_denominator(c * x, c, y);
        assert(c * x >= 0) by (nonlinear_arith)
            requires c > 0, x >= 0;
    }
    assert(-(c * a) == c * (-a)) by (nonlinear_arith);
    assert(-(c * b) == c * (-b)) by (nonlinear_arith);
    assert((c * a >= 0) == (a >= 0)) by (nonlinear_arith)
        requires c > 0;
    assert((c * b > 0) == (b > 0)) by (nonlinear_arith)
        requires c > 0;
    if a >= 0 && b > 0 {
        assert((c * a) / (c * b) == a / b);
    } else if a < 0 && b > 0 {
        assert((c * (-a)) / (c * b) == (-a) / b);
    } else if a >= 0 && b < 0 {
        assert((c * a) / (c * (-b)) == a / (-b));
    } else {
        assert((c * (-a)) / (c * (-b)) == (-a) / (-b));
    }
}

proof fn lemma_scaled_sums(cs: Seq<Criteria>, ss: Seq<Criteria>, num: int, den: int, kn: int)
    requires
        scaled_weights(cs, ss, num, den),
        0 <= kn <= cs.len(),
    ensures
        den * weight_sum(ss, kn) == num * weight_sum(cs, kn),
        max_len(ss, kn) == max_len(cs, kn),
    decreases kn,
{
    if kn > 0 {
        lemma_scaled_sums(cs, ss, num, den, kn - 1);
        assert(ss[kn - 1].actions == cs[kn - 1].actions);
        assert(den * ss[kn - 1].weight@ == num * cs[kn - 1].weight@);
        let a = weight_sum(ss, kn - 1);
        let b = weight_sum(cs, kn - 1);
        let x = ss[kn - 1].weight@;
        let y = cs[kn - 1].weight@;
        assert(den * (a + x) == num * (b + y)) by (nonlinear_arith)
            requires den * a == num * b, den * x == num * y;
    }
}

proof fn lemma_same_criterion(c: Criteria, d: Criteria, w: int, i: int, jn: int)
    requires
        d.actions == c.actions,
        d.function == c.function,
        d.goal == c.goal,
    ensures
        criterion_positive(d, w, i, jn) == criterion_positive(c, w, i, jn),
        criterion_negative(d, w, i, jn) == criterion_negative(c, w, i, jn),
    decreases jn,
{
    if jn > 0 {
        lemma_same_criterion(c, d, w, i, jn - 1);
        assert(action_preference(d, i, jn - 1) == action_preference(c, i, jn - 1));
        assert(action_preference(d, jn - 1, i) == action_preference(c, jn - 1, i));
    }
}

proof fn lemma_scaled_flows(cs: Seq<Criteria>, ss: Seq<Criteria>, num: int, den: int, kn: int, i: int)
    requires
        scaled_weights(cs, ss, num, den),
        total_weight(cs) != 0,
        0 <= kn <= cs.len(),
    ensures
        raw_positive(ss, kn, i) == raw_positive(cs, kn, i),
        raw_negative(ss, kn, i) == raw_negative(cs, kn, i),
    decreases kn,
{
    if kn > 0 {
        lemma_scaled_flows(cs, ss, num, den, kn - 1, i);
        lemma_scaled_sums(cs, ss, num, den, cs.len() as int);
        let k = kn - 1;
        assert(ss[k].actions == cs[k].actions);
        assert(den * ss[k].weight@ == num * cs[k].weight@);
        let w = cs[k].weight@;
        let w2 = ss[k].weight@;
        let t = total_weight(cs);
        let t2 = total_weight(ss);
        let s = SCALE as int;
        assert(t2 != 0) by (nonlinear_arith)
            requires den * t2 == num * t, t != 0, num > 0, den > 0;
        // Both normalized weights equal the one of the common multiple.
        lemma_tdiv_scale(w2 * s, t2, den);
        lemma_tdiv_scale(w * s, t, num);
        assert(den * (w2 * s) == num * (w * s)) by (nonlinear_arith)
            requires den * w2 == num * w;
        assert(normalized_weight(ss, k) == normalized_weight(cs, k));
        lemma_same_criterion(cs[k], ss[k], normalized_weight(cs, k), i, cs[k].actions.len() as int);
    }
}

/// Multiplying every weight by the same positive fraction changes neither the
/// flows nor the ranking: only the weights relative to their total count.
pub proof fn law_scaling_weights_changes_nothing(
    divide: bool,
    cs: Seq<Criteria>,
    ss: Seq<Criteria>,
    num: int,
    den: int,
    flow: Flow,
    order: Vec<usize>,
    scaled_flow: Flow,
    scaled_order: Vec<usize>,
)
    requires
        scaled_weights(cs, ss, num, den),
        total_weight(cs) != 0,
        ranking_result(divide, cs, flow, order),
        ranking_result(divide, ss, scaled_flow, scaled_order),
    ensures
        scaled_flow.positive_flow@ == flow.positive_flow@,
        scaled_flow.negative_flow@ == flow.negative_flow@,
        scaled_flow.net_flow@ == flow.net_flow@,
        scaled_order@ == order@,
{
    lemma_scaled_sums(cs, ss, num, den, cs.len() as int);
    let n = action_count(cs);
    assert forall|i: int| 0 <= i < n implies #[trigger] scaled_flow.positive_flow@[i]
        == flow.positive_flow@[i] by {
        lemma_scaled_flows(cs, ss, num, den, cs.len() as int, i);
        assert(scaled_flow.positive_flow@[i]@ == positive_flow(divide, ss, i));
        assert(flow.positive_flow@[i]@ == positive_flow(divide, cs, i));
    }
    assert forall|i: int| 0 <= i < n implies #[trigger] scaled_flow.negative_flow@[i]
        == flow.negative_flow@[i] by {
        lemma_scaled_flows(cs, ss, num, den, cs.len() as int, i);
        assert(scaled_flow.negative_flow@[i]@ == negative_flow(divide, ss, i));
        assert(flow.negative_flow@[i]@ == negative_flow(divide, cs, i));
    }
    assert(scaled_flow.positive_flow@ =~= flow.positive_flow@);
    assert(scaled_flow.negative_flow@ =~= flow.negative_flow@);
    assert forall|i: int| 0 <= i < n implies #[trigger] scaled_flow.net_flow@[i] == flow.net_flow@[i] by {
        assert(scaled_flow.net_flow@[i]@ == scaled_flow.positive_flow@[i]@ - scaled_flow.negative_flow@[i]@);
        assert(flow.net_flow@[i]@ == flow.positive_flow@[i]@ - flow.negative_flow@[i]@);
    }
    assert(scaled_flow.net_flow@ =~= flow.net_flow@);
    law_ranking_is_unique(values(flow.net_flow@), order@, scaled_order@);
}


// ---------------------------------------------------------------------------
// Flows of nonnegative weights

/// Every weight is nonnegative and at least one is positive.
pub open spec fn nonnegative_weights(cs: Seq<Criteria>) -> bool {
    &&& forall|k: int| 0 <= k < cs.len() ==> (#[trigger] cs[k]).weight@ >= 0
    &&& total_weight(cs) > 0
}

/// Sum of the normalized weights of the first `kn` criteria.
pub open spec fn normalized_sum(cs: Seq<Criteria>, kn: int) -> int
    decreases kn,
{
    if kn <= 0 { 0 } else { normalized_sum(cs, kn - 1) + normalized_weight(cs, kn - 1) }
}

/// Normalized weights cut toward zero, so they never sum to more than one:
/// `total * sum <= SCALE * weights`.
proof fn lemma_normalized_sum(cs: Seq<Criteria>, kn: int)
    requires
        nonnegative_weights(cs),
        0 <= kn <= cs.len(),
    ensures
        0 <= normalized_sum(cs, kn),
        total_weight(cs) * normalized_sum(cs, kn) <= SCALE * weight_sum(cs, kn),
        forall|k: int| 0 <= k < kn ==> normalized_weight(cs, k) >= 0,
    decreases kn,
{
    if kn > 0 {
        lemma_normalized_sum(cs, kn - 1);
        let t = total_weight(cs);
        let a = cs[kn - 1].weight@ * SCALE;
        let s = SCALE as int;
        assert(cs[kn - 1].weight@ >= 0);
        assert(a >= 0) by (nonlinear_arith)
            requires a == cs[kn - 1].weight@ * s, cs[kn - 1].weight@ >= 0, s > 0;
        assert(t * (a / t) <= a && a / t >= 0) by (nonlinear_arith)
            requires a >= 0, t > 0;
        let prev = normalized_sum(cs, kn - 1);
        assert(t * (prev + a / t) == t * prev + t * (a / t)) by (nonlinear_arith);
        assert(s * weight_sum(cs, kn) == s * weight_sum(cs, kn - 1) + s * cs[kn - 1].weight@)
            by (nonlinear_arith)
            requires weight_sum(cs, kn) == weight_sum(cs, kn - 1) + cs[kn - 1].weight@;
        assert(a == s * cs[kn - 1].weight@) by (nonlinear_arith)
            requires a == cs[kn - 1].weight@ * s;
    }
}

/// With a nonnegative weight, a criterion gives action `i` at most the weight
/// for every other action among the first `jn`, and nothing against itself.
pub proof fn lemma_criterion_within(c: Criteria, w: int, i: int, jn: int)
    requires
        w >= 0,
        0 <= jn,
    ensures
        0 <= criterion_positive(c, w, i, jn) <= (if 0 <= i < jn { jn - 1 } else { jn }) * w,
        0 <= criterion_negative(c, w, i, jn) <= (if 0 <= i < jn { jn - 1 } else { jn }) * w,
    decreases jn,
{
    if jn > 0 {
        lemma_criterion_within(c, w, i, jn - 1);
        let j = jn - 1;
        let s = SCALE as int;
        lemma_preference_bounded(c.function, c.actions@[i]@ - c.actions@[j]@);
        lemma_preference_bounded(c.function, c.actions@[j]@ - c.actions@[i]@);
        let p = action_preference(c, i, j);
        let q = action_preference(c, j, i);
        assert(0 <= w * p / s <= w) by (nonlinear_arith)
            requires w >= 0, 0 <= p <= s, s > 0;
        assert(0 <= w * q / s <= w) by (nonlinear_arith)
            requires w >= 0, 0 <= q <= s, s > 0;
        assert(w * p >= 0 && w * q >= 0) by (nonlinear_arith)
            requires w >= 0, p >= 0, q >= 0;
        if j == i {
            lemma_no_preference_unless_better(c.function, 0);
            assert(c.actions@[i]@ - c.actions@[j]@ == 0);
            assert(p == 0);
            assert(w * p == 0) by (nonlinear_arith)
                requires p == 0;
        }
        let b0 = (if 0 <= i < jn - 1 { jn - 2 } else { jn - 1 });
        let b1 = (if 0 <= i < jn { jn - 1 } else { jn });
        assert(b0 * w + w == (b0 + 1) * w) by (nonlinear_arith);
        assert(b0 * w <= b1 * w) by (nonlinear_arith)
            requires b0 <= b1, w >= 0;
        assert(b0 >= 0 ==> b0 * w >= 0) by (nonlinear_arith)
            requires w >= 0;
    }
}

/// With nonnegative weights, the summed flows of an action are nonnegative
/// and at most `n - 1` times the sum of the normalized weights.
proof fn lemma_raw_within(cs: Seq<Criteria>, kn: int, n: int, i: int)
    requires
        nonnegative_weights(cs),
        0 <= kn <= cs.len(),
        0 <= i < n,
        forall|k: int| 0 <= k < kn ==> cs[k].actions.len() <= n,
    ensures
        0 <= raw_positive(cs, kn, i) <= (n - 1) * normalized_sum(cs, kn),
        0 <= raw_negative(cs, kn, i) <= (n - 1) * normalized_sum(cs, kn),
    decreases kn,
{
    if kn > 0 {
        lemma_raw_within(cs, kn - 1, n, i);
        lemma_normalized_sum(cs, kn);
        let c = cs[kn - 1];
        let m = c.actions.len() as int;
        let w = normalized_weight(cs, kn - 1);
        let prev = normalized_sum(cs, kn - 1);
        assert(w >= 0);
        lemma_criterion_within(c, w, i, m);
        let b = (if 0 <= i < m { m - 1 } else { m });
        assert(b <= n - 1);
        assert(b * w <= (n - 1) * w) by (nonlinear_arith)
            requires b <= n - 1, w >= 0;
        assert((n - 1) * prev + (n - 1) * w == (n - 1) * (prev + w)) by (nonlinear_arith);
        assert(0 <= b) ;
        assert(0 <= b * w) by (nonlinear_arith)
            requires b >= 0, w >= 0;
    }
}

/// Flows within one: when every weight is nonnegative and the flows are
/// divided by the number of other actions, every positive and every negative
/// flow lies between 0 and 1 (`SCALE` raw units), and so every net flow lies
/// between -1 and 1.
pub proof fn law_divided_flows_within_unit(cs: Seq<Criteria>, flow: Flow, order: Vec<usize>)
    requires
        nonnegative_weights(cs),
        action_count(cs) >= 2,
        ranking_result(true, cs, flow, order),
    ensures
        forall|i: int|
            0 <= i < flow.positive_flow.len() ==> 0 <= #[trigger] flow.positive_flow@[i]@ <= SCALE,
        forall|i: int|
            0 <= i < flow.negative_flow.len() ==> 0 <= #[trigger] flow.negative_flow@[i]@ <= SCALE,
        forall|i: int|
            0 <= i < flow.net_flow.len() ==> -SCALE <= #[trigger] flow.net_flow@[i]@ <= SCALE,
{
    let n = action_count(cs);
    let kn = cs.len() as int;
    let s = SCALE as int;
    lemma_max_len(cs, kn);
    lemma_normalized_sum(cs, kn);
    let t = total_weight(cs);
    let ns = normalized_sum(cs, kn);
    assert(ns <= s) by (nonlinear_arith)
        requires t > 0, t * ns <= s * t, s > 0;
    assert forall|r: int| 0 <= r <= (n - 1) * ns implies 0 <= #[trigger] fixed_div(r, (n - 1) * s) <= s by {
        assert(r <= (n - 1) * s) by (nonlinear_arith)
            requires 0 <= r <= (n - 1) * ns, ns <= s, n >= 2;
        assert(0 <= (r * s) / ((n - 1) * s) <= s) by (nonlinear_arith)
            requires 0 <= r <= (n - 1) * s, n >= 2, s > 0;
        assert((n - 1) * s > 0) by (nonlinear_arith)
            requires n >= 2, s > 0;
        assert(r * s >= 0) by (nonlinear_arith)
            requires r >= 0, s > 0;
    }
    assert forall|i: int| 0 <= i < n implies 0 <= #[trigger] flow.positive_flow@[i]@ <= SCALE by {
        lemma_raw_within(cs, kn, n, i);
        assert(flow.positive_flow@[i]@ == positive_flow(true, cs, i));
        assert(0 <= fixed_div(raw_positive(cs, kn, i), (n - 1) * s) <= s);
    }
    assert forall|i: int| 0 <= i < n implies 0 <= #[trigger] flow.negative_flow@[i]@ <= SCALE by {
        lemma_raw_within(cs, kn, n, i);
        assert(flow.negative_flow@[i]@ == negative_flow(true, cs, i));
        assert(0 <= fixed_div(raw_negative(cs, kn, i), (n - 1) * s) <= s);
    }
    assert forall|i: int| 0 <= i < n implies -SCALE <= #[trigger] flow.net_flow@[i]@ <= SCALE by {
        assert(0 <= flow.positive_flow@[i]@ <= SCALE);
        assert(0 <= flow.negative_flow@[i]@ <= SCALE);
    }
}


// ---------------------------------------------------------------------------
// One criterion added to the flows

/// A criterion with weight zero contributes nothing to any action.
proof fn lemma_zero_weight_criterion(c: Criteria, i: int, jn: int)
    ensures
        criterion_positive(c, 0, i, jn) == 0,
        criterion_negative(c, 0, i, jn) == 0,
    decreases jn,
{
    if jn > 0 {
        lemma_zero_weight_criterion(c, i, jn - 1);
        assert(fixed_mul(0, action_preference(c, i, jn - 1)) == 0);
        assert(fixed_mul(0, action_preference(c, jn - 1, i)) == 0);
    }
}

/// Adding a criterion of weight zero changes no flow.
pub proof fn law_zero_weight_changes_nothing(c: Criteria, before: Flow, after: Flow)
    requires
        flow_step(c, 0, before, after),
    ensures
        after.positive_flow@ == before.positive_flow@,
        after.negative_flow@ == before.negative_flow@,
        after.net_flow@ == before.net_flow@,
{
    assert forall|i: int| 0 <= i < before.positive_flow.len() implies #[trigger] after.positive_flow@[i]
        == before.positive_flow@[i] by {
        lemma_zero_weight_criterion(c, i, c.actions.len() as int);
        assert(after.positive_flow@[i]@ == before.positive_flow@[i]@);
    }
    assert forall|i: int| 0 <= i < before.negative_flow.len() implies #[trigger] after.negative_flow@[i]
        == before.negative_flow@[i] by {
        lemma_zero_weight_criterion(c, i, c.actions.len() as int);
        assert(after.negative_flow@[i]@ == before.negative_flow@[i]@);
    }
    assert(after.positive_flow@ =~= before.positive_flow@);
    assert(after.negative_flow@ =~= before.negative_flow@);
}

/// With a nonnegative weight `w`, adding a criterion of `l` actions raises the
/// flows of each updated action by at least nothing and at most `w * (l - 1)`:
/// at most the full weight against every other action, none against itself.
pub proof fn law_flow_step_bounds(c: Criteria, w: int, before: Flow, after: Flow)
    requires
        w >= 0,
        flow_step(c, w, before, after),
    ensures
        forall|i: int|
            0 <= i < updated_count(c, before) ==> before.positive_flow@[i]@ <= #[trigger] after.positive_flow@[i]@
                <= before.positive_flow@[i]@ + w * (c.actions.len() - 1),
        forall|i: int|
            0 <= i < updated_count(c, before) ==> before.negative_flow@[i]@ <= #[trigger] after.negative_flow@[i]@
                <= before.negative_flow@[i]@ + w * (c.actions.len() - 1),
{
    let l = c.actions.len() as int;
    assert forall|i: int| 0 <= i < updated_count(c, before) implies before.positive_flow@[i]@
        <= #[trigger] after.positive_flow@[i]@ <= before.positive_flow@[i]@ + w * (l - 1) by {
        lemma_criterion_within(c, w, i, l);
        assert((l - 1) * w == w * (l - 1)) by (nonlinear_arith);
    }
    assert forall|i: int| 0 <= i < updated_count(c, before) implies before.negative_flow@[i]@
        <= #[trigger] after.negative_flow@[i]@ <= before.negative_flow@[i]@ + w * (l - 1) by {
        lemma_criterion_within(c, w, i, l);
        assert((l - 1) * w == w * (l - 1)) by (nonlinear_arith);
    }
}

/// A minimised criterion swaps the roles of positive and negative preference:
/// from flows whose positive and negative entries agree (such as all zeros),
/// adding it gives as positive flows what adding the same criterion maximised
/// gives as negative flows, and the other way round.
pub proof fn law_min_goal_swaps_flow_step(
    maximised: Criteria,
    minimised: Criteria,
    w: int,
    before: Flow,
    after_max: Flow,
    after_min: Flow,
)
    requires
        minimised.actions == maximised.actions,
        minimised.function == maximised.function,
        maximised.goal == Goal::Max,
        minimised.goal == Goal::Min,
        before.positive_flow@ == before.negative_flow@,
        flow_step(maximised, w, before, after_max),
        flow_step(minimised, w, before, after_min),
    ensures
        after_min.positive_flow@ == after_max.negative_flow@,
        after_min.negative_flow@ == after_max.positive_flow@,
{
    let l = maximised.actions.len() as int;
    assert(updated_count(minimised, before) == updated_count(maximised, before));
    assert forall|i: int| 0 <= i < before.positive_flow.len() implies #[trigger] after_min.positive_flow@[i]
        == after_max.negative_flow@[i] by {
        lemma_reversed_criterion(maximised, minimised, w, i, l);
        assert(before.positive_flow@[i] == before.negative_flow@[i]);
        assert(after_min.positive_flow@[i]@ == after_max.negative_flow@[i]@);
    }
    assert forall|i: int| 0 <= i < before.positive_flow.len() implies #[trigger] after_min.negative_flow@[i]
        == after_max.positive_flow@[i] by {
        lemma_reversed_criterion(maximised, minimised, w, i, l);
        assert(before.positive_flow@[i] == before.negative_flow@[i]);
        assert(after_min.negative_flow@[i]@ == after_max.positive_flow@[i]@);
    }
    assert(after_min.positive_flow@ =~= after_max.negative_flow@);
    assert(after_min.negative_flow@ =~= after_max.positive_flow@);
}

/// The order in which criteria are added does not matter: adding `c1` then
/// `c2` gives the same flows as adding `c2` then `c1`.
pub proof fn law_flow_steps_commute(
    c1: Criteria,
    w1: int,
    c2: Criteria,
    w2: int,
    start: Flow,
    first_one: Flow,
    one_then_two: Flow,
    first_two: Flow,
    two_then_one: Flow,
)
    requires
        flow_step(c1, w1, start, first_one),
        flow_step(c2, w2, first_one, one_then_two),
        flow_step(c2, w2, start, first_two),
        flow_step(c1, w1, first_two, two_then_one),
    ensures
        one_then_two.positive_flow@ == two_then_one.positive_flow@,
        one_then_two.negative_flow@ == two_then_one.negative_flow@,
        one_then_two.net_flow@ == two_then_one.net_flow@,
{
    assert(updated_count(c2, first_one) == updated_count(c2, start));
    assert(updated_count(c1, first_two) == updated_count(c1, start));
    assert forall|i: int| 0 <= i < start.positive_flow.len() implies #[trigger] one_then_two.positive_flow@[i]
        == two_then_one.positive_flow@[i] by {
        assert(first_one.positive_flow@[i]@ == start.positive_flow@[i]@ + (if i < updated_count(c1, start) {
            criterion_positive(c1, w1, i, c1.actions.len() as int)
        } else {
            0
        }));
        assert(first_two.positive_flow@[i]@ == start.positive_flow@[i]@ + (if i < updated_count(c2, start) {
            criterion_positive(c2, w2, i, c2.actions.len() as int)
        } else {
            0
        }));
        assert(one_then_two.positive_flow@[i]@ == two_then_one.positive_flow@[i]@);
    }
    assert forall|i: int| 0 <= i < start.negative_flow.len() implies #[trigger] one_then_two.negative_flow@[i]
        == two_then_one.negative_flow@[i] by {
        assert(first_one.negative_flow@[i]@ == start.negative_flow@[i]@ + (if i < updated_count(c1, start) {
            criterion_negative(c1, w1, i, c1.actions.len() as int)
        } else {
            0
        }));
        assert(first_two.negative_flow@[i]@ == start.negative_flow@[i]@ + (if i < updated_count(c2, start) {
            criterion_negative(c2, w2, i, c2.actions.len() as int)
        } else {
            0
        }));
        assert(one_then_two.negative_flow@[i]@ == two_then_one.negative_flow@[i]@);
    }
    assert(one_then_two.positive_flow@ =~= two_then_one.positive_flow@);
    assert(one_then_two.negative_flow@ =~= two_then_one.negative_flow@);
}

// ---------------------------------------------------------------------------
// Divided and undivided flows

/// Rounding toward zero leaves less than one divisor between `d * (r / d)`
/// and `r`.
pub proof fn lemma_tdiv_near(r: int, d: int)
    requires
        d > 0,
    ensures
        -d < d * tdiv(r, d) - r < d,
{
    if r >= 0 {
        assert(d * (r / d) <= r < d * (r / d) + d) by (nonlinear_arith)
            requires r >= 0, d > 0;
    } else {
        assert(d * ((-r) / d) <= -r < d * ((-r) / d) + d) by (nonlinear_arith)
            requires r < 0, d > 0;
        assert(d * (-((-r) / d)) == -(d * ((-r) / d))) by (nonlinear_arith);
    }
}

/// Dividing by the number of other actions: each divided positive and
/// negative flow is the undivided one divided by `n - 1` and rounded toward
/// zero; each divided net flow, times `n - 1`, is within `2 * (n - 1)` raw
/// units of the undivided net flow (exactly equal in exact arithmetic).
pub proof fn law_divided_flows_are_undivided_over_others(
    cs: Seq<Criteria>,
    divided: Flow,
    divided_order: Vec<usize>,
    undivided: Flow,
    undivided_order: Vec<usize>,
)
    requires
        action_count(cs) >= 2,
        ranking_result(true, cs, divided, divided_order),
        ranking_result(false, cs, undivided, undivided_order),
    ensures
        forall|i: int|
            0 <= i < action_count(cs) ==> #[trigger] divided.positive_flow@[i]@ == tdiv(
                undivided.positive_flow@[i]@,
                action_count(cs) - 1,
            ),
        forall|i: int|
            0 <= i < action_count(cs) ==> #[trigger] divided.negative_flow@[i]@ == tdiv(
                undivided.negative_flow@[i]@,
                action_count(cs) - 1,
            ),
        forall|i: int|
            0 <= i < action_count(cs) ==> abs(
                (action_count(cs) - 1) * #[trigger] divided.net_flow@[i]@ - undivided.net_flow@[i]@,
            ) < 2 * (action_count(cs) - 1),
{
    let n = action_count(cs);
    let d = n - 1;
    let s = SCALE as int;
    assert forall|r: int| #[trigger] fixed_div(r, d * s) == tdiv(r, d) by {
        lemma_tdiv_scale(r, d, s);
        assert(r * s == s * r && d * s == s * d) by (nonlinear_arith);
    }
    assert forall|i: int| 0 <= i < n implies #[trigger] divided.positive_flow@[i]@ == tdiv(
        undivided.positive_flow@[i]@,
        d,
    ) by {
        assert(divided.positive_flow@[i]@ == positive_flow(true, cs, i));
        assert(undivided.positive_flow@[i]@ == positive_flow(false, cs, i));
        assert(fixed_div(raw_positive(cs, cs.len() as int, i), d * s) == tdiv(
            raw_positive(cs, cs.len() as int, i),
            d,
        ));
    }
    assert forall|i: int| 0 <= i < n implies #[trigger] divided.negative_flow@[i]@ == tdiv(
        undivided.negative_flow@[i]@,
        d,
    ) by {
        assert(divided.negative_flow@[i]@ == negative_flow(true, cs, i));
        assert(undivided.negative_flow@[i]@ == negative_flow(false, cs, i));
        assert(fixed_div(raw_negative(cs, cs.len() as int, i), d * s) == tdiv(
            raw_negative(cs, cs.len() as int, i),
            d,
        ));
    }
    assert forall|i: int| 0 <= i < n implies abs(d * #[trigger] divided.net_flow@[i]@ - undivided.net_flow@[i]@)
        < 2 * d by {
        let p = undivided.positive_flow@[i]@;
        let q = undivided.negative_flow@[i]@;
        assert(divided.positive_flow@[i]@ == tdiv(p, d));
        assert(divided.negative_flow@[i]@ == tdiv(q, d));
        lemma_tdiv_near(p, d);
        lemma_tdiv_near(q, d);
        assert(d * (tdiv(p, d) - tdiv(q, d)) == d * tdiv(p, d) - d * tdiv(q, d)) by (nonlinear_arith);
    }
}


// ---------------------------------------------------------------------------
// What can be ranked

/// Dividing by the number of other actions needs only two actions: what ranks
/// without division ranks with it as soon as there are at least two actions
/// (and their count fits the number type), and nothing ranks with division
/// that would not rank without it.
pub proof fn law_division_needs_two_actions(cs: Seq<Criteria>)
    ensures
        rankable(false, cs) && 2 <= action_count(cs) <= 1_000_000 ==> rankable(true, cs),
        rankable(true, cs) ==> rankable(false, cs) && action_count(cs) >= 2,
{
    let n = action_count(cs);
    if 2 <= n <= 1_000_000 {
        assert((n - 1) * SCALE <= 1_000_000 * SCALE) by (nonlinear_arith)
            requires n - 1 <= 1_000_000;
    }
}

/// With nonnegative weights, the mass stays within `n + 1` times the sum of the
/// normalized weights.
proof fn lemma_mass_within(cs: Seq<Criteria>, kn: int, n: int)
    requires
        nonnegative_weights(cs),
        0 <= kn <= cs.len(),
        forall|k: int| 0 <= k < kn ==> cs[k].actions.len() <= n,
    ensures
        weight_mass(cs, kn) <= (n + 1) * normalized_sum(cs, kn),
    decreases kn,
{
    if kn > 0 {
        lemma_mass_within(cs, kn - 1, n);
        lemma_normalized_sum(cs, kn);
        let m = cs[kn - 1].actions.len() as int;
        let w = normalized_weight(cs, kn - 1);
        assert(w >= 0);
        assert((m + 1) * w <= (n + 1) * w) by (nonlinear_arith)
            requires m <= n, w >= 0;
        assert((n + 1) * normalized_sum(cs, kn - 1) + (n + 1) * w == (n + 1) * (normalized_sum(
            cs,
            kn - 1,
        ) + w)) by (nonlinear_arith);
    }
}

/// Every input with nonnegative weights of positive total and between one and
/// a million actions is ranked (with at least two actions when the flows are
/// divided by the number of other actions): the bound on the flows refuses
/// none of them.
pub proof fn law_nonnegative_weights_are_rankable(divide: bool, cs: Seq<Criteria>)
    requires
        nonnegative_weights(cs),
        1 <= cs.len() <= u32::MAX,
        1 <= action_count(cs) <= 1_000_000,
        divide ==> action_count(cs) >= 2,
    ensures
        rankable(divide, cs),
{
    let n = action_count(cs);
    let kn = cs.len() as int;
    lemma_max_len(cs, kn);
    lemma_mass_within(cs, kn, n);
    lemma_normalized_sum(cs, kn);
    let t = total_weight(cs);
    let ns = normalized_sum(cs, kn);
    let s = SCALE as int;
    assert(ns <= s) by (nonlinear_arith)
        requires t > 0, t * ns <= s * t, s > 0;
    assert((n + 1) * ns <= 1_000_001 * s) by (nonlinear_arith)
        requires 0 <= ns <= s, 1 <= n <= 1_000_000;
    if divide {
        assert((n - 1) * SCALE <= 1_000_000 * SCALE) by (nonlinear_arith)
            requires n - 1 <= 1_000_000;
    }
}


// ---------------------------------------------------------------------------
// Order and rounding

/// In a ranking, every action comes after all actions with a larger net flow
/// and before all with a smaller one; in particular the first action has the
/// largest net flow.
pub proof fn law_ranking_best_first(net: Seq<int>, r: Seq<usize>)
    requires
        is_ranking(net, r),
    ensures
        forall|p: int, q: int|
            0 <= p < q < r.len() ==> net[#[trigger] r[p] as int] >= net[#[trigger] r[q] as int],
        forall|p: int, q: int|
            0 <= p < r.len() && 0 <= q < r.len() && net[#[trigger] r[p] as int] > net[#[trigger] r[q] as int]
                ==> p < q,
        r.len() > 0 ==> forall|q: int| 0 <= q < r.len() ==> net[r[0] as int] >= net[#[trigger] r[q] as int],
{
    assert forall|p: int, q: int|
        0 <= p < r.len() && 0 <= q < r.len() && net[#[trigger] r[p] as int] > net[#[trigger] r[q] as int]
        implies p < q by {
        if q < p {
            assert(ranked_before(net, r[q] as int, r[p] as int));
        }
        if q == p {
        }
    }
    if r.len() > 0 {
        assert forall|q: int| 0 <= q < r.len() implies net[r[0] as int] >= net[#[trigger] r[q] as int] by {
            if q > 0 {
                assert(ranked_before(net, r[0] as int, r[q] as int));
            }
        }
    }
}

/// Products and quotients of `Fixed` numbers round toward zero: the exact
/// value `a / b` (for `b > 0`) lies within one unit of the rounded quotient,
/// never further from zero than it.
pub proof fn law_rounding_toward_zero(a: int, b: int)
    requires
        b > 0,
    ensures
        a >= 0 ==> 0 <= b * tdiv(a, b) <= a < b * tdiv(a, b) + b,
        a < 0 ==> b * tdiv(a, b) - b < a <= b * tdiv(a, b) <= 0,
{
    if a >= 0 {
        assert(0 <= b * (a / b) <= a < b * (a / b) + b) by (nonlinear_arith)
            requires a >= 0, b > 0;
    } else {
        assert(0 <= b * ((-a) / b) <= -a < b * ((-a) / b) + b) by (nonlinear_arith)
            requires a < 0, b > 0;
        assert(b * (-((-a) / b)) == -(b * ((-a) / b))) by (nonlinear_arith);
    }
}

} // verus!
