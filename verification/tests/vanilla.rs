use promethee::fixed::Fixed;
use promethee::function::{
    LevelFunction, LinearFunction, LinearWithIndeferenceFunction, PreferenceFunction, QuasiFunction,
    UsualFunction,
};
use promethee::promethee::{Criteria, Flow, Goal};
use promethee::vanilla::{rank_order, Vanilla};

/// The fixed-point number nearest to a decimal literal.
fn fx(v: f64) -> Fixed {
    Fixed::from_raw((v * 1e12).round() as i64)
}

fn to_f64(v: Fixed) -> f64 {
    v.to_raw() as f64 / 1e12
}

fn linear(actions: Vec<f64>, weight: f64, m: f64, goal: Goal) -> Criteria {
    Criteria {
        actions: actions.into_iter().map(fx).collect(),
        weight: fx(weight),
        function: PreferenceFunction::Linear(LinearFunction { m: fx(m) }),
        goal,
    }
}

fn eq_float(left: f64, right: f64, abs_error: f64) -> bool {
    (left - right).abs() < abs_error
}

fn assert_approx_eq(want_net: Vec<f64>, got: &Flow, eps: f64) {
    assert_eq!(want_net.len(), got.net_flow.len());
    for (pos, (l, r)) in want_net.iter().zip(got.net_flow.iter()).enumerate() {
        let r = to_f64(*r);
        if !eq_float(*l, r, eps) {
            panic!("net_flow differs at position {}. left: {}, right: {}", pos, l, r);
        }
    }
}

fn assert_all_approx(want: &[f64], got: &[Fixed], eps: f64) {
    assert_eq!(want.len(), got.len());
    for (l, r) in want.iter().zip(got.iter()) {
        assert!(eq_float(*l, to_f64(*r), eps), "{} vs {}", l, to_f64(*r));
    }
}

#[test]
fn youtube_example() {
    let price = linear(vec![250.0, 200.0, 300.0, 275.0], 0.35, 100.0, Goal::Min);
    let storage = linear(vec![16.0, 16.0, 32.0, 32.0], 0.25, 16.0, Goal::Max);
    let camera = linear(vec![12.0, 8.0, 16.0, 8.0], 0.25, 8.0, Goal::Max);
    let looks = linear(vec![5.0, 3.0, 4.0, 2.0], 0.15, 3.0, Goal::Max);

    let want_rank = vec![2, 0, 1, 3];
    let want_positive = [0.2708333333, 0.2791666667, 0.425, 0.1958333333];
    let want_negative = [0.2666666667, 0.3416666667, 0.2208333333, 0.3416666667];
    let want_net = vec![0.004166666667, -0.0625, 0.2041666667, -0.1458333333];

    let promethee = Vanilla::new(true);
    let (got_flow, got_rank) = promethee.rank(vec![price, storage, camera, looks]);
    assert_approx_eq(want_net, &got_flow, 1e-9);
    assert_all_approx(&want_positive, &got_flow.positive_flow, 1e-9);
    assert_all_approx(&want_negative, &got_flow.negative_flow, 1e-9);
    assert_eq!(want_rank, got_rank);
}

#[test]
fn single_min_linear() {
    let erosao = linear(vec![4.8, 3.4, 3.8, 4.5], 1.0, 5.0, Goal::Min);

    let want_net = vec![-0.18, 0.1933333333, 0.0866666667, -0.1];
    let want_rank = vec![1, 2, 3, 0];

    let promethee = Vanilla::new(true);
    let (got_flow, got_rank) = promethee.rank(vec![erosao]);

    assert_eq!(got_rank, want_rank);
    assert_approx_eq(want_net, &got_flow, 1e-9);
    assert_all_approx(&[0.00, 0.1933333333, 0.1133333333, 0.02], &got_flow.positive_flow, 1e-9);
    assert_all_approx(&[0.18, 0.00, 0.0266666667, 0.12], &got_flow.negative_flow, 1e-9);
}

#[test]
fn max_linear_criteria() {
    let erosao = linear(vec![4.8, 3.4, 3.8, 4.5], 2.0, 5.0, Goal::Min);
    let infpop = linear(vec![300.0, 155.0, 200.0, 280.0], 1.0, 500.0, Goal::Min);
    let prod = linear(vec![6.2, 4.1, 5.0, 4.0], 4.0, 7.0, Goal::Max);
    let rhcp = linear(vec![2.2, 0.5, 0.7, 2.5], 3.0, 2.5, Goal::Max);

    let want_net = vec![0.1670952381, -0.1515714286, -0.08433333333, 0.06880952381];
    let want_rank = vec![0, 3, 2, 1];

    let promethee = Vanilla::new(true);
    let (got_flow, got_rank) = promethee.rank(vec![erosao, infpop, prod, rhcp]);

    assert_eq!(want_rank, got_rank);
    assert_approx_eq(want_net, &got_flow, 1e-9);
    assert_all_approx(
        &[0.2327619048, 0.06157142857, 0.07885714286, 0.1693333333],
        &got_flow.positive_flow,
        1e-9,
    );
    assert_all_approx(
        &[0.06566666667, 0.2131428571, 0.1631904762, 0.1005238095],
        &got_flow.negative_flow,
        1e-9,
    );
}

#[test]
fn new_keeps_the_flag() {
    assert!(Vanilla::new(true).divide_by_alternatives);
    assert!(!Vanilla::new(false).divide_by_alternatives);
}

#[test]
fn net_flows_sum_to_zero_without_division() {
    let erosao = linear(vec![4.8, 3.4, 3.8, 4.5], 2.0, 5.0, Goal::Min);
    let prod = linear(vec![6.2, 4.1, 5.0, 4.0], 4.0, 7.0, Goal::Max);
    let (flow, _) = Vanilla::new(false).rank(vec![erosao, prod]);
    let sum: i64 = flow.net_flow.iter().map(|x| x.to_raw()).sum();
    assert_eq!(sum, 0);
    let pos: i64 = flow.positive_flow.iter().map(|x| x.to_raw()).sum();
    let neg: i64 = flow.negative_flow.iter().map(|x| x.to_raw()).sum();
    assert_eq!(pos, neg);
}

#[test]
fn reversing_goals_exchanges_flows() {
    let a = linear(vec![4.8, 3.4, 3.8, 4.5], 2.0, 5.0, Goal::Min);
    let b = linear(vec![6.2, 4.1, 5.0, 4.0], 4.0, 7.0, Goal::Max);
    let ra = linear(vec![4.8, 3.4, 3.8, 4.5], 2.0, 5.0, Goal::Max);
    let rb = linear(vec![6.2, 4.1, 5.0, 4.0], 4.0, 7.0, Goal::Min);
    let (flow, order) = Vanilla::new(true).rank(vec![a, b]);
    let (rflow, rorder) = Vanilla::new(true).rank(vec![ra, rb]);
    assert_eq!(rflow.positive_flow, flow.negative_flow);
    assert_eq!(rflow.negative_flow, flow.positive_flow);
    for (x, y) in rflow.net_flow.iter().zip(flow.net_flow.iter()) {
        assert_eq!(x.to_raw(), -y.to_raw());
    }
    let mut reversed = order.clone();
    reversed.reverse();
    assert_eq!(rorder, reversed);
}

#[test]
fn scaling_weights_changes_nothing() {
    let a = linear(vec![4.8, 3.4, 3.8, 4.5], 2.0, 5.0, Goal::Min);
    let b = linear(vec![300.0, 155.0, 200.0, 280.0], 1.0, 500.0, Goal::Min);
    let sa = linear(vec![4.8, 3.4, 3.8, 4.5], 6.0, 5.0, Goal::Min);
    let sb = linear(vec![300.0, 155.0, 200.0, 280.0], 3.0, 500.0, Goal::Min);
    let (flow, order) = Vanilla::new(true).rank(vec![a, b]);
    let (sflow, sorder) = Vanilla::new(true).rank(vec![sa, sb]);
    assert_eq!(sflow.positive_flow, flow.positive_flow);
    assert_eq!(sflow.negative_flow, flow.negative_flow);
    assert_eq!(sflow.net_flow, flow.net_flow);
    assert_eq!(sorder, order);
}

#[test]
fn ties_keep_index_order() {
    let net = vec![fx(0.5), fx(-0.25), fx(0.5), fx(1.0), fx(-0.25), fx(0.0)];
    assert_eq!(rank_order(&net), vec![3, 0, 2, 5, 1, 4]);
    assert_eq!(rank_order(&vec![]), Vec::<usize>::new());
}

#[test]
fn shorter_criteria_only_touch_their_actions() {
    let a = Criteria {
        actions: vec![fx(1.0), fx(2.0), fx(3.0)],
        weight: fx(1.0),
        function: PreferenceFunction::Usual(UsualFunction {}),
        goal: Goal::Max,
    };
    let b = Criteria {
        actions: vec![fx(5.0), fx(1.0)],
        weight: fx(1.0),
        function: PreferenceFunction::Usual(UsualFunction {}),
        goal: Goal::Max,
    };
    let (flow, order) = Vanilla::new(false).rank(vec![a, b]);
    // Weights 0.5 each; action 2 only appears in the first criterion.
    assert_all_approx(&[0.5, 0.5, 1.0], &flow.positive_flow, 1e-12);
    assert_all_approx(&[1.0, 1.0, 0.0], &flow.negative_flow, 1e-12);
    assert_all_approx(&[-0.5, -0.5, 1.0], &flow.net_flow, 1e-12);
    assert_eq!(order, vec![2, 0, 1]);
}

#[test]
fn mixed_functions_without_division() {
    let a = Criteria {
        actions: vec![fx(80.0), fx(65.0), fx(83.0)],
        weight: fx(1.0),
        function: PreferenceFunction::Quasi(QuasiFunction { l: fx(10.0) }),
        goal: Goal::Min,
    };
    let b = Criteria {
        actions: vec![fx(5.4), fx(9.7), fx(7.2)],
        weight: fx(1.0),
        function: PreferenceFunction::Level(LevelFunction { weak_treshold: fx(1.0), weak_area: fx(5.0) }),
        goal: Goal::Min,
    };
    let (flow, order) = Vanilla::new(false).rank(vec![a, b]);
    // Quasi (min): 65 beats 80 and 83 by at least 10: action 1 gains 2 * 0.5.
    // Level (min): 5.4 beats 9.7 by 4.3 (half) and 7.2 by 1.8 (half);
    // 7.2 beats 9.7 by 2.5 (half).
    assert_all_approx(&[0.5, 1.0, 0.25], &flow.positive_flow, 1e-12);
    assert_all_approx(&[0.5, 0.5, 0.75], &flow.negative_flow, 1e-12);
    assert_all_approx(&[0.0, 0.5, -0.5], &flow.net_flow, 1e-12);
    assert_eq!(order, vec![1, 0, 2]);
}

#[test]
fn try_rank_refuses_what_rank_cannot_do() {
    let v = Vanilla::new(true);
    assert!(v.try_rank(vec![]).is_none());
    // Weights that cancel out cannot be normalized.
    let a = linear(vec![1.0, 2.0], 1.0, 1.0, Goal::Max);
    let b = linear(vec![1.0, 2.0], -1.0, 1.0, Goal::Max);
    assert!(Vanilla::new(true).try_rank(vec![a, b]).is_none());
    // A single action cannot be divided by the number of other actions ...
    let single = linear(vec![1.0], 1.0, 1.0, Goal::Max);
    assert!(Vanilla::new(true).try_rank(vec![single.clone()]).is_none());
    // ... but can be ranked without that division.
    let (flow, order) = Vanilla::new(false).try_rank(vec![single]).unwrap();
    assert_eq!(flow.net_flow, vec![fx(0.0)]);
    assert_eq!(order, vec![0]);
    // No actions at all.
    let empty = linear(vec![], 1.0, 1.0, Goal::Max);
    assert!(Vanilla::new(false).try_rank(vec![empty]).is_none());
    // Normalized weights too large for the flows.
    let huge = linear(vec![1.0, 2.0], 1.0, 1.0, Goal::Max);
    let tiny = Criteria { weight: Fixed::from_raw(-999_999_999_999), ..huge.clone() };
    assert!(Vanilla::new(false).try_rank(vec![huge, tiny]).is_none());
}

#[test]
fn try_rank_agrees_with_rank() {
    let make = || vec![
        linear(vec![250.0, 200.0, 300.0, 275.0], 0.35, 100.0, Goal::Min),
        linear(vec![16.0, 16.0, 32.0, 32.0], 0.25, 16.0, Goal::Max),
    ];
    let (f1, o1) = Vanilla::new(true).rank(make());
    let (f2, o2) = Vanilla::new(true).try_rank(make()).unwrap();
    assert_eq!(f1.net_flow, f2.net_flow);
    assert_eq!(o1, o2);
}

#[test]
fn divided_flows_within_unit() {
    let criteria = vec![
        linear(vec![250.0, 200.0, 300.0, 275.0], 0.35, 100.0, Goal::Min),
        linear(vec![16.0, 16.0, 32.0, 32.0], 0.25, 16.0, Goal::Max),
        linear(vec![12.0, 8.0, 16.0, 8.0], 0.0, 8.0, Goal::Max),
    ];
    let (flow, _) = Vanilla::new(true).rank(criteria);
    for i in 0..4 {
        assert!(0.0 <= to_f64(flow.positive_flow[i]) && to_f64(flow.positive_flow[i]) <= 1.0);
        assert!(0.0 <= to_f64(flow.negative_flow[i]) && to_f64(flow.negative_flow[i]) <= 1.0);
        assert!(-1.0 <= to_f64(flow.net_flow[i]) && to_f64(flow.net_flow[i]) <= 1.0);
    }
    // The best action against all others under every criterion reaches one.
    let all = linear(vec![1.0, 2.0, 3.0], 1.0, 0.5, Goal::Max);
    let (flow, order) = Vanilla::new(true).rank(vec![all]);
    assert_eq!(flow.positive_flow[2], fx(1.0));
    assert_eq!(flow.negative_flow[0], fx(1.0));
    assert_eq!(order, vec![2, 1, 0]);
}

fn criterion(actions: Vec<f64>, function: PreferenceFunction, goal: Goal) -> Criteria {
    Criteria { actions: actions.into_iter().map(fx).collect(), weight: fx(1.0), function, goal }
}

/// The mixed example of the PROMETHEE paper without its Gaussian criterion
/// (which needs floating point); expected values computed in exact fractions.
#[test]
fn paper_example_without_gaussian() {
    let f1 = criterion(
        vec![80.0, 65.0, 83.0, 40.0, 52.0, 94.0],
        PreferenceFunction::Quasi(QuasiFunction { l: fx(10.0) }),
        Goal::Min,
    );
    let f2 = criterion(
        vec![90.0, 58.0, 60.0, 80.0, 72.0, 96.0],
        PreferenceFunction::Linear(LinearFunction { m: fx(30.0) }),
        Goal::Max,
    );
    let f3 = criterion(
        vec![60.0, 20.0, 40.0, 100.0, 60.0, 70.0],
        PreferenceFunction::LinearWithIndeference(LinearWithIndeferenceFunction {
            indiference_threshold: fx(5.0),
            linear_area: fx(45.0),
        }),
        Goal::Min,
    );
    let f4 = criterion(
        vec![5.4, 9.7, 7.2, 7.5, 2.0, 3.6],
        PreferenceFunction::Level(LevelFunction { weak_treshold: fx(1.0), weak_area: fx(5.0) }),
        Goal::Min,
    );
    let f5 = criterion(
        vec![8.0, 1.0, 4.0, 7.0, 3.0, 5.0],
        PreferenceFunction::Usual(UsualFunction {}),
        Goal::Min,
    );

    let want_positive = [
        1.2644444444444445, 2.3777777777777778, 1.3577777777777778, 1.6333333333333333,
        2.551111111111111, 1.7177777777777778,
    ];
    let want_negative = [
        2.062222222222222, 1.7533333333333334, 1.98, 2.0955555555555554, 0.9555555555555556,
        2.0555555555555554,
    ];
    let want_net = vec![
        -0.7977777777777778, 0.6244444444444445, -0.6222222222222222, -0.4622222222222222,
        1.5955555555555556, -0.3377777777777778,
    ];
    let want_rank = vec![4, 1, 5, 3, 2, 0];

    let promethee = Vanilla::new(false);
    let (got_flow, got_rank) = promethee.rank(vec![f1, f2, f3, f4, f5]);

    assert_eq!(want_rank, got_rank);
    assert_approx_eq(want_net, &got_flow, 1e-9);
    assert_all_approx(&want_positive, &got_flow.positive_flow, 1e-9);
    assert_all_approx(&want_negative, &got_flow.negative_flow, 1e-9);
}

#[test]
fn divided_flows_are_undivided_over_others() {
    let make = || vec![
        linear(vec![250.0, 200.0, 300.0, 275.0], 0.35, 100.0, Goal::Min),
        linear(vec![12.0, 8.0, 16.0, 8.0], 0.25, 8.0, Goal::Max),
    ];
    let (divided, _) = Vanilla::new(true).rank(make());
    let (undivided, _) = Vanilla::new(false).rank(make());
    for i in 0..4 {
        assert_eq!(divided.positive_flow[i].to_raw(), undivided.positive_flow[i].to_raw() / 3);
        assert_eq!(divided.negative_flow[i].to_raw(), undivided.negative_flow[i].to_raw() / 3);
        let gap = 3 * divided.net_flow[i].to_raw() - undivided.net_flow[i].to_raw();
        assert!(gap.abs() < 6);
    }
}

#[test]
fn scaling_weights_by_a_fraction_changes_nothing() {
    let a = linear(vec![4.8, 3.4, 3.8, 4.5], 2.0, 5.0, Goal::Min);
    let b = linear(vec![6.2, 4.1, 5.0, 4.0], 4.0, 7.0, Goal::Max);
    let sa = linear(vec![4.8, 3.4, 3.8, 4.5], 0.5, 5.0, Goal::Min);
    let sb = linear(vec![6.2, 4.1, 5.0, 4.0], 1.0, 7.0, Goal::Max);
    let (flow, order) = Vanilla::new(true).rank(vec![a, b]);
    let (sflow, sorder) = Vanilla::new(true).rank(vec![sa, sb]);
    assert_eq!(sflow.net_flow, flow.net_flow);
    assert_eq!(sorder, order);
}

#[test]
fn criteria_order_does_not_matter() {
    let make = || {
        (
            linear(vec![4.8, 3.4, 3.8, 4.5], 2.0, 5.0, Goal::Min),
            linear(vec![6.2, 4.1, 5.0, 4.0], 4.0, 7.0, Goal::Max),
        )
    };
    let (a, b) = make();
    let (flow, order) = Vanilla::new(true).rank(vec![a, b]);
    let (a, b) = make();
    let (flow2, order2) = Vanilla::new(true).rank(vec![b, a]);
    assert_eq!(flow.positive_flow, flow2.positive_flow);
    assert_eq!(flow.negative_flow, flow2.negative_flow);
    assert_eq!(order, order2);
}

#[test]
fn zero_weight_criterion_changes_nothing() {
    let a = linear(vec![4.8, 3.4, 3.8, 4.5], 2.0, 5.0, Goal::Min);
    let z = linear(vec![6.2, 4.1, 5.0, 4.0], 0.0, 7.0, Goal::Max);
    let (flow, order) = Vanilla::new(true).rank(vec![a.clone()]);
    let (flow2, order2) = Vanilla::new(true).rank(vec![a, z]);
    assert_eq!(flow.net_flow, flow2.net_flow);
    assert_eq!(order, order2);
}
