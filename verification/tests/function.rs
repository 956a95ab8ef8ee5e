use promethee::fixed::Fixed;
use promethee::function::{
    LevelFunction, LinearFunction, LinearWithIndeferenceFunction, PreferenceFunction,
    QuasiFunction, UsualFunction,
};

/// The fixed-point number nearest to a decimal literal.
fn fx(v: f64) -> Fixed {
    Fixed::from_raw((v * 1e12).round() as i64)
}

#[test]
fn usual_function() {
    let a = UsualFunction {};
    assert_eq!(fx(0.00), a.compare(fx(0.0), fx(0.0)));
    assert_eq!(fx(1.00), a.compare(fx(1.0), fx(0.0)));
    assert_eq!(fx(1.00), a.compare(fx(2.0), fx(0.0)));
    assert_eq!(fx(0.00), a.compare(fx(0.0), fx(1.0)));
    assert_eq!(fx(0.00), a.compare(fx(0.0), fx(2.0)));
}

#[test]
fn quasi_function() {
    let a = QuasiFunction { l: fx(4.0) };
    assert_eq!(fx(0.00), a.compare(fx(0.0), fx(0.0)));
    assert_eq!(fx(0.00), a.compare(fx(1.0), fx(0.0)));
    assert_eq!(fx(0.00), a.compare(fx(2.0), fx(0.0)));
    assert_eq!(fx(0.00), a.compare(fx(3.0), fx(0.0)));
    assert_eq!(fx(1.00), a.compare(fx(4.0), fx(0.0)));
    assert_eq!(fx(1.00), a.compare(fx(5.0), fx(0.0)));
}

#[test]
fn linear_function() {
    let a = LinearFunction { m: fx(4.0) };
    assert_eq!(fx(0.00), a.compare(fx(0.0), fx(0.0)));
    assert_eq!(fx(0.25), a.compare(fx(1.0), fx(0.0)));
    assert_eq!(fx(0.50), a.compare(fx(2.0), fx(0.0)));
    assert_eq!(fx(0.75), a.compare(fx(3.0), fx(0.0)));
    assert_eq!(fx(1.00), a.compare(fx(4.0), fx(0.0)));
    assert_eq!(fx(1.00), a.compare(fx(5.0), fx(0.0)));
}

#[test]
fn level_function() {
    let a = LevelFunction {
        weak_treshold: fx(2.0),
        weak_area: fx(2.0),
    };
    assert_eq!(fx(0.0), a.compare(fx(0.0), fx(0.0)));
    assert_eq!(fx(0.0), a.compare(fx(1.0), fx(0.0)));
    assert_eq!(fx(0.0), a.compare(fx(2.0), fx(0.0)));
    assert_eq!(fx(0.5), a.compare(fx(3.0), fx(0.0)));
    assert_eq!(fx(0.5), a.compare(fx(4.0), fx(0.0)));
    assert_eq!(fx(1.0), a.compare(fx(5.0), fx(0.0)));
}

#[test]
fn linear_with_indiference_function() {
    let a = LinearWithIndeferenceFunction {
        indiference_threshold: fx(2.0),
        linear_area: fx(2.0),
    };
    assert_eq!(fx(0.0), a.compare(fx(0.0), fx(0.0)));
    assert_eq!(fx(0.0), a.compare(fx(1.0), fx(0.0)));
    assert_eq!(fx(0.0), a.compare(fx(2.0), fx(0.0)));
    assert_eq!(fx(0.5), a.compare(fx(3.0), fx(0.0)));
    assert_eq!(fx(1.0), a.compare(fx(4.0), fx(0.0)));
    assert_eq!(fx(1.0), a.compare(fx(5.0), fx(0.0)));
}

#[test]
fn linear_rounds_toward_zero() {
    // 1 / 3 of full preference, cut after twelve places.
    let a = LinearFunction { m: fx(3.0) };
    assert_eq!(333_333_333_333, a.compare(fx(1.0), fx(0.0)).to_raw());
    assert_eq!(666_666_666_666, a.compare(fx(2.0), fx(0.0)).to_raw());
}

#[test]
fn linear_with_indifference_rounds_toward_zero() {
    let a = LinearWithIndeferenceFunction {
        indiference_threshold: fx(1.0),
        linear_area: fx(3.0),
    };
    assert_eq!(333_333_333_333, a.compare(fx(2.0), fx(0.0)).to_raw());
}

#[test]
fn level_with_negative_area_jumps_to_full() {
    let a = LevelFunction {
        weak_treshold: fx(2.0),
        weak_area: fx(-1.0),
    };
    assert_eq!(fx(0.0), a.compare(fx(2.0), fx(0.0)));
    assert_eq!(fx(1.0), a.compare(fx(2.5), fx(0.0)));
}

#[test]
fn linear_with_nonpositive_threshold_is_usual() {
    let a = LinearFunction { m: fx(0.0) };
    assert_eq!(fx(1.0), a.compare(fx(0.001), fx(0.0)));
    assert_eq!(fx(0.0), a.compare(fx(0.0), fx(0.001)));
}

#[test]
fn preference_function_dispatches() {
    let fs = vec![
        PreferenceFunction::Usual(UsualFunction {}),
        PreferenceFunction::Quasi(QuasiFunction { l: fx(4.0) }),
        PreferenceFunction::Linear(LinearFunction { m: fx(4.0) }),
        PreferenceFunction::Level(LevelFunction { weak_treshold: fx(2.0), weak_area: fx(2.0) }),
        PreferenceFunction::LinearWithIndeference(LinearWithIndeferenceFunction {
            indiference_threshold: fx(2.0),
            linear_area: fx(2.0),
        }),
    ];
    let want = [1.0, 0.0, 0.75, 0.5, 0.5];
    for (f, w) in fs.iter().zip(want.iter()) {
        assert_eq!(fx(*w), f.compare(fx(3.0), fx(0.0)));
    }
}

#[test]
fn no_preference_unless_better() {
    let fs = vec![
        PreferenceFunction::Usual(UsualFunction {}),
        PreferenceFunction::Quasi(QuasiFunction { l: fx(-4.0) }),
        PreferenceFunction::Linear(LinearFunction { m: fx(-4.0) }),
        PreferenceFunction::Level(LevelFunction { weak_treshold: fx(-2.0), weak_area: fx(2.0) }),
        PreferenceFunction::LinearWithIndeference(LinearWithIndeferenceFunction {
            indiference_threshold: fx(-2.0),
            linear_area: fx(2.0),
        }),
    ];
    for f in fs.iter() {
        assert_eq!(fx(0.0), f.compare(fx(1.0), fx(1.0)));
        assert_eq!(fx(0.0), f.compare(fx(1.0), fx(3.0)));
    }
}

#[test]
fn preference_grows_with_the_difference() {
    let f = PreferenceFunction::LinearWithIndeference(LinearWithIndeferenceFunction {
        indiference_threshold: fx(1.0),
        linear_area: fx(7.0),
    });
    let mut last = fx(0.0);
    for d in 0..12 {
        let p = f.compare(fx(d as f64 * 0.75), fx(0.0));
        assert!(p.to_raw() >= last.to_raw());
        assert!(p.to_raw() <= 1_000_000_000_000);
        last = p;
    }
    assert_eq!(fx(1.0), last);
}
