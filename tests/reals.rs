use defaults_diff::float_bits::reals_close_exec;
use defaults_diff::value::{values_equal, RealNum, Value};

fn real_value(x: f64) -> Value {
    Value::Real(RealNum { bits: x.to_bits(), text: format!("{}", x) })
}

fn float_rule(a: f64, b: f64) -> bool {
    (a - b).abs() < f64::EPSILON
}

#[test]
fn reals_within_epsilon_are_equal() {
    assert!(values_equal(&real_value(1.0), &real_value(1.0 - f64::EPSILON / 2.0)));
    assert!(!values_equal(&real_value(1.0), &real_value(1.0 + f64::EPSILON)));
    assert!(values_equal(&real_value(1e-20), &real_value(2e-20)));
    assert!(values_equal(&real_value(0.0), &real_value(-0.0)));
    assert!(!values_equal(&real_value(f64::INFINITY), &real_value(f64::INFINITY)));
    assert!(!values_equal(&real_value(f64::NAN), &real_value(f64::NAN)));
    assert!(!values_equal(&real_value(f64::MAX), &real_value(-f64::MAX)));
}

#[test]
fn exact_rule_matches_float_arithmetic() {
    let mut seeds: Vec<f64> = vec![
        0.0,
        -0.0,
        1.0,
        -1.0,
        0.5,
        2.0,
        f64::EPSILON,
        f64::EPSILON / 2.0,
        f64::MIN_POSITIVE,
        5e-324,
        f64::MAX,
        1e300,
        3.14,
        1.5e-16,
        2.2e-16,
        f64::INFINITY,
        f64::NAN,
    ];
    let mut state: u64 = 0x9e37_79b9_7f4a_7c15;
    for _ in 0..400 {
        state = state.wrapping_mul(6364136223846793005).wrapping_add(1442695040888963407);
        let exp = 900 + (state >> 33) % 160;
        let bits = (exp << 52) | (state & 0xf_ffff_ffff_ffff) | (state & (1 << 63));
        seeds.push(f64::from_bits(bits));
    }
    let mut values: Vec<f64> = Vec::new();
    for &x in &seeds {
        values.push(x);
        if x.is_finite() {
            let b = x.to_bits();
            values.push(f64::from_bits(b.wrapping_add(1)));
            values.push(f64::from_bits(b.wrapping_sub(1)));
            values.push(x + f64::EPSILON);
            values.push(x - f64::EPSILON / 2.0);
            values.push(x + 1e-17);
        }
    }
    let mut checked = 0;
    for (i, &a) in values.iter().enumerate() {
        for &b in values[i.saturating_sub(12)..(i + 12).min(values.len())].iter() {
            assert_eq!(
                reals_close_exec(a.to_bits(), b.to_bits()),
                float_rule(a, b),
                "{:e} vs {:e}",
                a,
                b
            );
            checked += 1;
        }
    }
    assert!(checked > 1000);
}
