use hl_oracle::float::Binary64;

fn number(value: f64) -> Binary64 {
    Binary64 { bits: value.to_bits() }
}

fn agree(ours: Binary64, theirs: f64) -> bool {
    ours.bits == theirs.to_bits() || (f64::from_bits(ours.bits).is_nan() && theirs.is_nan())
}

fn interesting() -> Vec<f64> {
    let mut values = vec![
        0.0,
        1.0,
        1.5,
        0.1,
        3.0,
        1e9,
        1e-5,
        600.0,
        5e-324,
        1e-310,
        f64::MIN_POSITIVE,
        f64::EPSILON,
        f64::MAX,
        f64::INFINITY,
        f64::NAN,
        1.0 + f64::EPSILON,
        9007199254740993.0,
        0.30000000000000004,
        123456.789,
    ];
    let mut state: u64 = 0x9e37_79b9_7f4a_7c15;
    for _ in 0..40 {
        state ^= state << 13;
        state ^= state >> 7;
        state ^= state << 17;
        values.push(f64::from_bits(state & 0x7fff_ffff_ffff_ffff));
    }
    let negative: Vec<f64> = values.iter().map(|value| -value).collect();
    values.extend(negative);
    values
}

#[test]
fn operations_round_like_the_hardware() {
    for left in interesting() {
        for right in interesting() {
            let (a, b) = (number(left), number(right));
            assert!(agree(a.plus(b), left + right), "{} + {}", left, right);
            assert!(agree(a.minus(b), left - right), "{} - {}", left, right);
            assert!(agree(a.times(b), left * right), "{} * {}", left, right);
            assert!(agree(a.over(b), left / right), "{} / {}", left, right);
        }
    }
}

#[test]
fn comparisons_match() {
    for left in interesting() {
        for right in interesting() {
            let (a, b) = (number(left), number(right));
            assert_eq!(a.is_below(b), left < right);
            assert_eq!(a.is_at_most(b), left <= right);
            assert_eq!(a.is_equal(b), left == right);
            assert_eq!(a.total_order() < b.total_order(), left.total_cmp(&right).is_lt());
        }
    }
}

#[test]
fn roots_and_signs() {
    for value in interesting() {
        let a = number(value);
        assert!(agree(a.root(), value.sqrt()), "root of {}", value);
        assert_eq!(a.negated().bits, (-value).to_bits());
        assert_eq!(a.absolute().bits, value.abs().to_bits());
        assert_eq!(a.is_finite(), value.is_finite());
        assert_eq!(a.is_positive_finite(), value.is_finite() && value > 0.0);
    }
}

#[test]
fn whole_numbers_and_midpoints() {
    for value in [0, 1, 2, 3, 299, u64::MAX, u64::MAX - 1, 1 << 53, (1 << 53) + 1, (1 << 54) + 3] {
        assert_eq!(Binary64::from_u64(value).bits, (value as f64).to_bits());
    }
    for left in interesting() {
        for right in interesting() {
            if left.is_finite() && right.is_finite() && left.is_sign_positive() && right.is_sign_positive() {
                let middle = number(left).midpoint(number(right));
                assert_eq!(middle.bits, f64::midpoint(left, right).to_bits());
            }
        }
    }
}
