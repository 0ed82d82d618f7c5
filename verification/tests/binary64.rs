use ghost_hunter::binary64::Binary64;

fn b(x: f64) -> Binary64 {
    Binary64 { bits: x.to_bits() }
}

fn same(ours: Binary64, theirs: f64) {
    if theirs.is_nan() {
        assert!(ours.is_nan());
    } else {
        assert_eq!(ours.bits, theirs.to_bits());
    }
}

fn specials() -> Vec<f64> {
    vec![
        0.0,
        -0.0,
        1.0,
        -1.0,
        0.1,
        0.72,
        50.0,
        1.5,
        3.0,
        1e6,
        2.5e11,
        f64::MIN_POSITIVE,
        -f64::MIN_POSITIVE,
        f64::from_bits(1),
        f64::from_bits(0x000f_ffff_ffff_ffff),
        f64::from_bits(0x8000_0000_0000_0001),
        f64::MAX,
        f64::MIN,
        f64::EPSILON,
        f64::INFINITY,
        f64::NEG_INFINITY,
        f64::NAN,
        9007199254740992.0,
        9007199254740993.0,
        18446744073709551615.0,
        1.0 + f64::EPSILON,
        1.0 - f64::EPSILON / 2.0,
    ]
}

fn word(state: &mut u64) -> u64 {
    *state ^= *state << 13;
    *state ^= *state >> 7;
    *state ^= *state << 17;
    *state
}

fn operations(x: f64, y: f64) {
    same(b(x).sum(b(y)), x + y);
    same(b(x).difference(b(y)), x - y);
    same(b(x).product(b(y)), x * y);
    same(b(x).quotient(b(y)), x / y);
    assert_eq!(b(x).lt(b(y)), x < y);
    assert_eq!(b(x).le(b(y)), x <= y);
}

#[test]
fn operations_on_special_values() {
    for x in specials() {
        for y in specials() {
            operations(x, y);
        }
        same(b(x).square_root(), x.sqrt());
        same(b(x).negate(), -x);
        assert_eq!(b(x).is_nan(), x.is_nan());
        assert_eq!(b(x).is_finite(), x.is_finite());
        assert_eq!(b(x).is_negative(), x.is_sign_negative());
        assert_eq!(b(x).to_u64(), x as u64);
        assert_eq!(b(x).to_u32(), x as u32);
    }
}

#[test]
fn operations_on_arbitrary_patterns() {
    let mut state: u64 = 0x9e37_79b9_7f4a_7c15;
    for _ in 0..20_000 {
        let x = f64::from_bits(word(&mut state));
        let y = f64::from_bits(word(&mut state));
        operations(x, y);
        same(b(x).square_root(), x.sqrt());
        assert_eq!(b(x).to_u64(), x as u64);
        assert_eq!(b(x).to_u32(), x as u32);
    }
}

#[test]
fn operations_on_close_exponents() {
    let mut state: u64 = 0x2545_f491_4f6c_dd1d;
    for i in 0..40_000u64 {
        let x = f64::from_bits((word(&mut state) >> 12) | ((1000 + i % 60) << 52));
        let bits = (word(&mut state) >> 12) | ((1000 + (i / 60) % 60) << 52);
        let y = if i % 2 == 0 { f64::from_bits(bits) } else { -f64::from_bits(bits) };
        operations(x, y);
        same(b(x).square_root(), x.sqrt());
        assert_eq!(b(x).to_u64(), x as u64);
    }
}

#[test]
fn operations_on_subnormal_and_huge_results() {
    let mut state: u64 = 0x1234_5678_9abc_def1;
    for i in 0..20_000u64 {
        let x = f64::from_bits((word(&mut state) >> 12) | ((500 + i % 30) << 52));
        let y = f64::from_bits((word(&mut state) >> 12) | ((500 + (i / 30) % 60) << 52));
        operations(x, y);
        let small = f64::from_bits(word(&mut state) >> 11);
        operations(small, x);
        operations(x, small);
        operations(small, f64::from_bits(word(&mut state) >> 12));
        same(b(small).square_root(), small.sqrt());
        let huge = f64::from_bits((word(&mut state) >> 12) | ((1500 + i % 60) << 52));
        operations(huge, huge);
        operations(huge, x);
    }
}

#[test]
fn integers_convert_to_the_nearest_number() {
    let mut state: u64 = 77;
    for x in [0u64, 1, 2, 3, 1 << 53, (1 << 53) + 1, (1 << 53) + 3, u64::MAX, u64::MAX - 1024] {
        assert_eq!(Binary64::from_u64(x).bits, (x as f64).to_bits());
    }
    for i in 0..20_000u32 {
        let x = word(&mut state) >> (i % 64);
        assert_eq!(Binary64::from_u64(x).bits, (x as f64).to_bits());
        assert_eq!(Binary64::from_u64(x).to_u64(), (x as f64) as u64);
    }
}

#[test]
fn clamp_keeps_the_bounds() {
    for x in specials() {
        same(b(x).clamp(b(0.0), b(1.0)), x.clamp(0.0, 1.0));
        same(b(x).clamp(b(0.1), b(50.0)), x.clamp(0.1, 50.0));
    }
    assert_eq!(b(-3.0).clamp(b(0.1), b(50.0)).bits, 0.1f64.to_bits());
    assert_eq!(b(60.0).clamp(b(0.1), b(50.0)).bits, 50.0f64.to_bits());
}

#[test]
fn ties_round_to_even() {
    assert_eq!(Binary64::from_u64((1 << 53) + 1).to_u64(), 1 << 53);
    assert_eq!(Binary64::from_u64((1 << 53) + 3).to_u64(), (1 << 53) + 4);
    assert_eq!(b(0.1).sum(b(0.2)).bits, 0.30000000000000004f64.to_bits());
    assert_eq!(b(2.0).square_root().bits, std::f64::consts::SQRT_2.to_bits());
}
