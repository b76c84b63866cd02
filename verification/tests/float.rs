use rsllm::float::arith::{fabs, fadd, fdiv, finite, fmul, fneg, from_i64, from_u64, fsub, nan};
use rsllm::float::fold::{dot_of, highest_of, lower, scale, total_of};
use rsllm::float::fused::ffma;
use rsllm::float::integer::{ceil, floor, to_byte};
use rsllm::float::order::{feq, fle, flt};

fn samples() -> Vec<u32> {
    let mut all = vec![
        0, 1, 2, 0x007F_FFFF, 0x0080_0000, 0x3F80_0000, 0x3F80_0001, 0x7F7F_FFFF, 0x7F80_0000,
        0x7FC0_0000, 0x4B00_0000, 0x4B80_0000, 0x3F00_0000, 0x4020_0000, 0x0100_0000,
    ];
    for i in 0..all.len() {
        all.push(all[i] | 0x8000_0000);
    }
    let mut s: u64 = 0x9E37_79B9;
    for i in 0..400u32 {
        s = s.wrapping_mul(6_364_136_223_846_793_005).wrapping_add(1_442_695_040_888_963_407);
        let r = (s >> 32) as u32;
        all.push(r);
        if i % 2 == 0 {
            all.push((r & 0x83FF_FFFF) | 0x3C00_0000);
        }
    }
    all
}

fn same(got: u32, want: f32) -> bool {
    got == want.to_bits() || (nan(got) && want.is_nan())
}

#[test]
fn arithmetic_is_that_of_single_precision() {
    let all = samples();
    for &a in &all {
        let x = f32::from_bits(a);
        assert!(same(fneg(a), -x) && same(fabs(a), x.abs()));
        assert_eq!(finite(a), x.is_finite());
        assert!(same(floor(a), x.floor()) && same(ceil(a), x.ceil()), "{x}");
        for &b in &all {
            let y = f32::from_bits(b);
            assert!(same(fadd(a, b), x + y), "{x} + {y}");
            assert!(same(fsub(a, b), x - y), "{x} - {y}");
            assert!(same(fmul(a, b), x * y), "{x} * {y}");
            assert!(same(fdiv(a, b), x / y), "{x} / {y}");
            assert_eq!(flt(a, b), x < y);
            assert_eq!(fle(a, b), x <= y);
            assert_eq!(feq(a, b), x == y);
        }
    }
}

#[test]
fn fused_arithmetic_rounds_once() {
    let all = samples();
    let mut s: u64 = 1;
    for &a in &all {
        for &b in &all {
            s = s.wrapping_mul(6_364_136_223_846_793_005).wrapping_add(1);
            let c = all[(s >> 33) as usize % all.len()];
            let (x, y, z) = (f32::from_bits(a), f32::from_bits(b), f32::from_bits(c));
            assert!(same(ffma(a, b, c), x.mul_add(y, z)), "{x} * {y} + {z}");
            let near = fneg(fmul(a, b));
            assert!(same(ffma(a, b, near), x.mul_add(y, f32::from_bits(near))), "{x} * {y}");
        }
    }
}

#[test]
fn integers_round_to_the_nearest() {
    for shift in 0..64 {
        for d in [0u64, 1, 2, 3, 5, 127, 128, 129, 255] {
            let n = (1u64 << shift).wrapping_add(d << (shift / 3));
            assert_eq!(from_u64(n), (n as f32).to_bits());
            assert_eq!(from_i64(n as i64), (n as i64 as f32).to_bits());
        }
    }
    for (x, want) in [(0.0f32, 0i8), (1.9, 2), (-1.9, -2), (2.5, 2), (300.0, 127), (-300.0, -128)] {
        assert_eq!(to_byte(x.to_bits()), want);
        assert_eq!(x.round_ties_even() as i8, want);
    }
    assert_eq!(to_byte(f32::NAN.to_bits()), 0);
}

#[test]
fn sums_run_from_left_to_right() {
    let values = [1.0f32, 1e8, -1e8, 0.25, 3.0];
    let all: Vec<u32> = values.iter().map(|x| x.to_bits()).collect();
    assert_eq!(f32::from_bits(total_of(&all)), values.iter().sum::<f32>());
    let high = f32::from_bits(highest_of(&all, f32::NEG_INFINITY.to_bits()));
    assert_eq!(high, 1e8);
    let two = 2.0f32.to_bits();
    assert_eq!(f32::from_bits(scale(&all, two)[3]), 0.5);
    assert_eq!(f32::from_bits(lower(&all, two)[4]), 1.0);
    let mut dot = 0.0f32;
    for i in 0..3 {
        dot += values[1 + i] * values[2 + i];
    }
    assert_eq!(f32::from_bits(dot_of(&all, 1, &all, 2, 3)), dot);
}

#[test]
fn operations_keep_the_order() {
    let one = 1.0f32.to_bits();
    let mut all = samples();
    all.retain(|x| finite(*x));
    for c in all.iter().step_by(29) {
        for pair in all.windows(2) {
            let (a, b) = if fle(pair[0], pair[1]) { (pair[0], pair[1]) } else { (pair[1], pair[0]) };
            assert!(fle(fadd(a, *c), fadd(b, *c)));
            assert!(fle(fmul(a, fabs(*c)), fmul(b, fabs(*c))));
            assert_eq!(fadd(a, b), fadd(b, a));
            assert_eq!(fmul(a, b), fmul(b, a));
        }
    }
    for x in all {
        assert_eq!(fmul(x, one), x);
        assert!(feq(fadd(x, 0), x) && feq(fmul(x, 0), 0));
        // A number times its rounded inverse never exceeds one.
        let m = fabs(x);
        if (0x0080_0000..=0x7E80_0000).contains(&m) {
            assert!(fle(fmul(m, fdiv(one, m)), one));
        }
    }
}
