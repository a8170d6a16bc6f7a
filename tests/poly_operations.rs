use poly_chips::chips::{
    constrain_division, poly_add, poly_divide_by_cyclo, poly_mul_diff_deg, poly_mul_equal_deg, poly_reduce,
    poly_scalar_mul,
};
use poly_chips::circuit::{Session, Wire};
use poly_chips::poly::{bit_length, div_euclid, pad_remainder};
use halo2_base::utils::testing::base_test;
use halo2_base::halo2_proofs::halo2curves::bn256::Fr;
use halo2_base::halo2_proofs::plonk::Assigned;

fn load(s: &mut Session, vs: &[u64]) -> Vec<Wire> {
    s.witnesses(&vs.to_vec())
}

fn vals(p: &[Wire]) -> Vec<u128> {
    p.iter().map(|w| w.value()).collect()
}

#[test]
fn add_coefficient_wise() {
    let mut s = Session::new(8);
    let a = load(&mut s, &[1, 2, 3]);
    let b = load(&mut s, &[4, 5, 6]);
    let c = poly_add::<2>(&mut s, a, b);
    assert_eq!(vals(&c), vec![5, 7, 9]);
}

#[test]
fn add_degree_zero() {
    let mut s = Session::new(8);
    let a = load(&mut s, &[0]);
    let b = load(&mut s, &[u64::MAX]);
    let c = poly_add::<0>(&mut s, a, b);
    assert_eq!(vals(&c), vec![u64::MAX as u128]);
}

#[test]
fn scalar_mul_coefficient_wise() {
    let mut s = Session::new(8);
    let a = load(&mut s, &[2, 3]);
    let k = s.witness(5);
    let c = poly_scalar_mul::<1>(&mut s, a, k);
    assert_eq!(vals(&c), vec![10, 15]);
}

#[test]
fn scalar_mul_by_zero() {
    let mut s = Session::new(8);
    let a = load(&mut s, &[7, 8, 9]);
    let k = s.witness(0);
    let c = poly_scalar_mul::<2>(&mut s, a, k);
    assert_eq!(vals(&c), vec![0, 0, 0]);
}

#[test]
fn mul_equal_deg_convolution() {
    // (x + 2)(3x + 4) = 3x^2 + 10x + 8
    let mut s = Session::new(8);
    let a = load(&mut s, &[1, 2]);
    let b = load(&mut s, &[3, 4]);
    let c = poly_mul_equal_deg::<1>(&mut s, a, b);
    assert_eq!(vals(&c), vec![3, 10, 8]);
}

#[test]
fn mul_diff_deg_convolution() {
    // (x + 2)(x^3 + 1) = x^4 + 2x^3 + x + 2
    let mut s = Session::new(8);
    let a = load(&mut s, &[1, 2]);
    let b = load(&mut s, &[1, 0, 0, 1]);
    let c = poly_mul_diff_deg(&mut s, a, b);
    assert_eq!(vals(&c), vec![1, 2, 0, 1, 2]);
}

#[test]
fn mul_paths_agree_on_equal_degrees() {
    let mut s = Session::new(8);
    let a1 = load(&mut s, &[1, 2, 3]);
    let b1 = load(&mut s, &[4, 5, 6]);
    let a2 = load(&mut s, &[1, 2, 3]);
    let b2 = load(&mut s, &[4, 5, 6]);
    let eq = poly_mul_equal_deg::<2>(&mut s, a1, b1);
    let diff = poly_mul_diff_deg(&mut s, a2, b2);
    assert_eq!(vals(&eq), vec![4, 13, 28, 27, 18]);
    assert_eq!(vals(&eq), vals(&diff));
}

#[test]
fn mul_degree_zero() {
    let mut s = Session::new(8);
    let a = load(&mut s, &[6]);
    let b = load(&mut s, &[7]);
    let c = poly_mul_equal_deg::<0>(&mut s, a, b);
    assert_eq!(vals(&c), vec![42]);
}

#[test]
fn reduce_modulo_q() {
    let mut s = Session::new(8);
    let a = load(&mut s, &[20, 5]);
    let r = poly_reduce::<1, 17>(&mut s, a, 5);
    assert_eq!(vals(&r), vec![3, 5]);
}

#[test]
fn reduce_is_idempotent() {
    let mut s = Session::new(8);
    let a = load(&mut s, &[100, 17, 16, 0]);
    let once = poly_reduce::<3, 17>(&mut s, a, 7);
    assert_eq!(vals(&once), vec![15, 0, 16, 0]);
    let twice = poly_reduce::<3, 17>(&mut s, once.clone(), 7);
    assert_eq!(vals(&twice), vals(&once));
}

#[test]
fn divide_by_cyclo_scenario() {
    // x^4 + 2x^3 + 3x^2 + 4x + 5 = (x + 2)(x^3 + 1) + 3x^2 + 3x + 3
    let mut s = Session::new(8);
    let dividend = load(&mut s, &[1, 2, 3, 4, 5]);
    let divisor = load(&mut s, &[1, 0, 0, 1]);
    let r = poly_divide_by_cyclo::<4, 3, 11>(&mut s, dividend, divisor);
    assert_eq!(vals(&r), vec![0, 0, 3, 3, 3]);
}

#[test]
fn divide_by_cyclo_negative_adjustment() {
    // 3x^4 + x = 3x (x^3 + 1) + (x - 3x), and -2x is 9x modulo 11
    let mut s = Session::new(8);
    let dividend = load(&mut s, &[3, 0, 0, 1, 0]);
    let divisor = load(&mut s, &[1, 0, 0, 1]);
    let r = poly_divide_by_cyclo::<4, 3, 11>(&mut s, dividend, divisor);
    assert_eq!(vals(&r), vec![0, 0, 0, 9, 0]);
}

#[test]
fn long_division_scenario() {
    let (q, r) = div_euclid(&vec![1, 2, 3, 4, 5], &vec![1, 0, 0, 1], 11);
    assert_eq!(q, vec![1, 2]);
    assert_eq!(r, vec![3, 3, 3]);
}

#[test]
fn long_division_wraps_negative_coefficients() {
    let (q, r) = div_euclid(&vec![3, 0, 0, 1, 0], &vec![1, 0, 0, 1], 11);
    assert_eq!(q, vec![3, 0]);
    assert_eq!(r, vec![0, 9, 0]);
}

#[test]
fn long_division_reduces_input_coefficients() {
    let (q, r) = div_euclid(&vec![12, 13, 14], &vec![1, 1], 11);
    // x^2 + 2x + 3 = (x + 1)(x + 1) + 2
    assert_eq!(q, vec![1, 1]);
    assert_eq!(r, vec![2]);
}

#[test]
fn remainder_padding() {
    assert_eq!(pad_remainder(vec![3, 3, 3], 3, 4), vec![0, 0, 3, 3, 3]);
    assert_eq!(pad_remainder(vec![7], 3, 4), vec![0, 0, 7, 0, 0]);
}

#[test]
fn binary_length() {
    assert_eq!(bit_length(0), 1);
    assert_eq!(bit_length(1), 1);
    assert_eq!(bit_length(30), 5);
    assert_eq!(bit_length(32), 6);
    assert_eq!(bit_length(u128::MAX), 128);
}

fn with_mock_circuit(expect_satisfied: bool, build: impl FnOnce(&mut Session)) {
    base_test().k(10).lookup_bits(8).expect_satisfied(expect_satisfied).run(|ctx, range| {
        let mut s = Session::new(8);
        std::mem::swap(&mut s.raw.ctx, ctx);
        s.raw.range = range.clone();
        build(&mut s);
        std::mem::swap(&mut s.raw.ctx, ctx);
    });
}

#[test]
fn divide_by_cyclo_circuit_accepts() {
    with_mock_circuit(true, |s| {
        let dividend = load(s, &[1, 2, 3, 4, 5]);
        let divisor = load(s, &[1, 0, 0, 1]);
        let r = poly_divide_by_cyclo::<4, 3, 11>(s, dividend, divisor);
        assert_eq!(vals(&r), vec![0, 0, 3, 3, 3]);
    });
}

#[test]
fn divide_by_cyclo_circuit_accepts_negative_adjustment() {
    with_mock_circuit(true, |s| {
        let dividend = load(s, &[3, 0, 0, 1, 0]);
        let divisor = load(s, &[1, 0, 0, 1]);
        let r = poly_divide_by_cyclo::<4, 3, 11>(s, dividend, divisor);
        assert_eq!(vals(&r), vec![0, 0, 0, 9, 0]);
    });
}

#[test]
fn divide_by_cyclo_circuit_rejects_altered_dividend() {
    // The division is computed for a constant term of 5; the cell then holds 6.
    with_mock_circuit(false, |s| {
        let dividend = load(s, &[1, 2, 3, 4, 5]);
        let divisor = load(s, &[1, 0, 0, 1]);
        let _ = poly_divide_by_cyclo::<4, 3, 11>(s, dividend, divisor);
        s.raw.ctx.advice[4] = Assigned::Trivial(Fr::from(6u64));
    });
}

#[test]
fn product_circuit_accepts() {
    with_mock_circuit(true, |s| {
        let a = load(s, &[1, 2, 3]);
        let b = load(s, &[4, 5, 6]);
        let c = poly_mul_equal_deg::<2>(s, a, b);
        let k = s.witness(2);
        let d = poly_scalar_mul::<4>(s, c, k);
        let r = poly_reduce::<4, 17>(s, d, 8);
        assert_eq!(vals(&r), vec![8, 9, 5, 3, 2]);
    });
}

#[test]
fn constrain_division_accepts_true_remainder() {
    with_mock_circuit(true, |s| {
        let dividend = load(s, &[1, 2, 3, 4, 5]);
        let divisor = load(s, &[1, 0, 0, 1]);
        let quotient = load(s, &[1, 2]);
        let remainder = load(s, &[0, 0, 3, 3, 3]);
        constrain_division::<4, 3, 11>(s, &dividend, divisor, quotient, &remainder);
    });
}

#[test]
fn constrain_division_rejects_wrong_remainder() {
    with_mock_circuit(false, |s| {
        let dividend = load(s, &[1, 2, 3, 4, 5]);
        let divisor = load(s, &[1, 0, 0, 1]);
        let quotient = load(s, &[1, 2]);
        let remainder = load(s, &[0, 0, 3, 3, 4]);
        constrain_division::<4, 3, 11>(s, &dividend, divisor, quotient, &remainder);
    });
}
