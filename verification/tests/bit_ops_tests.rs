use bch_codec::bch_bitvec::BCHBitVec;
use bch_codec::bits::BitVec;
use bch_codec::bitvec_operations::finite_multiply_bitvecs;
use bch_codec::bitvec_operations::remainder_divide;
use bch_codec::bitvec_operations::shift_cyclic;
use bch_codec::bitvec_operations::truncate;

fn bv_ops(bits: &[u8]) -> BitVec {
    let v: Vec<bool> = bits.iter().map(|&b| b == 1).collect();
    BitVec::from_bools(&v)
}

#[test]
fn precede_with_zeros() {
    let mut vec = bv_ops(&[1, 0]);
    vec.precede_with_zeros(2);
    let expected = bv_ops(&[0, 0, 1, 0]);
    assert_eq!(vec, expected);
}

#[test]
fn finite_multiply_test_when_self_shorter_than_multiplier() {
    let vec = bv_ops(&[1, 0, 1]);
    let multiplier = bv_ops(&[1, 0, 0, 1]);
    let expected = bv_ops(&[1, 1, 0, 0]);
    let result = vec.finite_add(&multiplier);
    assert_eq!(expected, result);
}

#[test]
fn finite_multiply_test_when_multiplier_shorter() {
    let multiplier = bv_ops(&[1, 0, 1]);
    let vec = bv_ops(&[1, 0, 0, 1]);
    let expected = bv_ops(&[1, 1, 0, 0]);
    let result = vec.finite_add(&multiplier);
    assert_eq!(expected, result);
}

#[test]
fn bch_bitvec_shift_cyclic_test() {
    let mut vec = bv_ops(&[1, 0, 1, 1]);
    vec.shift_cyclic(2);
    assert_eq!(vec, bv_ops(&[1, 1, 1, 0]));

    let mut vec = bv_ops(&[1, 0, 1, 1]);
    vec.shift_cyclic(4);
    assert_eq!(vec, bv_ops(&[1, 0, 1, 1]));

    let mut vec = bv_ops(&[1, 0, 1, 1]);
    vec.shift_cyclic(0);
    assert_eq!(vec, bv_ops(&[1, 0, 1, 1]));

    let mut vec = bv_ops(&[1, 0, 1, 1, 1]);
    vec.shift_cyclic(-1);
    assert_eq!(vec, bv_ops(&[1, 1, 0, 1, 1]));

    let mut vec = bv_ops(&[1, 0, 1, 1, 1]);
    vec.shift_cyclic(1);
    assert_eq!(vec, bv_ops(&[0, 1, 1, 1, 1]));
}

#[test]
fn bch_bitvec_remainder_divide_test_1() {
    let vec = bv_ops(&[1, 1, 0, 0, 1, 1]);
    let divisor = bv_ops(&[1, 0, 1, 1]);
    let expected = bv_ops(&[0, 1, 0]);
    let result = vec.remainder_divide(&divisor).unwrap();
    assert_eq!(expected, result);
}

#[test]
fn bch_bitvec_remainder_divide_test_2() {
    let vec = bv_ops(&[1, 1, 0, 0, 1, 1]);
    let divisor = bv_ops(&[1, 1, 0, 1]);
    let expected = bv_ops(&[1, 1, 1]);
    let result = vec.remainder_divide(&divisor).unwrap();
    assert_eq!(expected, result);
}

#[test]
fn bch_bitvec_remainder_divide_test_3() {
    let vec = bv_ops(&[0, 1, 1, 1, 0, 1, 1]);
    let divisor = bv_ops(&[1, 0, 1, 1]);
    let expected = bv_ops(&[0, 0, 1]);
    let result = vec.remainder_divide(&divisor).unwrap();
    assert_eq!(expected, result);
}

#[test]
fn bch_bitvec_remainder_divide_test_4() {
    let vec = bv_ops(&[1, 0, 0, 1, 0, 0, 0]);
    let divisor = bv_ops(&[0, 0, 1, 1]);
    let expected = bv_ops(&[0]);
    let result = vec.remainder_divide(&divisor).unwrap();
    assert_eq!(expected, result);
}

#[test]
fn truncate_preceding_zeros() {
    let mut vec = bv_ops(&[0, 0, 1, 1]);
    let expected = bv_ops(&[1, 1]);
    vec.truncate_preceding_zeros();
    assert_eq!(expected, vec);

    let mut vec = bv_ops(&[1, 1]);
    let expected = bv_ops(&[1, 1]);
    vec.truncate_preceding_zeros();
    assert_eq!(expected, vec);

    let mut vec = bv_ops(&[0, 0]);
    let expected = bv_ops(&[]);
    vec.truncate_preceding_zeros();
    assert_eq!(expected, vec);
}

#[test]
fn bitvec_operations_shift_cyclic_test() {
    let mut vec = bv_ops(&[1, 0, 1, 1]);
    shift_cyclic(&mut vec, 2);
    assert_eq!(vec, bv_ops(&[1, 1, 1, 0]));

    let mut vec = bv_ops(&[1, 0, 1, 1]);
    shift_cyclic(&mut vec, 4);
    assert_eq!(vec, bv_ops(&[1, 0, 1, 1]));

    let mut vec = bv_ops(&[1, 0, 1, 1]);
    shift_cyclic(&mut vec, 0);
    assert_eq!(vec, bv_ops(&[1, 0, 1, 1]));

    let mut vec = bv_ops(&[1, 0, 1, 1, 1]);
    shift_cyclic(&mut vec, -1);
    assert_eq!(vec, bv_ops(&[1, 1, 0, 1, 1]));

    let mut vec = bv_ops(&[1, 0, 1, 1, 1]);
    shift_cyclic(&mut vec, 1);
    assert_eq!(vec, bv_ops(&[0, 1, 1, 1, 1]));
}

#[test]
fn bitvec_operations_finite_multiply_bitvecs_test() {
    let to_multiply = vec![
        bv_ops(&[1, 0, 1, 1, 0]),
        bv_ops(&[1, 1, 0, 1]),
        bv_ops(&[1, 1]),
    ];
    let expected = bv_ops(&[1, 0, 0, 0, 0, 0, 0, 1, 0]);
    let result = finite_multiply_bitvecs(&to_multiply);
    assert_eq!(expected, result);
}

#[test]
fn bitvec_operations_remainder_divide_test_1() {
    let dividend = bv_ops(&[1, 1, 0, 0, 1, 1]);
    let divisor = bv_ops(&[1, 0, 1, 1]);
    let expected = bv_ops(&[0, 1, 0]);
    let result = remainder_divide(&dividend, &divisor).unwrap();
    assert_eq!(expected, result);
}

#[test]
fn bitvec_operations_remainder_divide_test_2() {
    let dividend = bv_ops(&[1, 1, 0, 0, 1, 1]);
    let divisor = bv_ops(&[1, 1, 0, 1]);
    let expected = bv_ops(&[1, 1, 1]);
    let result = remainder_divide(&dividend, &divisor).unwrap();
    assert_eq!(expected, result);
}

#[test]
fn bitvec_operations_remainder_divide_test_3() {
    let dividend = bv_ops(&[0, 1, 1, 1, 0, 1, 1]);
    let divisor = bv_ops(&[1, 0, 1, 1]);
    let expected = bv_ops(&[0, 0, 1]);
    let result = remainder_divide(&dividend, &divisor).unwrap();
    assert_eq!(expected, result);
}

#[test]
fn bitvec_operations_remainder_divide_test_4() {
    let dividend = bv_ops(&[1, 0, 0, 1, 0, 0, 0]);
    let divisor = bv_ops(&[1, 0, 1, 1]);
    let expected = bv_ops(&[1, 1, 0]);
    let result = remainder_divide(&dividend, &divisor).unwrap();
    assert_eq!(expected, result);
}

#[test]
fn truncate_test() {
    let vec = bv_ops(&[0, 0, 1, 1]);
    let expected = bv_ops(&[1, 1]);
    let result = truncate(vec);
    assert_eq!(expected, result);

    let vec = bv_ops(&[1, 1]);
    let expected = bv_ops(&[1, 1]);
    let result = truncate(vec);
    assert_eq!(expected, result);

    let vec = bv_ops(&[0, 0]);
    let expected = bv_ops(&[]);
    let result = truncate(vec);
    assert_eq!(expected, result);
}
