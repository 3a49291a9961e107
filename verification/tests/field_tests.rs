use bch_codec::bits::BitVec;
use bch_codec::bitvec_operations::finite_multiply_bitvecs;
use bch_codec::common::calculate_alphas;
use bch_codec::common::create_adding_table;
use bch_codec::common::create_gen_pol;
use bch_codec::common::finite_multiply_bitvecs_vec;
use bch_codec::common::get_gen_poly;
use bch_codec::common::get_n_disjunctive_layers;

fn bv_field(bits: &[u8]) -> BitVec {
    let v: Vec<bool> = bits.iter().map(|&b| b == 1).collect();
    BitVec::from_bools(&v)
}

#[test]
fn get_gen_poly_test() {
    let prime_poly = bv_field(&[1, 0, 1, 1]);
    let degree = 3;
    let t = 2;
    let result = get_gen_poly(degree, t, &prime_poly);
    let expected = bv_field(&[1, 1, 1, 1, 1, 1, 1]);
    assert_eq!(result, expected);
}

#[test]
fn get_gen_poly_test_2() {
    let prime_poly = bv_field(&[1, 0, 1, 1]);
    let degree = 3;
    let t = 1;
    let result = get_gen_poly(degree, t, &prime_poly);
    let expected = bv_field(&[1, 0, 1, 1]);
    assert_eq!(result, expected);
}

#[test]
fn create_gen_pol_test() {
    let alphas = calculate_alphas(&bv_field(&[1, 0, 1, 1]));
    let adding_table = create_adding_table(&alphas);
    let expected = bv_field(&[1, 1, 1, 1, 1, 1, 1]);
    assert_eq!(expected, create_gen_pol(3, 2, &adding_table));
}

#[test]
fn calculate_alphas_test() {
    let alphas = calculate_alphas(&bv_field(&[1, 0, 1, 1]));
    let expected = vec![
        bv_field(&[0, 0, 0, 1]),
        bv_field(&[0, 0, 1, 0]),
        bv_field(&[0, 1, 0, 0]),
        bv_field(&[0, 0, 1, 1]),
        bv_field(&[0, 1, 1, 0]),
        bv_field(&[0, 1, 1, 1]),
        bv_field(&[0, 1, 0, 1]),
        bv_field(&[0, 0, 0, 1]),
    ];
    assert_eq!(alphas, expected);
}

#[test]
fn create_adding_table_test() {
    let alphas = calculate_alphas(&bv_field(&[1, 0, 1, 1]));
    let result = create_adding_table(&alphas);
    let expected = vec![
        vec![-1, 3, 6, 1, 5, 4, 2, -1],
        vec![3, -1, 4, 0, 2, 6, 5, 3],
        vec![6, 4, -1, 5, 1, 3, 0, 6],
        vec![1, 0, 5, -1, 6, 2, 4, 1],
        vec![5, 2, 1, 6, -1, 0, 3, 5],
        vec![4, 6, 3, 2, 0, -1, 1, 4],
        vec![2, 5, 0, 4, 3, 1, -1, 2],
        vec![-1, 3, 6, 1, 5, 4, 2, -1],
    ];
    assert_eq!(result, expected);
}

#[test]
fn get_n_disjunctive_layers_test() {
    let layers = get_n_disjunctive_layers(3, 8);
    let expected = vec![vec![1, 2, 4], vec![3, 5, 6]];
    assert_eq!(layers, expected);
}

#[test]
fn get_n_disjunctive_layers_test_2() {
    let layers = get_n_disjunctive_layers(5, 32);
    let expected = vec![
        vec![1, 2, 4, 8, 16],
        vec![3, 6, 12, 17, 24],
        vec![5, 9, 10, 18, 20],
        vec![7, 14, 19, 25, 28],
    ];
    assert_eq!(layers, expected);
}

#[test]
fn common_finite_multiply_bitvecs_test() {
    let to_multiply = vec![
        bv_field(&[1, 0, 1, 1, 0]),
        bv_field(&[1, 1, 0, 1]),
        bv_field(&[1, 1]),
    ];
    let expected = bv_field(&[1, 0, 0, 0, 0, 0, 0, 1, 0]);
    let result = finite_multiply_bitvecs(&to_multiply);
    assert_eq!(expected, result);
}

#[test]
fn finite_multiply_bitvecs_vec_test() {
    let to_multiply = vec![
        bv_field(&[1, 1, 0, 1, 1, 0, 0, 0, 0, 1]),
        bv_field(&[1, 0, 0, 1, 1, 1, 1, 1, 0, 1]),
        bv_field(&[1, 1, 1, 1, 1, 1, 1, 0, 1, 1]),
        bv_field(&[1, 1, 0, 1, 0, 0, 1, 0, 0, 1]),
        bv_field(&[1, 1, 0, 1, 1, 0, 1, 0, 1, 1]),
        bv_field(&[1, 0, 1, 0, 1, 1, 0, 1, 1, 1]),
        bv_field(&[1, 1, 1, 0, 0, 0, 1, 1, 1, 1]),
        bv_field(&[1, 1, 1, 1, 1, 0, 1, 0, 0, 1]),
        bv_field(&[1, 0, 0, 0, 1, 0, 0, 0, 0, 1]),
        bv_field(&[1, 0, 1, 1, 0, 0, 1, 1, 1, 1]),
        bv_field(&[1, 0, 0, 0, 0, 0, 0, 0, 1, 1]),
        bv_field(&[1, 0, 1, 0, 1, 0, 0, 0, 1, 1]),
        bv_field(&[1, 1, 0, 1, 1, 0, 1, 1, 0, 1]),
        bv_field(&[1, 0, 1, 0, 1, 0, 0, 1, 0, 1]),
        bv_field(&[1, 0, 1, 0, 0, 0, 0, 1, 1, 1]),
        bv_field(&[1, 0, 0, 1, 0, 1, 1, 1, 1, 1]),
        bv_field(&[1, 0, 1, 0, 0, 1, 1, 0, 0, 1]),
        bv_field(&[1, 0, 0, 0, 1, 0, 1, 1, 0, 1]),
        bv_field(&[1, 0, 0, 1, 1, 0, 1, 1, 1, 1]),
    ];
    let expected = bv_field(&[
        1, 1, 0, 1, 0, 0, 0, 1, 1, 1, 0, 0, 0, 1, 1, 0, 0, 0, 1, 0, 0, 0, 1, 1, 1, 0, 0, 0, 0,
        1, 0, 1, 1, 1, 1, 0, 1, 1, 1, 1, 0, 1, 1, 0, 1, 0, 1, 0, 0, 1, 0, 1, 0, 1, 0, 0, 0, 1,
        1, 0, 0, 0, 1, 1, 1, 1, 1, 0, 0, 0, 0, 0, 1, 1, 1, 1, 1, 1, 1, 1, 0, 0, 0, 1, 1, 0, 1,
        1, 0, 1, 1, 1, 0, 0, 1, 0, 1, 0, 1, 0, 1, 1, 0, 0, 0, 0, 0, 0, 0, 1, 1, 1, 0, 0, 0, 1,
        1, 0, 0, 1, 1, 0, 0, 1, 1, 0, 1, 0, 0, 0, 1, 0, 0, 1, 0, 1, 1, 0, 1, 0, 1, 0, 0, 1, 1,
        0, 0, 0, 1, 0, 0, 1, 0, 0, 0, 0, 0, 1, 0, 1, 1, 1, 1, 0, 1, 0, 0, 0, 0, 1, 0, 1,
    ]);
    let result = finite_multiply_bitvecs_vec(&to_multiply);
    assert_eq!(expected, result);
}
