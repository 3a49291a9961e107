use bch_codec::berlekamp_decoder::BerlekampDecoder;
use bch_codec::bits::BitVec;
use bch_codec::bitvec_operations::finite_multiply_bitvecs;
use bch_codec::bitvec_operations::remainder_divide;
use bch_codec::bitvec_operations::shift_cyclic;
use bch_codec::coder::BCHCoder;
use bch_codec::common::calculate_alphas;
use bch_codec::common::calculate_layer_min_pol;
use bch_codec::common::create_adding_table;
use bch_codec::common::get_n_first_layers;
use bch_codec::common::get_random_places;
use bch_codec::common::validate_params;
use bch_codec::encoder::Encoder;
use bch_codec::simple_decoder::SimpleDecoder;
use bch_codec::BchError;

fn bv_x(bits: &[u8]) -> BitVec {
    let v: Vec<bool> = bits.iter().map(|&b| b == 1).collect();
    BitVec::from_bools(&v)
}

#[test]
fn bit_vector_primitives_round_trip() {
    let mut b = bv_x(&[1, 0, 1, 0]);
    assert_eq!(b.len(), 4);
    assert_eq!(b.get_bit(0), true);
    assert_eq!(b.get_bit(1), false);
    b.set_bit(1, true);
    assert_eq!(b.to_bools(), vec![true, true, true, false]);
    assert_eq!(b.count_ones(), 3);
    b.invert_bit(0);
    assert_eq!(b.to_bools(), vec![false, true, true, false]);
    let c = b.clone_bits();
    assert!(c.eq_bits(&b));
    let d = BitVec::new();
    assert_eq!(d.len(), 0);
    let z = BitVec::zeros(3);
    assert_eq!(z.to_bools(), vec![false, false, false]);
}

#[test]
fn cyclic_shift_round_trip_scenario() {
    let original = bv_x(&[1, 0, 1, 1, 0, 0, 1]);
    let mut v = original.clone_bits();
    shift_cyclic(&mut v, 3);
    shift_cyclic(&mut v, -3);
    assert_eq!(v, original);

    let mut w = original.clone_bits();
    shift_cyclic(&mut w, 7);
    assert_eq!(w, original);
}

#[test]
fn remainder_of_product_is_zero_scenario() {
    let a = bv_x(&[1, 1, 0, 1]);
    let b = bv_x(&[1, 0, 1, 1]);
    let product = finite_multiply_bitvecs(&vec![a, b.clone_bits()]);
    let rem = remainder_divide(&product, &b).unwrap();
    assert_eq!(rem.count_ones(), 0);
    assert_eq!(rem.len(), 3);
}

#[test]
fn adding_table_round_trip_scenario() {
    let alphas = calculate_alphas(&bv_x(&[1, 0, 1, 1]));
    let table = create_adding_table(&alphas);
    for i in 0..alphas.len() {
        for j in 0..alphas.len() {
            let xa = alphas[i].to_bools();
            let xb = alphas[j].to_bools();
            let xor: Vec<bool> = xa.iter().zip(xb.iter()).map(|(p, q)| p != q).collect();
            let entry = table[i][j];
            if entry == -1 {
                assert!(xor.iter().all(|&bit| !bit));
            } else {
                assert_eq!(alphas[entry as usize].to_bools(), xor);
            }
        }
    }
}

#[test]
fn layer_min_pols_of_small_field() {
    let alphas = calculate_alphas(&bv_x(&[1, 0, 1, 1]));
    let table = create_adding_table(&alphas);
    let layers = get_n_first_layers(3, 8);
    assert_eq!(layers[0], vec![1, 2, 4]);
    assert_eq!(layers[1], vec![1, 2, 4]);
    assert_eq!(layers[2], vec![3, 5, 6]);
    assert_eq!(calculate_layer_min_pol(&layers[0], &table), bv_x(&[1, 0, 1, 1]));
    assert_eq!(calculate_layer_min_pol(&layers[2], &table), bv_x(&[1, 1, 0, 1]));
}

#[test]
fn random_places_are_distinct_and_bounded() {
    let places = get_random_places(5, 10);
    assert_eq!(places.len(), 5);
    for i in 0..places.len() {
        assert!(places[i] < 10);
        for j in 0..i {
            assert!(places[j] != places[i]);
        }
    }
    assert_eq!(get_random_places(0, 3).len(), 0);
}

#[test]
fn validate_params_accepts_and_rejects() {
    let gen = bv_x(&[1, 0, 1, 1]);
    let prime = bv_x(&[1, 0, 1, 1]);
    assert!(validate_params(7, 4, &gen, &prime).is_ok());
    assert_eq!(
        validate_params(7, 3, &gen, &prime),
        Err(BchError::InvalidParameters)
    );
    assert_eq!(
        validate_params(7, 4, &bv_x(&[0, 0, 1, 1]), &prime),
        Err(BchError::InvalidParameters)
    );
    assert_eq!(
        validate_params(7, 4, &bv_x(&[]), &prime),
        Err(BchError::InvalidParameters)
    );
}

#[test]
fn constructor_rejects_mismatched_length() {
    assert_eq!(
        Encoder::new(8, 4, 1, &bv_x(&[1, 0, 1, 1])).err(),
        Some(BchError::InvalidParameters)
    );
    assert_eq!(
        BCHCoder::new(7, 3, bv_x(&[1, 0, 1, 1])).err(),
        Some(BchError::InvalidParameters)
    );
}

#[test]
fn encode_rejects_long_message() {
    let encoder = Encoder::new(7, 4, 1, &bv_x(&[1, 0, 1, 1])).unwrap();
    let result = encoder.encode(&bv_x(&[1, 0, 0, 1, 1]));
    assert_eq!(result, Err(BchError::MessageTooLong));
}

#[test]
fn decode_rejects_long_word() {
    let decoder = SimpleDecoder::new(7, 4, 1, &bv_x(&[1, 0, 1, 1])).unwrap();
    let result = decoder.decode(&bv_x(&[1, 0, 0, 1, 1, 1, 0, 0]));
    assert_eq!(result, Err(BchError::InputTooLong));

    let decoder = BerlekampDecoder::new(7, 4, 1, &bv_x(&[1, 0, 1, 1])).unwrap();
    let result = decoder.decode(&bv_x(&[1, 0, 0, 1, 1, 1, 0, 0]));
    assert_eq!(result, Err(BchError::InputTooLong));
}

#[test]
fn division_by_zero_polynomial_is_reported() {
    let result = remainder_divide(&bv_x(&[1, 0, 1]), &bv_x(&[0, 0, 0]));
    assert_eq!(result, Err(BchError::DivisionByZero));
}

#[test]
fn short_messages_gain_their_own_parity() {
    let encoder = Encoder::new(7, 4, 1, &bv_x(&[1, 0, 1, 1])).unwrap();
    let encoded = encoder.encode(&bv_x(&[1, 1])).unwrap();
    assert_eq!(encoded.len(), 5);
    let rem = remainder_divide(&encoded, &bv_x(&[1, 0, 1, 1])).unwrap();
    assert_eq!(rem.count_ones(), 0);
}

#[test]
fn every_single_error_is_corrected_n7() {
    let prime_poly = bv_x(&[1, 0, 1, 1]);
    let msg = bv_x(&[1, 0, 1, 1]);
    let encoder = Encoder::new(7, 4, 1, &prime_poly).unwrap();
    let encoded = encoder.encode(&msg).unwrap();
    for i in 0..7 {
        let mut harmed = encoded.clone_bits();
        harmed.invert_bit(i);

        let decoder = SimpleDecoder::new(7, 4, 1, &prime_poly).unwrap();
        let (decoded, _) = decoder.decode(&harmed).unwrap();
        assert_eq!(decoded, msg);

        let decoder = BerlekampDecoder::new(7, 4, 1, &prime_poly).unwrap();
        let (decoded, _) = decoder.decode(&harmed).unwrap();
        assert_eq!(decoded, msg);
    }
}
