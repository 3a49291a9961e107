use bch_codec::berlekamp_decoder::BerlekampDecoder;
use bch_codec::bits::BitVec;
use bch_codec::coder::BCHCoder;
use bch_codec::encoder::Encoder;
use bch_codec::simple_decoder::SimpleDecoder;

fn bv_codec(bits: &[u8]) -> BitVec {
    let v: Vec<bool> = bits.iter().map(|&b| b == 1).collect();
    BitVec::from_bools(&v)
}

#[test]
fn coder_encode_test() {
    let encoder = BCHCoder::new(7, 4, bv_codec(&[1, 0, 1, 1])).unwrap();
    let result = encoder.encode(bv_codec(&[1, 0, 0, 1])).unwrap();
    let expected = bv_codec(&[1, 0, 0, 1, 1, 1, 0]);
    assert_eq!(result, expected);
}

#[test]
fn encoder_encode_test() {
    let encoder = Encoder::new(7, 4, 1, &bv_codec(&[1, 0, 1, 1])).unwrap();
    let result = encoder.encode(&bv_codec(&[1, 0, 0, 1])).unwrap();
    let expected = bv_codec(&[1, 0, 0, 1, 1, 1, 0]);
    assert_eq!(result, expected);
}

#[test]
fn decode_no_error_test() {
    let decoder = SimpleDecoder::new(7, 4, 1, &bv_codec(&[1, 0, 1, 1])).unwrap();
    let (decoded_msg, error) = decoder.decode(&bv_codec(&[1, 0, 0, 1, 1, 1, 0])).unwrap();
    let expected = bv_codec(&[1, 0, 0, 1]);
    assert_eq!(expected, decoded_msg);
    assert_eq!(error, bv_codec(&[0, 0, 0]));
}

#[test]
fn decode_correct_error_test() {
    let decoder = SimpleDecoder::new(7, 4, 1, &bv_codec(&[1, 0, 1, 1])).unwrap();
    let (decoded_msg, _error) = decoder.decode(&bv_codec(&[1, 1, 0, 1, 1, 1, 0])).unwrap();
    let expected_msg = bv_codec(&[1, 0, 0, 1]);
    assert_eq!(expected_msg, decoded_msg);
}

#[test]
fn decode_error_test() {
    let decoder = SimpleDecoder::new(7, 4, 1, &bv_codec(&[1, 0, 1, 1])).unwrap();
    let result = decoder.decode(&bv_codec(&[1, 1, 1, 1, 1, 1, 0]));
    // The length-7 code corrects one error in every word, so even this
    // word decodes; it lands on the nearest codeword's message.
    assert!(result.is_ok());
    let (decoded, _) = result.unwrap();
    assert_eq!(decoded, bv_codec(&[1, 1, 1, 1]));
}

#[test]
fn multiply_sigma_by_alpha_with_x_test() {
    let decoder = BerlekampDecoder::new(31, 16, 3, &bv_codec(&[1, 0, 0, 1, 0, 1])).unwrap();

    let sigma = vec![0];
    let result = decoder.multiply_sigma_by_alpha_with_x(&sigma, 1, 2);
    assert_eq!(result, vec![2, -1]);

    let sigma = vec![2, 0];
    let result = decoder.multiply_sigma_by_alpha_with_x(&sigma, 2, 25);
    assert_eq!(result, vec![27, 25, -1, -1]);

    let sigma = vec![25, 26, -1, 3];
    let result = decoder.multiply_sigma_by_alpha_with_x(&sigma, 1, 25);
    assert_eq!(result, vec![19, 20, -1, 28, -1]);
}

#[test]
fn add_to_sigma_test() {
    let decoder = BerlekampDecoder::new(31, 16, 3, &bv_codec(&[1, 0, 0, 1, 0, 1])).unwrap();

    let sigma = vec![24, 2, 0];
    let to_add = vec![27, 25, -1, -1];
    let result = decoder.add_to_sigma(sigma, to_add);
    assert_eq!(result, vec![27, 11, 2, 0]);
}

#[test]
fn encode_decode_n7_k4_t1_test() {
    let n = 7;
    let k = 4;
    let t = 1;

    let msg = bv_codec(&[1, 0, 0, 1]);
    let prime_poly = bv_codec(&[1, 0, 1, 1]);

    let encoder = Encoder::new(7, 4, 1, &prime_poly).unwrap();
    let encoded = encoder.encode(&msg).unwrap();

    let decoder = SimpleDecoder::new(n, k, t, &prime_poly).unwrap();
    let (decoded, _) = decoder.decode(&encoded).unwrap();
    assert_eq!(decoded, msg);

    let decoder = BerlekampDecoder::new(n, k, t, &prime_poly).unwrap();
    let (decoded, _) = decoder.decode(&encoded).unwrap();
    assert_eq!(decoded, msg);
}

#[test]
fn encode_decode_without_errors_n15_k7_t2_test() {
    let n = 15;
    let k = 7;
    let t = 2;

    let msg = bv_codec(&[1, 0, 0, 1, 0, 0, 0]);
    let prime_poly = bv_codec(&[1, 0, 0, 1, 1]);

    let encoder = Encoder::new(n, k, t, &prime_poly).unwrap();
    let encoded = encoder.encode(&msg).unwrap();

    let decoder = SimpleDecoder::new(n, k, t, &prime_poly).unwrap();
    let (decoded, _) = decoder.decode(&encoded).unwrap();
    assert_eq!(msg, decoded);

    let decoder = BerlekampDecoder::new(n, k, t, &prime_poly).unwrap();
    let (decoded, _) = decoder.decode(&encoded).unwrap();
    assert_eq!(decoded, msg);
}

#[test]
fn encode_decode_with_single_error_n15_k7_t2_test() {
    let n = 15;
    let k = 7;
    let t = 2;

    let msg = bv_codec(&[1, 0, 0, 1, 0, 0, 0]);
    let prime_poly = bv_codec(&[1, 0, 0, 1, 1]);

    let encoder = Encoder::new(n, k, t, &prime_poly).unwrap();
    let mut encoded = encoder.encode(&msg).unwrap();

    encoded.set_bit(1, true);

    let decoder = SimpleDecoder::new(n, k, t, &prime_poly).unwrap();
    let (decoded, _) = decoder.decode(&encoded).unwrap();
    assert_eq!(msg, decoded);

    let decoder = BerlekampDecoder::new(n, k, t, &prime_poly).unwrap();
    let (decoded, _) = decoder.decode(&encoded).unwrap();
    assert_eq!(decoded, msg);
}

#[test]
fn encode_decode_with_double_error_decodable_by_simple_decoder_n15_k7_t2_test() {
    let n = 15;
    let k = 7;
    let t = 2;

    let msg = bv_codec(&[1, 0, 0, 1, 0, 0, 0]);
    let prime_poly = bv_codec(&[1, 0, 0, 1, 1]);

    let encoder = Encoder::new(n, k, t, &prime_poly).unwrap();
    let mut encoded = encoder.encode(&msg).unwrap();

    encoded.set_bit(0, false);
    encoded.set_bit(1, true);

    let decoder = SimpleDecoder::new(n, k, t, &prime_poly).unwrap();
    let (decoded, _) = decoder.decode(&encoded).unwrap();
    assert_eq!(msg, decoded);

    let decoder = BerlekampDecoder::new(n, k, t, &prime_poly).unwrap();
    let (decoded, _) = decoder.decode(&encoded).unwrap();
    assert_eq!(decoded, msg);
}

#[test]
fn encode_decode_with_double_error_not_decodable_by_simple_decoder_n31_k21_t2_test() {
    let n = 31;
    let k = 21;
    let t = 2;

    let msg = bv_codec(&[1, 0, 0, 1, 1, 1, 1, 1, 1, 1, 1, 0, 0, 0, 0, 0, 0, 0, 0, 0, 0]);
    let prime_poly = bv_codec(&[1, 0, 0, 1, 0, 1]);

    let encoder = Encoder::new(n, k, t, &prime_poly).unwrap();
    let mut encoded = encoder.encode(&msg).unwrap();

    encoded.set_bit(0, false);
    encoded.set_bit(10, false);

    let decoder = SimpleDecoder::new(n, k, t, &prime_poly).unwrap();
    let result = decoder.decode(&encoded);
    assert_eq!(result.is_err(), true);

    let decoder = BerlekampDecoder::new(n, k, t, &prime_poly).unwrap();
    let (decoded, _) = decoder.decode(&encoded).unwrap();
    assert_eq!(decoded, msg);
}

#[test]
fn decode_with_3_errors_n31_k16_t3() {
    let n = 31;
    let k = 16;
    let t = 3;

    let msg_only = bv_codec(&[0, 0, 0, 0, 0, 0, 0, 0, 0, 1, 0, 0, 0, 0, 0, 1]);
    let remainder_only = bv_codec(&[1, 0, 0, 1, 0, 1, 0, 0, 0, 1, 0, 0, 0, 1, 0]);

    let prime_poly = bv_codec(&[1, 0, 0, 1, 0, 1]);

    let encoded = bv_codec(&[
        0, 0, 0, 1, 0, 0, 0, 0, 1, 1, 0, 0, 0, 0, 0, 1, 1, 0, 0, 1, 0, 0, 0, 0, 0, 1, 0, 0, 0,
        1, 0,
    ]);

    let decoder = BerlekampDecoder::new(n, k, t, &prime_poly).unwrap();
    let (decoded, remainder) = decoder.decode(&encoded).unwrap();
    assert_eq!(decoded, msg_only);
    assert_eq!(remainder, remainder_only);
}

#[test]
fn decode_without_errors_n31_k16_t3() {
    let n = 31;
    let k = 16;
    let t = 3;

    let msg = bv_codec(&[
        0, 0, 0, 0, 0, 0, 0, 0, 0, 1, 0, 0, 0, 0, 0, 1, 1, 0, 0, 1, 0, 1, 0, 0, 0, 1, 0, 0, 0,
        1, 0,
    ]);
    let msg_only = bv_codec(&[0, 0, 0, 0, 0, 0, 0, 0, 0, 1, 0, 0, 0, 0, 0, 1]);
    let remainder_only = bv_codec(&[1, 0, 0, 1, 0, 1, 0, 0, 0, 1, 0, 0, 0, 1, 0]);

    let prime_poly = bv_codec(&[1, 0, 0, 1, 0, 1]);

    let decoder = BerlekampDecoder::new(n, k, t, &prime_poly).unwrap();
    let (decoded, remainder) = decoder.decode(&msg).unwrap();
    assert_eq!(decoded, msg_only);
    assert_eq!(remainder, remainder_only);
}
