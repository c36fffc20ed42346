use simd_sexp::varint::{Decoder, Encoder, GenericDecoder, GenericEncoder};

fn run_test(decoded: &[usize], encoded: &[u8]) {
    let mut actual_decoded_scratch = vec![0usize; decoded.len() * 10];
    let mut actual_encoded_scratch = vec![0u8; encoded.len() * 10];
    let actual_decoded = {
        let (e, d) = GenericDecoder::new().decode(encoded, &mut actual_decoded_scratch[..]);
        assert_eq!(e, encoded.len());
        &actual_decoded_scratch[0..d]
    };
    let actual_encoded = {
        let (d, e) = GenericEncoder::new().encode(decoded, &mut actual_encoded_scratch[..]);
        assert_eq!(d, decoded.len());
        &actual_encoded_scratch[0..e]
    };
    assert_eq!(decoded, actual_decoded);
    assert_eq!(encoded, actual_encoded);
}

#[test]
fn varint_test_1() {
    let decoded = [1usize];
    let encoded = [0b00000001u8];
    run_test(&decoded, &encoded);
}

#[test]
fn varint_test_2() {
    let decoded = [300usize];
    let encoded = [0b10101100, 0b00000010];
    run_test(&decoded, &encoded);
}
