use galois_codes::bch::BCH;
use galois_codes::concatenated_code::ConcatenatedCode;
use galois_codes::error::CodeError;
use galois_codes::gf2tm::GF2TM;
use galois_codes::poly_field::PolyField;
use galois_codes::poly_gf2::PolyGF2;
use galois_codes::reed_solomon::ReedSolomon;

#[test]
fn concatenated_test_encode() {
    const M: u32 = 8;
    let reed_solomon = ReedSolomon::<M> { distance: 5 };
    const N: u32 = 4;
    let bch: BCH<N> = BCH::<N>::from_distance(7).unwrap();

    let concatenated_code = ConcatenatedCode {
        outer_code: reed_solomon,
        inner_code: bch,
    };

    let poly_msg = PolyField::new(vec![
        GF2TM::<M>::new(PolyGF2 { poly: 3 as u32 }),
        GF2TM::<M>::new(PolyGF2 { poly: 2 as u32 }),
    ]);

    let encoded = concatenated_code.encode(poly_msg).unwrap();
    let true_encoded = vec![
        PolyGF2 {
            poly: 0b100110111000010,
        },
        PolyGF2 {
            poly: 0b100011110101100,
        },
        PolyGF2 {
            poly: 0b101110000101001,
        },
        PolyGF2 {
            poly: 0b101011001000111,
        },
        PolyGF2 {
            poly: 0b110111000010100,
        },
        PolyGF2 {
            poly: 0b110010001111010,
        },
        PolyGF2 {
            poly: 0b111111111111111,
        },
    ];
    assert_eq!(encoded, true_encoded);
}

#[test]
fn test_decode_0_err() {
    const M: u32 = 4;
    let reed_solomon = ReedSolomon::<M> { distance: 3 };
    const N: u32 = 4;
    let bch: BCH<N> = BCH::<N>::from_distance(7).unwrap();

    let concatenated_code = ConcatenatedCode {
        outer_code: reed_solomon,
        inner_code: bch,
    };

    let poly_msg = PolyField::new(vec![
        GF2TM::<M>::new(PolyGF2 { poly: 2 }),
        GF2TM::<M>::new(PolyGF2 { poly: 3 }),
    ]);

    let encoded = concatenated_code.encode(poly_msg.clone()).unwrap();
    let decoded = concatenated_code.decode(encoded).unwrap();
    assert_eq!(decoded, poly_msg);
}

#[test]
fn test_decode_with_errors() {
    const M: u32 = 4;
    let reed_solomon = ReedSolomon::<M> { distance: 3 };
    const N: u32 = 4;
    let bch: BCH<N> = BCH::<N>::from_distance(7).unwrap();

    let concatenated_code = ConcatenatedCode {
        outer_code: reed_solomon,
        inner_code: bch,
    };

    let poly_msg = PolyField::new(vec![
        GF2TM::<M>::new(PolyGF2 { poly: 2 }),
        GF2TM::<M>::new(PolyGF2 { poly: 3 }),
    ]);

    let mut encoded = concatenated_code.encode(poly_msg.clone()).unwrap();
    encoded[1] = PolyGF2 {
        poly: 0b100001110100100,
    };
    encoded[3] = PolyGF2 {
        poly: 0b101110000000000,
    };
    let decoded = concatenated_code.decode(encoded).unwrap();
    assert_eq!(decoded, poly_msg);
}

fn code() -> ConcatenatedCode<4, 4> {
    ConcatenatedCode {
        outer_code: ReedSolomon::<4> { distance: 3 },
        inner_code: BCH::<4>::from_distance(7).unwrap(),
    }
}

#[test]
fn encode_sets_the_length_bit_of_each_symbol() {
    let message = PolyField::new(vec![GF2TM::<4>::from(2u32), GF2TM::<4>::from(3u32)]);
    let words = code().encode(message).unwrap();
    let expected: Vec<PolyGF2> = [
        0b100100011110101u32,
        0b100011110101100,
        0b101001101110000,
        0b101110000101001,
        0b111101011001000,
    ]
    .iter()
    .map(|w| PolyGF2::new(*w))
    .collect();
    assert_eq!(words, expected);
    for word in &words {
        assert_eq!(word.poly >> 14, 1);
    }
}

#[test]
fn encode_fails_where_a_symbol_is_too_long_for_the_inner_code() {
    // symbols of GF(256) above 15 do not fit in the five bits of the inner message
    let outer = ConcatenatedCode {
        outer_code: ReedSolomon::<8> { distance: 5 },
        inner_code: BCH::<4>::from_distance(7).unwrap(),
    };
    let message = PolyField::new(vec![
        GF2TM::<8>::from(3u32),
        GF2TM::<8>::from(2u32),
        GF2TM::<8>::from(8u32),
    ]);
    assert_eq!(outer.encode(message), Err(CodeError::MessageTooLong));
}

#[test]
fn decode_refuses_a_word_of_the_wrong_length() {
    let message = PolyField::new(vec![GF2TM::<4>::from(2u32), GF2TM::<4>::from(3u32)]);
    let mut words = code().encode(message).unwrap();
    words[2] = PolyGF2::new(0b1011);
    assert_eq!(code().decode(words), Err(CodeError::WrongLength));
}

#[test]
fn decode_corrects_a_symbol_that_the_inner_code_gets_wrong() {
    let message = PolyField::new(vec![GF2TM::<4>::from(9u32), GF2TM::<4>::from(6u32)]);
    let mut words = code().encode(message.clone()).unwrap();
    // another code word of the inner code in place of the right one
    words[0] = BCH::<4>::from_distance(7).unwrap().encode(PolyGF2::new(0b10110)).unwrap();
    assert_eq!(code().decode(words), Ok(message));
}
