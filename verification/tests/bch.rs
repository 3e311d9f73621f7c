use galois_codes::bch::BCH;
use galois_codes::error::CodeError;
use galois_codes::poly_gf2::PolyGF2;

#[test]
fn test_encode() {
    const M: u32 = 4;
    let bch = BCH::<M>::from_distance(7).unwrap();
    let message = PolyGF2::new(0b11011);
    let encoded = bch.encode(message);
    assert_eq!(encoded, Ok(PolyGF2::new(0b110111000010100)));
}

#[test]
fn test_decode_2_err() {
    const M: u32 = 4;
    let bch = BCH::<M>::from_distance(7).unwrap();
    let message = PolyGF2::new(0b11011);
    let encoded = bch.encode(message).unwrap();
    let err = 0b10000000100000;
    let received = PolyGF2::new(encoded.poly ^ err);
    let decoded = bch.decode(received);
    assert_eq!(decoded, Ok(message));
}

#[test]
fn test_decode_3_err() {
    const M: u32 = 4;
    let bch = BCH::<M>::from_distance(7).unwrap();
    let message = PolyGF2::new(0b11011);
    let encoded = bch.encode(message).unwrap();
    let err = 0b10010000100000;
    let received = PolyGF2::new(encoded.poly ^ err);
    let decoded = bch.decode(received);
    assert_eq!(decoded, Ok(message));
}

#[test]
fn test_decode_wrong_length() {
    const M: u32 = 4;
    let bch = BCH::<M>::from_distance(7).unwrap();
    let received = PolyGF2::new(0b0);
    let decoded = bch.decode(received);
    assert_eq!(decoded, Err(CodeError::WrongLength));
    assert_eq!(
        decoded.map_err(|e| e.message()),
        Err("Received message has wrong length")
    );
}

#[test]
fn code_parameters() {
    let bch = BCH::<4>::from_distance(7).unwrap();
    assert_eq!(bch.distance(), 7);
    assert_eq!(bch.code_length(), 15);
    assert_eq!(bch.message_length(), 5);
    assert_eq!(bch.generator_poly(), PolyGF2::new(0b10100110111));
    assert_eq!(bch.primitive_element().value(), PolyGF2::new(0b10));
    let bch = BCH::<4>::from_max_errors(2).unwrap();
    assert_eq!(bch.distance(), 5);
    assert_eq!(bch.message_length(), 7);
    assert_eq!(bch.generator_poly(), PolyGF2::new(0b111010001));
    let bch = BCH::<3>::from_max_errors(1).unwrap();
    assert_eq!(bch.code_length(), 7);
    assert_eq!(bch.message_length(), 4);
    assert_eq!(bch.generator_poly(), PolyGF2::new(0b1011));
}

#[test]
fn an_even_distance_is_rounded_down() {
    let bch = BCH::<4>::from_distance(8).unwrap();
    assert_eq!(bch.distance(), 7);
    let bch = BCH::<4>::from_distance(6).unwrap();
    assert_eq!(bch.distance(), 5);
}

#[test]
fn codes_that_cannot_be_built() {
    assert!(BCH::<4>::from_distance(0).is_none());
    assert!(BCH::<4>::from_distance(1).is_none());
    assert!(BCH::<4>::from_distance(2).is_none());
    assert!(BCH::<4>::from_max_errors(0).is_none());
    assert!(BCH::<0>::from_max_errors(1).is_none());
    assert!(BCH::<6>::from_max_errors(1).is_none());
    assert!(BCH::<4>::from_max_errors(1).is_some());
}

#[test]
fn encode_refuses_long_and_empty_messages() {
    let bch = BCH::<4>::from_distance(7).unwrap();
    assert_eq!(bch.encode(PolyGF2::new(0b100000)), Err(CodeError::MessageTooLong));
    assert_eq!(bch.encode(PolyGF2::new(0)), Err(CodeError::MessageTooLong));
    assert_eq!(CodeError::MessageTooLong.message(), "Message is too long");
    assert!(bch.encode(PolyGF2::new(0b10000)).is_ok());
}

#[test]
fn encode_puts_a_short_message_at_the_top() {
    let bch = BCH::<4>::from_distance(7).unwrap();
    // the message 1 becomes x^14 plus its remainder by the generator
    let word = bch.encode(PolyGF2::new(1)).unwrap();
    assert_eq!(word.degree(), 14);
    assert_eq!(word % bch.generator_poly(), PolyGF2::new(0));
    assert_eq!(word, PolyGF2::new(0b100001010011011));
}

#[test]
fn code_words_are_multiples_of_the_generator() {
    let bch = BCH::<4>::from_distance(5).unwrap();
    for msg in 0b1000000..0b10000000u32 {
        let word = bch.encode(PolyGF2::new(msg)).unwrap();
        assert_eq!(word % bch.generator_poly(), PolyGF2::new(0));
        assert_eq!(word.poly >> 8, msg);
    }
}

#[test]
fn round_trip_without_errors() {
    for d in [3usize, 5, 7] {
        let bch = BCH::<4>::from_distance(d).unwrap();
        let k = bch.message_length();
        for msg in (1u32 << (k - 1))..(1u32 << k) {
            let word = bch.encode(PolyGF2::new(msg)).unwrap();
            assert_eq!(bch.decode(word), Ok(PolyGF2::new(msg)));
        }
    }
    let bch = BCH::<5>::from_distance(7).unwrap();
    assert_eq!(bch.code_length(), 31);
    let k = bch.message_length();
    for msg in [(1u32 << (k - 1)), (1u32 << k) - 1, (1u32 << (k - 1)) | 0b1011] {
        let word = bch.encode(PolyGF2::new(msg)).unwrap();
        assert_eq!(bch.decode(word), Ok(PolyGF2::new(msg)));
    }
}

#[test]
fn every_pattern_of_up_to_three_errors_is_corrected() {
    let bch = BCH::<4>::from_distance(7).unwrap();
    let message = PolyGF2::new(0b11011);
    let word = bch.encode(message).unwrap().poly;
    // the top bit carries the length of the word, so the errors fall below it
    for a in 0..14u32 {
        assert_eq!(bch.decode(PolyGF2::new(word ^ (1 << a))), Ok(message));
        for b in 0..a {
            assert_eq!(bch.decode(PolyGF2::new(word ^ (1 << a) ^ (1 << b))), Ok(message));
            for c in 0..b {
                let received = PolyGF2::new(word ^ (1 << a) ^ (1 << b) ^ (1 << c));
                assert_eq!(bch.decode(received), Ok(message));
            }
        }
    }
}

#[test]
fn an_error_in_the_top_bit_changes_the_length() {
    let bch = BCH::<4>::from_distance(7).unwrap();
    let word = bch.encode(PolyGF2::new(0b11011)).unwrap().poly;
    assert_eq!(bch.decode(PolyGF2::new(word ^ (1 << 14))), Err(CodeError::WrongLength));
    assert_eq!(bch.decode(PolyGF2::new(word | (1 << 15))), Err(CodeError::WrongLength));
}

#[test]
fn a_short_message_decodes_to_its_shifted_form() {
    let bch = BCH::<4>::from_distance(7).unwrap();
    let word = bch.encode(PolyGF2::new(0b101)).unwrap();
    assert_eq!(bch.decode(word), Ok(PolyGF2::new(0b10100)));
}

#[test]
fn generators_vanish_at_the_powers_of_the_primitive_element() {
    assert!(BCH::<2>::from_distance(3).unwrap().is_sound());
    assert!(BCH::<3>::from_distance(3).unwrap().is_sound());
    assert!(BCH::<3>::from_distance(7).unwrap().is_sound());
    for d in [3usize, 5, 7, 9, 15] {
        assert!(BCH::<4>::from_distance(d).unwrap().is_sound());
        assert!(BCH::<5>::from_distance(d).unwrap().is_sound());
    }
}

#[test]
fn a_generator_beyond_32_bits_is_not_sound() {
    // the least common multiple no longer fits, and the product is cut off
    let bch = BCH::<5>::from_distance(17).unwrap();
    assert_eq!(bch.generator_poly(), PolyGF2::new(0b11100100010101111011010011));
    assert!(!bch.is_sound());
    // a code without a message bit
    assert!(!BCH::<4>::from_distance(17).unwrap().is_sound());
}
