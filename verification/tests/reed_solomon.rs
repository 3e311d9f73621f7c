use galois_codes::error::CodeError;
use galois_codes::gf2tm::GF2TM;
use galois_codes::poly_field::PolyField;
use galois_codes::poly_gf2::PolyGF2;
use galois_codes::reed_solomon::ReedSolomon;

#[test]
fn lib_test_encode() {
    const M: u32 = 8;
    let reed_solomon = ReedSolomon::<M> { distance: 5 };
    let poly_msg = PolyField::new(vec![
        GF2TM::new(PolyGF2 { poly: 3 as u32 }),
        GF2TM::new(PolyGF2 { poly: 2 as u32 }),
        GF2TM::new(PolyGF2 { poly: 8 as u32 }),
    ]);

    let encoded = reed_solomon.encode(poly_msg);
    println!("{encoded:?}");
    let true_encoded = PolyField::new(vec![
        GF2TM::<M>::new(PolyGF2 { poly: 3 as u32 }),
        GF2TM::<M>::new(PolyGF2 { poly: 9 as u32 }),
        GF2TM::<M>::new(PolyGF2 { poly: 39 as u32 }),
        GF2TM::<M>::new(PolyGF2 { poly: 45 as u32 }),
        GF2TM::<M>::new(PolyGF2 { poly: 139 as u32 }),
        GF2TM::<M>::new(PolyGF2 { poly: 129 as u32 }),
        GF2TM::<M>::new(PolyGF2 { poly: 175 as u32 }),
        GF2TM::<M>::new(PolyGF2 { poly: 165 as u32 }),
    ]);
    assert_eq!(encoded, true_encoded);
}

#[test]
fn lib_test_decode_0_err() {
    const M: u32 = 8;
    let reed_solomon = ReedSolomon::<M> { distance: 3 };
    let poly_msg = PolyField::new(vec![
        GF2TM::new(PolyGF2 { poly: 36 as u32 }),
        GF2TM::new(PolyGF2 { poly: 2 as u32 }),
    ]);

    let encoded = reed_solomon.encode(poly_msg.clone());
    let decoded = reed_solomon.decode(encoded).unwrap();
    assert_eq!(decoded, poly_msg);
}

#[test]
fn test_decode_1_err() {
    const M: u32 = 8;
    let reed_solomon = ReedSolomon::<M> { distance: 3 };
    let poly_msg = PolyField::new(vec![
        GF2TM::new(PolyGF2 { poly: 36 as u32 }),
        GF2TM::new(PolyGF2 { poly: 2 as u32 }),
    ]);

    let encoded = reed_solomon.encode(poly_msg.clone());
    let mut encoded_coefs = encoded.coeffs().to_vec();
    encoded_coefs[0] = GF2TM::<M>::new(PolyGF2 { poly: 44 });

    let decoded = reed_solomon.decode(PolyField::new(encoded_coefs)).unwrap();
    assert_eq!(decoded, poly_msg);
}

fn poly<const M: u32>(values: &[u32]) -> PolyField<M> {
    PolyField::new(values.iter().map(|v| GF2TM::<M>::from(*v)).collect())
}

fn values<const M: u32>(p: &PolyField<M>) -> Vec<u32> {
    p.coeffs().iter().map(|c| c.value().poly).collect()
}

#[test]
fn max_num_of_errors_is_half_the_distance() {
    assert_eq!(ReedSolomon::<8> { distance: 1 }.max_num_of_errors(), 0);
    assert_eq!(ReedSolomon::<8> { distance: 2 }.max_num_of_errors(), 0);
    assert_eq!(ReedSolomon::<8> { distance: 3 }.max_num_of_errors(), 1);
    assert_eq!(ReedSolomon::<8> { distance: 5 }.max_num_of_errors(), 2);
    assert_eq!(ReedSolomon::<8> { distance: 6 }.max_num_of_errors(), 2);
}

#[test]
fn encode_evaluates_at_the_points_counted_from_zero() {
    let rs = ReedSolomon::<8> { distance: 3 };
    assert_eq!(values(&rs.encode(poly(&[36, 2]))), vec![36, 38, 32, 34, 44]);
    // a constant message takes its value at every point
    assert_eq!(values(&rs.encode(poly(&[7]))), vec![7, 7, 7, 7]);
    // zeros at the end of the word are not kept
    assert_eq!(values(&rs.encode(poly::<8>(&[]))), Vec::<u32>::new());
    assert_eq!(values(&ReedSolomon::<4> { distance: 2 }.encode(poly(&[3, 1]))), vec![3, 2, 1]);
}

#[test]
fn decode_corrects_each_single_error() {
    let rs = ReedSolomon::<4> { distance: 3 };
    let message = poly::<4>(&[5, 9, 3]);
    let word = values(&rs.encode(message.clone()));
    assert_eq!(word.len(), 6);
    for place in 0..word.len() - 1 {
        for error in 1..16u32 {
            let mut received = word.clone();
            received[place] ^= error;
            assert_eq!(rs.decode(poly(&received)), Ok(message.clone()));
        }
    }
}

#[test]
fn decode_corrects_two_errors_with_distance_five() {
    let rs = ReedSolomon::<8> { distance: 5 };
    let message = poly::<8>(&[3, 2, 8]);
    let mut received = values(&rs.encode(message.clone()));
    received[1] ^= 0x55;
    received[6] ^= 0x80;
    assert_eq!(rs.decode(poly(&received)), Ok(message));
}

#[test]
fn decode_refuses_a_word_shorter_than_the_errors_to_correct() {
    let rs = ReedSolomon::<4> { distance: 7 };
    assert_eq!(rs.decode(poly(&[1, 2])), Err(CodeError::WrongLength));
}

#[test]
fn decode_fails_where_every_system_is_singular() {
    // 17 values over GF(16): two evaluation points coincide
    let rs = ReedSolomon::<4> { distance: 1 };
    let received: Vec<u32> = (1..=17).map(|v| v % 16).collect();
    assert_eq!(rs.decode(poly(&received)), Err(CodeError::Singular));
    assert_eq!(CodeError::Singular.message(), "matrix is singular");
}
