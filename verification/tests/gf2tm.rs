use galois_codes::gf2tm::GF2TM;
use galois_codes::poly_field::PolyField;
use galois_codes::poly_gf2::PolyGF2;
use num_traits::{One, Zero};
use std::cmp::Ordering;

#[test]
fn test_minimal_poly() {
    assert_eq!(
        GF2TM::<2>::from(0b10u32).minimal_poly(),
        PolyGF2::new(0b111)
    );
    assert_eq!(
        GF2TM::<2>::from(0b11u32).minimal_poly(),
        PolyGF2::new(0b111)
    );

    assert_eq!(PolyGF2::irreducible(3), PolyGF2::new(0b1011));

    let elem = GF2TM::<3>::from(0b1u32);
    assert_eq!(elem.minimal_poly(), PolyGF2::new(0b11));

    let elem = GF2TM::<3>::from(0b11u32);
    assert_eq!(elem.minimal_poly(), PolyGF2::new(0b1101));

    let elem = GF2TM::<3>::from(0b10u32);
    assert_eq!(elem.minimal_poly(), PolyGF2::new(0b1011));

    let elem = GF2TM::<4>::from(2u32);
    assert_eq!(elem.minimal_poly(), PolyGF2::new(0b10011));

    let elem = GF2TM::<4>::from(3u32);
    assert_eq!(elem.minimal_poly(), PolyGF2::new(0b10011));

    let elem = GF2TM::<4>::from(6u32);
    assert_eq!(elem.minimal_poly(), PolyGF2::new(0b111));

    let elem = GF2TM::<4>::from(12u32);
    assert_eq!(elem.minimal_poly(), PolyGF2::new(0b11111));
}

#[test]
fn test_primitive() {
    assert_eq!(GF2TM::<2>::primitive_element().unwrap(), GF2TM::from(0b10u32));
    assert_eq!(GF2TM::<3>::primitive_element().unwrap(), GF2TM::from(0b10u32));
    assert!(GF2TM::<2>::from(0b11u32).is_primitive());
    assert!(GF2TM::<3>::from(0b11u32).is_primitive());
}

#[test]
fn test_from_poly_over_gf2m() {
    let poly = PolyField::new(vec![
        GF2TM::<3>::new(PolyGF2::new(1)),
        GF2TM::<3>::new(PolyGF2::new(0)),
        GF2TM::<3>::new(PolyGF2::new(1)),
        GF2TM::<3>::new(PolyGF2::new(1)),
    ]);
    assert_eq!(PolyGF2::from(poly), PolyGF2::new(0b1101));
}

fn elements<const M: u32>() -> Vec<GF2TM<M>> {
    (0..(1u32 << M)).map(GF2TM::<M>::from).collect()
}

fn check_field_axioms<const M: u32>() {
    let all = elements::<M>();
    let one = GF2TM::<M>::one();
    for &a in &all {
        if !a.is_zero() {
            assert_eq!(a * a.inv(), one);
            assert_eq!(a / a, one);
        }
        for &b in &all {
            assert_eq!(a * b, b * a);
            assert_eq!((a * a) * (b * b), (a * b) * (a * b));
            for &c in &all {
                assert_eq!((a * b) * c, a * (b * c));
                assert_eq!((a + b) + c, a + (b + c));
                assert_eq!(a * (b + c), a * b + a * c);
            }
        }
    }
}

#[test]
fn field_axioms_hold_in_gf4() {
    check_field_axioms::<2>();
}

#[test]
fn field_axioms_hold_in_gf8() {
    check_field_axioms::<3>();
}

#[test]
fn field_axioms_hold_in_gf16() {
    check_field_axioms::<4>();
}

#[test]
fn new_keeps_the_low_bits() {
    assert_eq!(GF2TM::<4>::new(PolyGF2::new(0b110101)).value(), PolyGF2::new(0b0101));
    assert_eq!(GF2TM::<4>::from(0xf3u8).value(), PolyGF2::new(0b0011));
    assert_eq!(GF2TM::<8>::from(0x1ffu32).value(), PolyGF2::new(0xff));
    assert!(GF2TM::<4>::new(PolyGF2::new(7)).is_valid());
}

#[test]
fn zero_and_one() {
    assert_eq!(GF2TM::<4>::zero().value(), PolyGF2::new(0));
    assert_eq!(<GF2TM<4> as One>::one().value(), PolyGF2::new(1));
    assert_eq!(GF2TM::<4>::one().value(), PolyGF2::new(1));
    assert_eq!(GF2TM::<4>::default(), GF2TM::<4>::zero());
    assert!(GF2TM::<4>::zero().is_zero());
    assert!(!GF2TM::<4>::one().is_zero());
    assert!(<GF2TM<4> as One>::is_one(&GF2TM::<4>::one()));
    assert!(!<GF2TM<4> as One>::is_one(&GF2TM::<4>::from(2u32)));
}

#[test]
fn field_products_and_powers_in_gf16() {
    // modulus x^4 + x + 1
    let x = GF2TM::<4>::from(2u32);
    assert_eq!((x * GF2TM::from(8u32)).value(), PolyGF2::new(0b0011));
    assert_eq!(x.pow(4).value(), PolyGF2::new(0b0011));
    assert_eq!(x.pow(15).value(), PolyGF2::new(1));
    assert_eq!(x.pow(0).value(), PolyGF2::new(1));
    assert_eq!(x.inv().value(), PolyGF2::new(0b1001));
    assert_eq!((GF2TM::<4>::from(6u32) + GF2TM::from(3u32)).value(), PolyGF2::new(5));
    assert_eq!((GF2TM::<4>::from(6u32) - GF2TM::from(3u32)).value(), PolyGF2::new(5));
    assert_eq!((-GF2TM::<4>::from(6u32)).value(), PolyGF2::new(6));
    assert_eq!((GF2TM::<4>::from(13u32) % GF2TM::from(6u32)).value(), PolyGF2::new(1));
    assert_eq!((GF2TM::<4>::from(6u32) / GF2TM::from(2u32)).value(), PolyGF2::new(3));
}

#[test]
fn the_inverse_of_zero_is_zero() {
    assert_eq!(GF2TM::<3>::zero().inv(), GF2TM::<3>::zero());
    assert_eq!(GF2TM::<3>::from(5u32) / GF2TM::zero(), GF2TM::<3>::zero());
}

#[test]
fn assign_operators_agree_with_the_operators() {
    let a = GF2TM::<3>::from(5u32);
    let b = GF2TM::<3>::from(3u32);
    let mut c = a;
    c += b;
    assert_eq!(c, a + b);
    c -= b;
    assert_eq!(c, a);
    c *= b;
    assert_eq!(c, a * b);
    c /= b;
    assert_eq!(c, a);
    c %= b;
    assert_eq!(c, a % b);
}

#[test]
fn primitive_elements() {
    assert_eq!(GF2TM::<1>::primitive_element().unwrap().value(), PolyGF2::new(1));
    assert_eq!(GF2TM::<4>::primitive_element().unwrap().value(), PolyGF2::new(2));
    assert_eq!(GF2TM::<0>::primitive_element(), None);
    assert_eq!(GF2TM::<32>::primitive_element(), None);
    assert!(!GF2TM::<4>::from(1u32).is_primitive());
    assert!(!GF2TM::<4>::from(0u32).is_primitive());
    // x^3 has order 5 in GF(16)
    assert!(!GF2TM::<4>::from(8u32).is_primitive());
    assert!(GF2TM::<4>::from(3u32).is_primitive());
}

#[test]
fn conjugates_come_once_each() {
    let values = |v: Vec<GF2TM<4>>| v.iter().map(|c| c.value().poly).collect::<Vec<u32>>();
    assert_eq!(values(GF2TM::<4>::from(2u32).conjugates()), vec![2, 4, 3, 5]);
    assert_eq!(values(GF2TM::<4>::from(6u32).conjugates()), vec![6, 7]);
    assert_eq!(values(GF2TM::<4>::from(1u32).conjugates()), vec![1]);
    assert_eq!(values(GF2TM::<4>::from(0u32).conjugates()), vec![0]);
}

#[test]
fn minimal_poly_of_zero_and_one() {
    assert_eq!(GF2TM::<4>::from(0u32).minimal_poly(), PolyGF2::new(0b10));
    assert_eq!(GF2TM::<4>::from(1u32).minimal_poly(), PolyGF2::new(0b11));
}

#[test]
fn elements_are_ordered_by_their_numbers() {
    let a = GF2TM::<4>::from(3u32);
    let b = GF2TM::<4>::from(5u32);
    assert!(a < b);
    assert!(b > a);
    assert!(a <= a);
    assert_eq!(a.partial_cmp(&b), Some(Ordering::Less));
    assert_eq!(a.partial_cmp(&a), Some(Ordering::Equal));
    assert_eq!(b.partial_cmp(&a), Some(Ordering::Greater));
}
