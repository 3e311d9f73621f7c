use galois_codes::gf2m::GF2m;
use galois_codes::poly_gf2::PolyGF2;

#[test]
fn test_add() {
    let a = GF2m::new(PolyGF2::new(0b01), 2, PolyGF2::new(0b111));
    let b = GF2m::new(PolyGF2::new(0b10), 2, PolyGF2::new(0b111));
    let c = a + b;
    assert_eq!(c.value(), PolyGF2::new(0b11));
}

#[test]
fn test_sub() {
    let a = GF2m::new(PolyGF2::new(0b01), 2, PolyGF2::new(0b111));
    let b = GF2m::new(PolyGF2::new(0b10), 2, PolyGF2::new(0b111));
    let c = a - b;
    assert_eq!(c.value(), PolyGF2::new(0b11));
}

#[test]
fn test_mul() {
    let a = GF2m::new(PolyGF2::new(0b01), 2, PolyGF2::new(0b111));
    let b = GF2m::new(PolyGF2::new(0b10), 2, PolyGF2::new(0b111));
    let c = a * b;
    assert_eq!(c.value(), PolyGF2::new(0b10));
}

#[test]
fn test_div() {
    let a = GF2m::new(PolyGF2::new(0b01), 2, PolyGF2::new(0b111));
    let b = GF2m::new(PolyGF2::new(0b10), 2, PolyGF2::new(0b111));
    let c = a / b;
    assert_eq!(c.value(), PolyGF2::new(0b0));
    let a = GF2m::new(PolyGF2::new(0b10), 2, PolyGF2::new(0b111));
    let b = GF2m::new(PolyGF2::new(0b01), 2, PolyGF2::new(0b111));
    let c = a / b;
    assert_eq!(c.value(), PolyGF2::new(0b10));
}

#[test]
fn test_rem() {
    let a = GF2m::new(PolyGF2::new(0b01), 2, PolyGF2::new(0b111));
    let b = GF2m::new(PolyGF2::new(0b10), 2, PolyGF2::new(0b111));
    let c = a % b;
    assert_eq!(c.value(), PolyGF2::new(0b1));
}

#[test]
fn test_pow() {
    let a = GF2m::new(PolyGF2::new(0b01), 2, PolyGF2::new(0b111));
    let b = a.pow(3);
    assert_eq!(b.value(), PolyGF2::new(0b01));
}

#[test]
fn gf2m_new_keeps_the_low_bits_and_the_tags() {
    let a = GF2m::new(PolyGF2::new(0b1101), 2, PolyGF2::new(0b111));
    assert_eq!(a.value(), PolyGF2::new(0b01));
    assert_eq!(a.m(), 2);
    assert_eq!(a.irr(), PolyGF2::new(0b111));
    let wide = GF2m::new(PolyGF2::new(0xffff_ffff), 32, PolyGF2::new(0));
    assert_eq!(wide.value(), PolyGF2::new(0xffff_ffff));
}

#[test]
fn gf2m_pow_is_the_plain_power() {
    let a = GF2m::new(PolyGF2::new(0b11), 4, PolyGF2::new(0b10011));
    assert_eq!(a.pow(0).value(), PolyGF2::new(1));
    assert_eq!(a.pow(1).value(), PolyGF2::new(0b11));
    assert_eq!(a.pow(5).value(), PolyGF2::new(0b110011));
    assert_eq!(a.pow(5).value(), PolyGF2::new(0b11).pow(5));
    let mut b = a;
    b *= a;
    assert_eq!(b.value(), PolyGF2::new(0b101));
    b += a;
    assert_eq!(b.value(), PolyGF2::new(0b110));
    b -= a;
    b /= a;
    assert_eq!(b.value(), PolyGF2::new(0b11));
    b %= a;
    assert_eq!(b.value(), PolyGF2::new(0));
}
