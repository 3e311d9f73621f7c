use galois_codes::error::CodeError;
use galois_codes::poly_gf2::PolyGF2;

#[test]
fn test_poly_add() {
    let a = PolyGF2::new(0b101);
    let b = PolyGF2::new(0b110);
    assert_eq!(a + b, PolyGF2::new(0b011));
    let b = PolyGF2::new(0b01);
    let a = PolyGF2::new(0b10);
    assert_eq!(a + b, PolyGF2::new(0b11));
}

#[test]
fn test_poly_mul() {
    let a = PolyGF2::new(0b101);
    let b = PolyGF2::new(0b110);
    assert_eq!(a * b, PolyGF2::new(0b11110));
    let a = PolyGF2::new(0b101);
    let b = PolyGF2::new(0b111);
    assert_eq!(a * b, PolyGF2::new(0b11011));
}

#[test]
fn test_poly_mul_fuzzy() {
    for mut a in 1..100 {
        for mut b in 1..100 {
            let result_poly = PolyGF2::new(a) * PolyGF2::new(b);
            let mut result = 0;
            while b != 0 {
                if b & 1 > 0 {
                    result ^= a;
                }
                a <<= 1;
                b >>= 1;
            }
            assert_eq!(result_poly.poly, result);
        }
    }
}

#[test]
fn test_poly_divmod_fuzzy() {
    for a in 0..100 {
        for b in 1..100u32 {
            let (q, r) = PolyGF2::new(a).divmod(PolyGF2::new(b)).unwrap();
            assert_eq!(q * PolyGF2::new(b) + r, PolyGF2::new(a));
            assert!(r.poly.leading_zeros() >= b.leading_zeros())
        }
    }
}

#[test]
fn test_poly_irreducible() {
    let degree = 1;
    assert_eq!(PolyGF2::irreducible(degree), PolyGF2::new(0b10));
    let degree = 2;
    assert_eq!(PolyGF2::irreducible(degree), PolyGF2::new(0b111));
    let degree = 3;
    assert_eq!(PolyGF2::irreducible(degree), PolyGF2::new(0b1011));
    let degree = 4;
    assert_eq!(PolyGF2::irreducible(degree), PolyGF2::new(0b10011));
    let degree = 5;
    assert_eq!(PolyGF2::irreducible(degree), PolyGF2::new(0b100101));
    let degree = 6;
    assert_eq!(PolyGF2::irreducible(degree), PolyGF2::new(0b1000011));
    let degree = 7;
    assert_eq!(PolyGF2::irreducible(degree), PolyGF2::new(0b10000011));
}

#[test]
fn test_reduction() {
    assert_eq!(PolyGF2::new(0b110) % PolyGF2::new(0b111), PolyGF2::new(0b1),);
}

#[test]
fn test_degree() {
    assert_eq!(PolyGF2::new(0b110).degree(), 2);
    assert_eq!(PolyGF2::new(0b111).degree(), 2);
    assert_eq!(PolyGF2::new(0b1011).degree(), 3);
    assert_eq!(PolyGF2::new(0b10011).degree(), 4);
    assert_eq!(PolyGF2::new(0b100101).degree(), 5);
}

#[test]
fn test_gcd() {
    let a = PolyGF2::new(0b1001); // (x+1)(x^2+x+1)
    let b = PolyGF2::new(0b11101); // (x+1)(x^3+x+1)
    assert_eq!(a.gcd(b), PolyGF2::new(0b11)); // (x+1)

    let a = PolyGF2::new(0b11011); // (x+1)(x+1)(x^2+x+1)
    let b = PolyGF2::new(0b100111); // (x+1)(x+1)(x^3+x+1)
    assert_eq!(a.gcd(b), PolyGF2::new(0b101)); // (x+1)(x+1)
}

#[test]
fn test_lcm() {
    let a = PolyGF2::new(0b1001); // (x+1)(x^2+x+1)
    let b = PolyGF2::new(0b11101); // (x+1)(x^3+x+1)
    assert_eq!(a.lcm(b), PolyGF2::new(0b1010011)); // (x+1)(x^2+x+1)(x^3+x+1)
    let a = PolyGF2::new(0b11011); // (x+1)(x+1)(x^2+x+1)
    let b = PolyGF2::new(0b100111); // (x+1)(x+1)(x^3+x+1)
    assert_eq!(a.lcm(b), PolyGF2::new(0b11110101)); // (x+1)(x+1)(x^2+x+1)(x^3+x+1)
}

#[test]
fn test_eval() {
    let a = PolyGF2::new(0b110);
    assert_eq!(a.eval(0), 0);
    assert_eq!(a.eval(1), 0);
    let a = PolyGF2::new(0b101);
    assert_eq!(a.eval(0), 1);
    assert_eq!(a.eval(1), 0);
}

#[test]
fn divmod_by_zero_is_refused() {
    assert_eq!(
        PolyGF2::new(0b1011).divmod(PolyGF2::new(0)),
        Err(CodeError::DivisionByZero)
    );
    assert_eq!(CodeError::DivisionByZero.message(), "division by zero");
}

#[test]
fn divmod_of_a_shorter_dividend_keeps_it() {
    assert_eq!(
        PolyGF2::new(0b101).divmod(PolyGF2::new(0b10011)),
        Ok((PolyGF2::new(0), PolyGF2::new(0b101)))
    );
    assert_eq!(
        PolyGF2::new(0).divmod(PolyGF2::new(1)),
        Ok((PolyGF2::new(0), PolyGF2::new(0)))
    );
}

#[test]
fn divmod_exact_values() {
    // x^4 + x + 1 divided by x^2 + 1: quotient x^2 + 1, remainder x
    assert_eq!(
        PolyGF2::new(0b10011).divmod(PolyGF2::new(0b101)),
        Ok((PolyGF2::new(0b101), PolyGF2::new(0b10)))
    );
    assert_eq!(PolyGF2::new(0b10011) / PolyGF2::new(0b101), PolyGF2::new(0b101));
    assert_eq!(PolyGF2::new(0b10011) % PolyGF2::new(0b101), PolyGF2::new(0b10));
}

#[test]
fn divmod_law_on_wide_values() {
    let samples = [1u32, 2, 3, 0x1b, 0x8000_0000, 0xffff_ffff, 0x1234_5678, 0x8765_4321];
    for a in samples {
        for b in samples {
            let (q, r) = PolyGF2::new(a).divmod(PolyGF2::new(b)).unwrap();
            assert_eq!((q * PolyGF2::new(b) + r).poly, a);
            assert!(r.poly == 0 || r.degree() < PolyGF2::new(b).degree());
        }
    }
}

#[test]
fn mul_is_commutative_and_distributive() {
    let samples = [0u32, 1, 2, 0b1011, 0xffff, 0x8000_0001, 0xdead_beef];
    for a in samples {
        for b in samples {
            let (pa, pb) = (PolyGF2::new(a), PolyGF2::new(b));
            assert_eq!(pa * pb, pb * pa);
            for c in samples {
                let pc = PolyGF2::new(c);
                assert_eq!(pa * (pb + pc), pa * pb + pa * pc);
                assert_eq!((pa * pb) * pc, pa * (pb * pc));
            }
        }
    }
}

#[test]
fn mul_drops_terms_from_x32_on() {
    // x^31 * x = x^32 is not kept
    assert_eq!(PolyGF2::new(0x8000_0000) * PolyGF2::new(0b10), PolyGF2::new(0));
    assert_eq!(PolyGF2::new(0xc000_0000) * PolyGF2::new(0b11), PolyGF2::new(0x4000_0000));
}

#[test]
fn sub_and_neg_are_add_and_identity() {
    let a = PolyGF2::new(0b1101);
    let b = PolyGF2::new(0b0110);
    assert_eq!(a - b, a + b);
    assert_eq!(-a, a);
    let mut c = a;
    c += b;
    assert_eq!(c, PolyGF2::new(0b1011));
    c -= b;
    assert_eq!(c, a);
    c *= b;
    assert_eq!(c, a * b);
    c /= b;
    assert_eq!(c, a);
    c %= b;
    assert_eq!(c, PolyGF2::new(0b1));
}

#[test]
fn pow_exact_values() {
    assert_eq!(PolyGF2::new(0b11).pow(0), PolyGF2::new(1));
    assert_eq!(PolyGF2::new(0b11).pow(1), PolyGF2::new(0b11));
    assert_eq!(PolyGF2::new(0b11).pow(2), PolyGF2::new(0b101));
    assert_eq!(PolyGF2::new(0b11).pow(4), PolyGF2::new(0b10001));
    assert_eq!(PolyGF2::new(0).pow(0), PolyGF2::new(1));
}

#[test]
fn degree_of_zero_is_the_sentinel() {
    assert_eq!(PolyGF2::new(0).degree(), 63);
    assert_eq!(PolyGF2::new(1).degree(), 0);
    assert_eq!(PolyGF2::new(0x8000_0000).degree(), 31);
}

#[test]
fn irreducible_edge_degrees() {
    assert_eq!(PolyGF2::irreducible(0), PolyGF2::new(1));
    assert_eq!(PolyGF2::irreducible(8), PolyGF2::new(0b100011011));
    assert_eq!(PolyGF2::irreducible(32), PolyGF2::new(0));
    assert_eq!(PolyGF2::irreducible(40), PolyGF2::new(0));
}

#[test]
fn gcd_and_lcm_with_zero() {
    let a = PolyGF2::new(0b1011);
    let zero = PolyGF2::new(0);
    assert_eq!(a.gcd(zero), a);
    assert_eq!(zero.gcd(a), a);
    assert_eq!(zero.gcd(zero), zero);
    assert_eq!(zero.lcm(a), zero);
    assert_eq!(a.lcm(zero), zero);
    assert_eq!(zero.lcm(zero), zero);
}

#[test]
fn eval_is_the_parity_at_one() {
    assert_eq!(PolyGF2::new(0b111).eval(1), 1);
    assert_eq!(PolyGF2::new(0b111).eval(3), 1);
    assert_eq!(PolyGF2::new(0b111).eval(2), 1);
    assert_eq!(PolyGF2::new(0xffff_ffff).eval(1), 0);
    assert_eq!(PolyGF2::new(0x8000_0000).eval(1), 1);
    assert_eq!(PolyGF2::new(0x8000_0000).eval(0), 0);
    assert_eq!(PolyGF2::new(0).eval(1), 0);
}

#[test]
fn conversions_keep_the_bits() {
    assert_eq!(PolyGF2::from(0b1101u32), PolyGF2::new(0b1101));
    assert_eq!(u32::from(PolyGF2::new(0b1101)), 0b1101);
    assert_eq!(PolyGF2::default(), PolyGF2::new(0));
}
