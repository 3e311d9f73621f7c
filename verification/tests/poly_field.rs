use galois_codes::gf2tm::GF2TM;
use galois_codes::poly_field::PolyField;
use num_traits::Zero;

type F = GF2TM<4>;

fn poly(values: &[u32]) -> PolyField<4> {
    PolyField::new(values.iter().map(|v| F::from(*v)).collect())
}

fn trimmed(mut c: Vec<F>) -> Vec<F> {
    while c.last().map_or(false, |x| x.is_zero()) {
        c.pop();
    }
    c
}

fn samples() -> Vec<Vec<u32>> {
    vec![
        vec![],
        vec![1],
        vec![7],
        vec![0, 1],
        vec![3, 1],
        vec![5, 0, 9],
        vec![1, 2, 3, 4],
        vec![15, 14, 13, 12, 11],
        vec![6, 0, 0, 0, 0, 2],
    ]
}

#[test]
fn product_is_the_convolution_of_the_coefficients() {
    for a in samples() {
        for b in samples() {
            let (pa, pb) = (poly(&a), poly(&b));
            let (ca, cb) = (pa.coeffs(), pb.coeffs());
            let mut expected: Vec<F> = Vec::new();
            if !ca.is_empty() && !cb.is_empty() {
                for i in 0..ca.len() + cb.len() - 1 {
                    let mut sum = F::zero();
                    for k in 0..ca.len() {
                        if i >= k && i - k < cb.len() {
                            sum = sum + ca[k] * cb[i - k];
                        }
                    }
                    expected.push(sum);
                }
            }
            assert_eq!(pa.mul(&pb).coeffs(), &trimmed(expected));
        }
    }
}

#[test]
fn sum_adds_coefficient_by_coefficient() {
    for a in samples() {
        for b in samples() {
            let (pa, pb) = (poly(&a), poly(&b));
            let len = pa.coeffs().len().max(pb.coeffs().len());
            let at = |p: &PolyField<4>, i: usize| p.coeffs().get(i).copied().unwrap_or(F::zero());
            let expected: Vec<F> = (0..len).map(|i| at(&pa, i) + at(&pb, i)).collect();
            assert_eq!(pa.add(&pb).coeffs(), &trimmed(expected));
        }
    }
}

#[test]
fn value_is_the_sum_of_the_terms() {
    for a in samples() {
        let pa = poly(&a);
        for x in 0..16u32 {
            let x = F::from(x);
            let mut expected = F::zero();
            for (i, c) in pa.coeffs().iter().enumerate() {
                expected = expected + *c * x.pow(i as u32);
            }
            assert_eq!(pa.eval(x), expected);
        }
    }
}

#[test]
fn quotient_and_remainder_make_up_the_dividend() {
    for a in samples() {
        for b in samples() {
            let (pa, pb) = (poly(&a), poly(&b));
            let (q, r) = pa.div_rem(&pb);
            assert_eq!(pb.mul(&q).add(&r), pa);
            if !pb.coeffs().is_empty() {
                assert!(r.coeffs().len() < pb.coeffs().len());
            } else {
                assert_eq!(r, pa);
            }
        }
    }
}

#[test]
fn product_and_sum_obey_the_ring_laws() {
    for a in samples() {
        for b in samples() {
            let (pa, pb) = (poly(&a), poly(&b));
            assert_eq!(pa.mul(&pb), pb.mul(&pa));
            assert_eq!(pa.add(&pb), pb.add(&pa));
            for c in samples() {
                let pc = poly(&c);
                assert_eq!(pa.mul(&pb.add(&pc)), pa.mul(&pb).add(&pa.mul(&pc)));
                assert_eq!(pa.mul(&pb).mul(&pc), pa.mul(&pb.mul(&pc)));
            }
        }
    }
}
