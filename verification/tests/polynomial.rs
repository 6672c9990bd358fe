use p25_fec::coding::galois::P25Codeword;
use p25_fec::coding::polynomial::{errors, syndrome_count, validate, Polynomial, PolynomialCoefs};
use p25_fec::coding::reed_solomon::{LongCoefs, MedCoefs, ShortCoefs};

fn poly(coefs: &[u8]) -> Polynomial<ShortCoefs> {
    let coefs: Vec<_> = coefs.iter().map(|&c| P25Codeword::new(c)).collect();
    Polynomial::new(&coefs)
}

fn coefs(p: &Polynomial<ShortCoefs>) -> Vec<u8> {
    (0..24).map(|i| p.coef(i).bits()).collect()
}

fn padded(coefs: &[u8]) -> Vec<u8> {
    let mut v = coefs.to_vec();
    v.resize(24, 0);
    v
}

#[test]
fn test_poly_geometry() {
    assert_eq!(ShortCoefs::distance(), 13);
    assert_eq!(ShortCoefs::capacity(), 24);
    assert_eq!(errors::<ShortCoefs>(), 6);
    assert_eq!(syndrome_count::<ShortCoefs>(), 12);

    assert_eq!(MedCoefs::distance(), 9);
    assert_eq!(MedCoefs::capacity(), 24);
    assert_eq!(errors::<MedCoefs>(), 4);
    assert_eq!(syndrome_count::<MedCoefs>(), 8);

    assert_eq!(LongCoefs::distance(), 17);
    assert_eq!(LongCoefs::capacity(), 36);
    assert_eq!(errors::<LongCoefs>(), 8);
    assert_eq!(syndrome_count::<LongCoefs>(), 16);

    assert!(validate::<ShortCoefs>());
    assert!(validate::<MedCoefs>());
    assert!(validate::<LongCoefs>());
}

#[test]
fn test_poly_storage() {
    let mut c = LongCoefs::default();
    for i in 0..36 {
        assert!(c.get(i).zero());
    }
    c.put(35, P25Codeword::new(0o77));
    c.put(0, P25Codeword::new(0o01));
    assert_eq!(c.get(35).bits(), 0o77);
    assert_eq!(c.get(0).bits(), 0o01);
    assert_eq!(c.get(1).bits(), 0);
    assert!(MedCoefs::zeroed().get(23).zero());
}

#[test]
fn test_poly_new_fills_and_truncates() {
    let p = poly(&[3, 0, 5, 7]);
    assert_eq!(coefs(&p), padded(&[3, 0, 5, 7]));

    let p = poly(&[]);
    assert_eq!(coefs(&p), padded(&[]));

    let long: Vec<u8> = (1..=30).collect();
    let p = poly(&long);
    assert_eq!(coefs(&p), &long[..24]);
    assert_eq!(p.coef(24).bits(), 0);
}

#[test]
fn test_poly_zero_and_unit_power() {
    assert_eq!(coefs(&Polynomial::zero()), padded(&[]));
    assert_eq!(Polynomial::<ShortCoefs>::zero().degree(), None);

    assert_eq!(coefs(&Polynomial::unit_power(0)), padded(&[1]));
    assert_eq!(coefs(&Polynomial::unit_power(3)), padded(&[0, 0, 0, 1]));
    assert_eq!(Polynomial::<ShortCoefs>::unit_power(23).degree(), Some(23));
    assert_eq!(Polynomial::<ShortCoefs>::unit_power(24).degree(), None);
}

#[test]
fn test_poly_degree() {
    assert_eq!(poly(&[]).degree(), None);
    assert_eq!(poly(&[0, 0, 0]).degree(), None);
    assert_eq!(poly(&[5]).degree(), Some(0));
    assert_eq!(poly(&[0, 0, 5, 0]).degree(), Some(2));
    assert_eq!(poly(&[1, 0, 5, 7]).degree(), Some(3));
}

#[test]
fn test_poly_constant_and_coef() {
    let p = poly(&[3, 0, 5, 7]);
    assert_eq!(p.constant().bits(), 3);
    assert_eq!(p.coef(0).bits(), 3);
    assert_eq!(p.coef(2).bits(), 5);
    assert_eq!(p.coef(4).bits(), 0);
    assert_eq!(p.coef(23).bits(), 0);
    assert_eq!(p.coef(24).bits(), 0);
    assert_eq!(p.coef(usize::MAX).bits(), 0);
}

#[test]
fn test_poly_get_set_coefficient() {
    let mut p = poly(&[3, 0, 5, 7]);
    assert_eq!(p.get_coefficient(3), Some(P25Codeword::new(7)));
    assert_eq!(p.get_coefficient(23), Some(P25Codeword::new(0)));
    assert_eq!(p.get_coefficient(24), None);
    assert_eq!(p.get_coefficient(61), None);

    assert!(p.set_coefficient(23, P25Codeword::new(9)));
    assert!(p.set_coefficient(1, P25Codeword::new(2)));
    let mut expected = padded(&[3, 2, 5, 7]);
    expected[23] = 9;
    assert_eq!(coefs(&p), expected);

    assert!(!p.set_coefficient(24, P25Codeword::new(9)));
    assert!(!p.set_coefficient(34, P25Codeword::new(9)));
    assert_eq!(coefs(&p), expected);
}

#[test]
fn test_poly_eval() {
    let p = poly(&[3, 0, 5, 7]);
    assert_eq!(p.eval(P25Codeword::new(9)).bits(), 52);
    assert_eq!(p.eval(P25Codeword::new(0)).bits(), 3);
    // At 1 the value is the sum of the coefficients.
    assert_eq!(p.eval(P25Codeword::new(1)).bits(), 3 ^ 5 ^ 7);
    assert_eq!(poly(&[]).eval(P25Codeword::new(9)).bits(), 0);

    // (x + α)(x + α^2) vanishes at α and α^2 only.
    let p = poly(&[2, 1]) * poly(&[4, 1]);
    for pow in 0..63 {
        assert_eq!(p.eval(P25Codeword::for_power(pow)).zero(), pow == 1 || pow == 2);
    }
}

#[test]
fn test_poly_shift_truncate_deriv() {
    let p = poly(&[3, 0, 5, 7]);
    assert_eq!(coefs(&p.shift()), padded(&[0, 5, 7]));
    assert_eq!(coefs(&Polynomial::<ShortCoefs>::unit_power(23).shift()),
        coefs(&Polynomial::unit_power(22)));
    assert_eq!(coefs(&poly(&[7]).shift()), padded(&[]));

    assert_eq!(coefs(&p.truncate(2)), padded(&[3, 0, 5]));
    assert_eq!(coefs(&p.truncate(0)), padded(&[3]));
    assert_eq!(coefs(&p.truncate(3)), padded(&[3, 0, 5, 7]));
    assert_eq!(coefs(&p.truncate(100)), padded(&[3, 0, 5, 7]));

    let p = poly(&[3, 4, 5, 7, 9, 11]);
    assert_eq!(coefs(&p.deriv()), padded(&[4, 0, 7, 0, 11]));
    let mut top = Polynomial::<ShortCoefs>::unit_power(23);
    assert_eq!(coefs(&top.deriv()), coefs(&Polynomial::unit_power(22)));
    assert!(top.set_coefficient(23, P25Codeword::new(0)));
    assert!(top.set_coefficient(22, P25Codeword::new(1)));
    assert_eq!(coefs(&top.deriv()), padded(&[]));
}

#[test]
fn test_poly_add_scale() {
    let a = poly(&[3, 0, 5, 7]);
    let b = poly(&[2, 1, 0, 0, 6]);
    assert_eq!(coefs(&(a + b)), padded(&[1, 1, 5, 7, 6]));
    assert_eq!(coefs(&(a + a)), padded(&[]));

    assert_eq!(coefs(&(a * P25Codeword::new(1))), padded(&[3, 0, 5, 7]));
    assert_eq!(coefs(&(a * P25Codeword::new(0))), padded(&[]));
    assert_eq!(coefs(&(a * P25Codeword::new(2))), padded(&[6, 0, 10, 14]));
    assert_eq!(coefs(&(b * P25Codeword::new(0o40))), padded(&[3, 0o40, 0, 0, 5]));
}

#[test]
fn test_poly_mul() {
    let a = poly(&[3, 0, 5, 7]);
    let b = poly(&[2, 1, 0, 0, 6]);
    assert_eq!(coefs(&(a * b)), padded(&[6, 3, 10, 11, 13, 0, 30, 18]));
    assert_eq!(coefs(&(b * a)), padded(&[6, 3, 10, 11, 13, 0, 30, 18]));
    assert_eq!(coefs(&(a * Polynomial::unit_power(0))), padded(&[3, 0, 5, 7]));
    assert_eq!(coefs(&(a * Polynomial::zero())), padded(&[]));
    assert_eq!(coefs(&(a * Polynomial::unit_power(20))),
        coefs(&(Polynomial::unit_power(20) * P25Codeword::new(3)
            + Polynomial::unit_power(22) * P25Codeword::new(5)
            + Polynomial::unit_power(23) * P25Codeword::new(7))));
}
