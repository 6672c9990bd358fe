use p25_fec::coding::bmcf::{polynomial_roots, ErrorDescriptions, ErrorLocator, Errors};
use p25_fec::coding::galois::P25Codeword;
use p25_fec::coding::polynomial::Polynomial;
use p25_fec::coding::reed_solomon::{syndromes, LongCoefs, MedCoefs, ShortCoefs};

fn med_poly(coefs: &[u8]) -> Polynomial<MedCoefs> {
    let coefs: Vec<_> = coefs.iter().map(|&c| P25Codeword::new(c)).collect();
    Polynomial::new(&coefs)
}

fn med_coefs(p: &Polynomial<MedCoefs>) -> Vec<u8> {
    (0..24).map(|i| p.coef(i).bits()).collect()
}

fn padded(coefs: &[u8]) -> Vec<u8> {
    let mut v = coefs.to_vec();
    v.resize(24, 0);
    v
}

/// Syndromes of the medium code's codeword for the data 1, 6, 11, ..., with the pattern
/// 0o25 added to its symbol 3, which is the coefficient of x^20.
const SYNDROMES: [u8; 8] = [24, 56, 26, 3, 7, 50, 8, 41];

#[test]
fn test_locator_no_errors() {
    let loc = ErrorLocator::new(Polynomial::<ShortCoefs>::zero()).build();
    assert_eq!(loc.degree(), Some(0));
    assert_eq!(loc.coef(0).bits(), 1);

    let loc = ErrorLocator::new(Polynomial::<LongCoefs>::zero()).build();
    assert_eq!(loc.degree(), Some(0));
    assert_eq!(loc.coef(0).bits(), 1);
}

#[test]
fn test_locator_single_error() {
    // Λ(x) = 1 + α^20 x.
    let loc = ErrorLocator::new(med_poly(&SYNDROMES)).build();
    assert_eq!(med_coefs(&loc), padded(&[1, P25Codeword::for_power(20).bits()]));
    assert_eq!(loc.degree(), Some(1));
}

#[test]
fn test_roots() {
    // The root of 1 + α^20 x is α^-20 = α^43.
    let roots = polynomial_roots(&med_poly(&[1, P25Codeword::for_power(20).bits()]));
    assert_eq!(roots, vec![P25Codeword::for_power(43)]);

    // (x + α^3)(x + α^60)(x + α^7), roots by rising power.
    let p = med_poly(&[8, 1]) * med_poly(&[P25Codeword::for_power(60).bits(), 1])
        * med_poly(&[P25Codeword::for_power(7).bits(), 1]);
    assert_eq!(
        polynomial_roots(&p),
        vec![P25Codeword::for_power(3), P25Codeword::for_power(7), P25Codeword::for_power(60)]
    );

    // A double root counts once.
    let p = med_poly(&[8, 1]) * med_poly(&[8, 1]);
    assert_eq!(polynomial_roots(&p), vec![P25Codeword::for_power(3)]);

    assert_eq!(polynomial_roots(&med_poly(&[1])), vec![]);
    // The roots of x^2 + x + 1 are the cube roots of unity other than 1.
    assert_eq!(
        polynomial_roots(&med_poly(&[1, 1, 1])),
        vec![P25Codeword::for_power(21), P25Codeword::for_power(42)]
    );
    // Zero is never reported as a root.
    assert_eq!(polynomial_roots(&med_poly(&[0, 1])), vec![]);
}

#[test]
fn test_descriptions() {
    let syn = med_poly(&SYNDROMES);
    let loc = med_poly(&[1, P25Codeword::for_power(20).bits()]);
    let descs = ErrorDescriptions::new(&syn, &loc);
    assert_eq!(
        descs.for_root(P25Codeword::for_power(43)),
        Some((20, P25Codeword::new(0o25)))
    );

    // The derivative of a square vanishes everywhere.
    let loc = med_poly(&[1, 0, 5]);
    let descs = ErrorDescriptions::new(&syn, &loc);
    assert_eq!(descs.for_root(P25Codeword::for_power(5)), None);
}

#[test]
fn test_errors_none() {
    let (nerr, errs) = Errors::new(Polynomial::<MedCoefs>::zero()).unwrap();
    assert_eq!(nerr, 0);
    assert_eq!(errs.len(), 0);
}

#[test]
fn test_errors_single() {
    let (nerr, errs) = Errors::new(med_poly(&SYNDROMES)).unwrap();
    assert_eq!(nerr, 1);
    assert_eq!(errs.len(), 1);
    assert_eq!(errs.get(0), (20, P25Codeword::new(0o25)));
}

#[test]
fn test_errors_unrecoverable() {
    // A lone last syndrome gives the locator 1 + 7x^8, which has a single root.
    assert!(Errors::new(med_poly(&[0, 0, 0, 0, 0, 0, 0, 7])).is_none());
}

#[test]
fn test_errors_degenerate() {
    // A lone first syndrome gives the locator 1, which locates nothing.
    let loc = ErrorLocator::new(med_poly(&[1])).build();
    assert_eq!(med_coefs(&loc), padded(&[1]));
    let (nerr, errs) = Errors::new(med_poly(&[1])).unwrap();
    assert_eq!(nerr, 0);
    assert_eq!(errs.len(), 0);
}

#[test]
fn test_errors_match_syndromes() {
    // Errors placed in a zero word are found again, whatever their patterns.
    let mut word = Polynomial::<LongCoefs>::zero();
    let placed = [(0, 0o01), (7, 0o77), (12, 0o40), (20, 0o13), (21, 0o13), (28, 0o02),
        (34, 0o55), (35, 0o66)];
    for &(loc, pat) in placed.iter() {
        assert!(word.set_coefficient(loc, P25Codeword::new(pat)));
    }
    let (nerr, errs) = Errors::new(syndromes(&word)).unwrap();
    assert_eq!(nerr, 8);
    let mut found: Vec<_> = (0..errs.len()).map(|i| errs.get(i)).collect();
    found.sort_by_key(|&(loc, _)| loc);
    let placed: Vec<_> = placed.iter().map(|&(loc, pat)| (loc, P25Codeword::new(pat))).collect();
    assert_eq!(found, placed);
}
