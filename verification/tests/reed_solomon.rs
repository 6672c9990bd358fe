use collect_slice::CollectSlice;
use p25_fec::bits::Hexbit;
use p25_fec::coding::galois::P25Codeword;
use p25_fec::coding::polynomial::Polynomial;
use p25_fec::coding::reed_solomon;
use p25_fec::coding::reed_solomon::{long, medium, short, LongCoefs, MedCoefs, ShortCoefs};

#[test]
fn validate_coefs() {
    assert!(ShortCoefs::default().validate());
    assert!(MedCoefs::default().validate());
    assert!(LongCoefs::default().validate());
}

#[test]
fn verify_short_gen() {
    let p = Polynomial::<ShortCoefs>::new(&[P25Codeword::for_power(1), P25Codeword::for_power(0)])
        * Polynomial::new(&[P25Codeword::for_power(2), P25Codeword::for_power(0)])
        * Polynomial::new(&[P25Codeword::for_power(3), P25Codeword::for_power(0)])
        * Polynomial::new(&[P25Codeword::for_power(4), P25Codeword::for_power(0)])
        * Polynomial::new(&[P25Codeword::for_power(5), P25Codeword::for_power(0)])
        * Polynomial::new(&[P25Codeword::for_power(6), P25Codeword::for_power(0)])
        * Polynomial::new(&[P25Codeword::for_power(7), P25Codeword::for_power(0)])
        * Polynomial::new(&[P25Codeword::for_power(8), P25Codeword::for_power(0)]);

    assert_eq!(p.degree().unwrap(), 8);
    assert_eq!(p.coef(0).bits(), 0o26);
    assert_eq!(p.coef(1).bits(), 0o06);
    assert_eq!(p.coef(2).bits(), 0o24);
    assert_eq!(p.coef(3).bits(), 0o57);
    assert_eq!(p.coef(4).bits(), 0o60);
    assert_eq!(p.coef(5).bits(), 0o45);
    assert_eq!(p.coef(6).bits(), 0o75);
    assert_eq!(p.coef(7).bits(), 0o67);
    assert_eq!(p.coef(8).bits(), 0o01);
}

#[test]
fn verify_med_gen() {
    let p = Polynomial::<MedCoefs>::new(&[P25Codeword::for_power(1), P25Codeword::for_power(0)])
        * Polynomial::new(&[P25Codeword::for_power(2), P25Codeword::for_power(0)])
        * Polynomial::new(&[P25Codeword::for_power(3), P25Codeword::for_power(0)])
        * Polynomial::new(&[P25Codeword::for_power(4), P25Codeword::for_power(0)])
        * Polynomial::new(&[P25Codeword::for_power(5), P25Codeword::for_power(0)])
        * Polynomial::new(&[P25Codeword::for_power(6), P25Codeword::for_power(0)])
        * Polynomial::new(&[P25Codeword::for_power(7), P25Codeword::for_power(0)])
        * Polynomial::new(&[P25Codeword::for_power(8), P25Codeword::for_power(0)])
        * Polynomial::new(&[P25Codeword::for_power(9), P25Codeword::for_power(0)])
        * Polynomial::new(&[P25Codeword::for_power(10), P25Codeword::for_power(0)])
        * Polynomial::new(&[P25Codeword::for_power(11), P25Codeword::for_power(0)])
        * Polynomial::new(&[P25Codeword::for_power(12), P25Codeword::for_power(0)]);

    assert_eq!(p.degree().unwrap(), 12);
    assert_eq!(p.coef(0).bits(), 0o50);
    assert_eq!(p.coef(1).bits(), 0o41);
    assert_eq!(p.coef(2).bits(), 0o02);
    assert_eq!(p.coef(3).bits(), 0o74);
    assert_eq!(p.coef(4).bits(), 0o11);
    assert_eq!(p.coef(5).bits(), 0o60);
    assert_eq!(p.coef(6).bits(), 0o34);
    assert_eq!(p.coef(7).bits(), 0o71);
    assert_eq!(p.coef(8).bits(), 0o03);
    assert_eq!(p.coef(9).bits(), 0o55);
    assert_eq!(p.coef(10).bits(), 0o05);
    assert_eq!(p.coef(11).bits(), 0o71);
    assert_eq!(p.coef(12).bits(), 0o01);
}

#[test]
fn verify_long_gen() {
    let p = Polynomial::<LongCoefs>::new(&[P25Codeword::for_power(1), P25Codeword::for_power(0)])
        * Polynomial::new(&[P25Codeword::for_power(2), P25Codeword::for_power(0)])
        * Polynomial::new(&[P25Codeword::for_power(3), P25Codeword::for_power(0)])
        * Polynomial::new(&[P25Codeword::for_power(4), P25Codeword::for_power(0)])
        * Polynomial::new(&[P25Codeword::for_power(5), P25Codeword::for_power(0)])
        * Polynomial::new(&[P25Codeword::for_power(6), P25Codeword::for_power(0)])
        * Polynomial::new(&[P25Codeword::for_power(7), P25Codeword::for_power(0)])
        * Polynomial::new(&[P25Codeword::for_power(8), P25Codeword::for_power(0)])
        * Polynomial::new(&[P25Codeword::for_power(9), P25Codeword::for_power(0)])
        * Polynomial::new(&[P25Codeword::for_power(10), P25Codeword::for_power(0)])
        * Polynomial::new(&[P25Codeword::for_power(11), P25Codeword::for_power(0)])
        * Polynomial::new(&[P25Codeword::for_power(12), P25Codeword::for_power(0)])
        * Polynomial::new(&[P25Codeword::for_power(13), P25Codeword::for_power(0)])
        * Polynomial::new(&[P25Codeword::for_power(14), P25Codeword::for_power(0)])
        * Polynomial::new(&[P25Codeword::for_power(15), P25Codeword::for_power(0)])
        * Polynomial::new(&[P25Codeword::for_power(16), P25Codeword::for_power(0)]);

    assert_eq!(p.degree().unwrap(), 16);
    assert_eq!(p.coef(0).bits(), 0o60);
    assert_eq!(p.coef(1).bits(), 0o73);
    assert_eq!(p.coef(2).bits(), 0o46);
    assert_eq!(p.coef(3).bits(), 0o51);
    assert_eq!(p.coef(4).bits(), 0o73);
    assert_eq!(p.coef(5).bits(), 0o05);
    assert_eq!(p.coef(6).bits(), 0o42);
    assert_eq!(p.coef(7).bits(), 0o64);
    assert_eq!(p.coef(8).bits(), 0o33);
    assert_eq!(p.coef(9).bits(), 0o22);
    assert_eq!(p.coef(10).bits(), 0o27);
    assert_eq!(p.coef(11).bits(), 0o21);
    assert_eq!(p.coef(12).bits(), 0o23);
    assert_eq!(p.coef(13).bits(), 0o02);
    assert_eq!(p.coef(14).bits(), 0o35);
    assert_eq!(p.coef(15).bits(), 0o34);
    assert_eq!(p.coef(16).bits(), 0o01);
}

#[test]
fn test_decode_short() {
    let mut buf = [Hexbit::default(); 24];
    [1, 0, 0, 0, 0, 0, 0, 0, 0, 0, 0, 0]
        .iter()
        .map(|&b| Hexbit::new(b))
        .collect_slice(&mut buf[..]);

    short::encode(&mut buf);

    buf[0] = Hexbit::new(0o00);
    buf[2] = Hexbit::new(0o60);
    buf[7] = Hexbit::new(0o42);
    buf[13] = Hexbit::new(0o14);
    buf[18] = Hexbit::new(0o56);
    buf[23] = Hexbit::new(0o72);

    let dec = short::decode(&mut buf);
    let exp = [
        Hexbit::new(1),
        Hexbit::new(0),
        Hexbit::new(0),
        Hexbit::new(0),
        Hexbit::new(0),
        Hexbit::new(0),
        Hexbit::new(0),
        Hexbit::new(0),
        Hexbit::new(0),
        Hexbit::new(0),
        Hexbit::new(0),
        Hexbit::new(0),
    ];

    assert_eq!(dec, Some((&exp[..], 6)));
}

#[test]
fn test_decode_med() {
    let mut buf = [Hexbit::default(); 24];
    [1, 0, 0, 0, 0, 0, 0, 0, 0, 0, 0, 0, 0, 0, 0, 0]
        .iter()
        .map(|&b| Hexbit::new(b))
        .collect_slice(&mut buf[..]);

    medium::encode(&mut buf);

    buf[0] = Hexbit::new(0o00);
    buf[10] = Hexbit::new(0o60);
    buf[16] = Hexbit::new(0o42);
    buf[23] = Hexbit::new(0o14);

    let dec = medium::decode(&mut buf);
    let exp = [
        Hexbit::new(1),
        Hexbit::new(0),
        Hexbit::new(0),
        Hexbit::new(0),
        Hexbit::new(0),
        Hexbit::new(0),
        Hexbit::new(0),
        Hexbit::new(0),
        Hexbit::new(0),
        Hexbit::new(0),
        Hexbit::new(0),
        Hexbit::new(0),
        Hexbit::new(0),
        Hexbit::new(0),
        Hexbit::new(0),
        Hexbit::new(0),
    ];

    assert_eq!(dec, Some((&exp[..], 4)));
}

#[test]
fn test_decode_long() {
    // Test random error locations.
    let mut buf = [Hexbit::default(); 36];
    [1, 0, 0, 0, 0, 0, 0, 0, 0, 0, 0, 0, 0, 0, 0, 0, 0, 0, 0, 0]
        .iter()
        .map(|&b| Hexbit::new(b))
        .collect_slice(&mut buf[..]);

    long::encode(&mut buf);

    buf[0] = Hexbit::new(0o00);
    buf[2] = Hexbit::new(0o43);
    buf[5] = Hexbit::new(0o21);
    buf[10] = Hexbit::new(0o11);
    buf[18] = Hexbit::new(0o67);
    buf[22] = Hexbit::new(0o04);
    buf[27] = Hexbit::new(0o12);
    buf[30] = Hexbit::new(0o32);

    let dec = long::decode(&mut buf);
    let exp = [
        Hexbit::new(1),
        Hexbit::new(0),
        Hexbit::new(0),
        Hexbit::new(0),
        Hexbit::new(0),
        Hexbit::new(0),
        Hexbit::new(0),
        Hexbit::new(0),
        Hexbit::new(0),
        Hexbit::new(0),
        Hexbit::new(0),
        Hexbit::new(0),
        Hexbit::new(0),
        Hexbit::new(0),
        Hexbit::new(0),
        Hexbit::new(0),
        Hexbit::new(0),
        Hexbit::new(0),
        Hexbit::new(0),
        Hexbit::new(0),
    ];

    assert_eq!(dec, Some((&exp[..], 8)));

    let exp = [
        Hexbit::new(0o77),
        Hexbit::new(0o77),
        Hexbit::new(0o77),
        Hexbit::new(0o77),
        Hexbit::new(0o77),
        Hexbit::new(0o77),
        Hexbit::new(0o77),
        Hexbit::new(0o77),
        Hexbit::new(0o77),
        Hexbit::new(0o77),
        Hexbit::new(0o77),
        Hexbit::new(0o77),
        Hexbit::new(0o77),
        Hexbit::new(0o77),
        Hexbit::new(0o77),
        Hexbit::new(0o77),
        Hexbit::new(0o77),
        Hexbit::new(0o77),
        Hexbit::new(0o77),
        Hexbit::new(0o77),
    ];

    // Test 6-bit error in each location.
    for i in 0..36 {
        let mut buf = [Hexbit::default(); 36];
        [
            0o77, 0o77, 0o77, 0o77, 0o77, 0o77, 0o77, 0o77, 0o77, 0o77, 0o77, 0o77, 0o77, 0o77,
            0o77, 0o77, 0o77, 0o77, 0o77, 0o77,
        ]
        .iter()
        .cloned()
        .map(Hexbit::new)
        .collect_slice(&mut buf[..]);
        long::encode(&mut buf);

        buf[i] = Hexbit::new(0);
        let dec = long::decode(&mut buf);

        assert_eq!(dec, Some((&exp[..], 1)));
    }

    // Test contiguous 48-bit error.
    for i in 0..29 {
        let mut buf = [Hexbit::default(); 36];
        [
            0o77, 0o77, 0o77, 0o77, 0o77, 0o77, 0o77, 0o77, 0o77, 0o77, 0o77, 0o77, 0o77, 0o77,
            0o77, 0o77, 0o77, 0o77, 0o77, 0o77,
        ]
        .iter()
        .cloned()
        .map(Hexbit::new)
        .collect_slice(&mut buf[..]);
        long::encode(&mut buf);

        buf[i] = Hexbit::new(0);
        buf[i + 1] = Hexbit::new(0);
        buf[i + 2] = Hexbit::new(0);
        buf[i + 3] = Hexbit::new(0);
        buf[i + 4] = Hexbit::new(0);
        buf[i + 5] = Hexbit::new(0);
        buf[i + 6] = Hexbit::new(0);
        buf[i + 7] = Hexbit::new(0);
        let dec = long::decode(&mut buf);

        assert_eq!(dec, Some((&exp[..], 8)));
    }
}

#[test]
fn test_unrecoverable() {
    // These unrecoverable received words caused divide-by-zero errors due to
    // detectable discrepancy between the degree of the error locator polynomial and
    // the number of roots found.

    let mut w = [
        Hexbit::new(0),
        Hexbit::new(0),
        Hexbit::new(0),
        Hexbit::new(0),
        Hexbit::new(0),
        Hexbit::new(0),
        Hexbit::new(0),
        Hexbit::new(0),
        Hexbit::new(0),
        Hexbit::new(0),
        Hexbit::new(0),
        Hexbit::new(0),
        Hexbit::new(0),
        Hexbit::new(8),
        Hexbit::new(0),
        Hexbit::new(0),
        Hexbit::new(0),
        Hexbit::new(6),
        Hexbit::new(46),
        Hexbit::new(28),
        Hexbit::new(27),
        Hexbit::new(63),
        Hexbit::new(38),
        Hexbit::new(0),
        Hexbit::new(36),
        Hexbit::new(4),
        Hexbit::new(0),
        Hexbit::new(0),
        Hexbit::new(24),
        Hexbit::new(0),
        Hexbit::new(27),
        Hexbit::new(47),
        Hexbit::new(0),
        Hexbit::new(0),
        Hexbit::new(0),
        Hexbit::new(0),
    ];
    assert_eq!(long::decode(&mut w), None);

    let mut w = [
        Hexbit::new(0),
        Hexbit::new(0),
        Hexbit::new(0),
        Hexbit::new(0),
        Hexbit::new(0),
        Hexbit::new(0),
        Hexbit::new(0),
        Hexbit::new(0),
        Hexbit::new(0),
        Hexbit::new(0),
        Hexbit::new(0),
        Hexbit::new(0),
        Hexbit::new(0),
        Hexbit::new(8),
        Hexbit::new(0),
        Hexbit::new(0),
        Hexbit::new(0),
        Hexbit::new(3),
        Hexbit::new(28),
        Hexbit::new(0),
        Hexbit::new(0),
        Hexbit::new(29),
        Hexbit::new(4),
        Hexbit::new(8),
        Hexbit::new(46),
        Hexbit::new(0),
        Hexbit::new(19),
        Hexbit::new(0),
        Hexbit::new(0),
        Hexbit::new(11),
        Hexbit::new(0),
        Hexbit::new(52),
        Hexbit::new(0),
        Hexbit::new(53),
        Hexbit::new(35),
        Hexbit::new(3),
    ];
    assert_eq!(long::decode(&mut w), None);

    // More general unrecoverable words.

    let mut w = [
        Hexbit::new(0),
        Hexbit::new(0),
        Hexbit::new(0),
        Hexbit::new(0),
        Hexbit::new(0),
        Hexbit::new(0),
        Hexbit::new(0),
        Hexbit::new(0),
        Hexbit::new(0),
        Hexbit::new(0),
        Hexbit::new(0),
        Hexbit::new(0),
        Hexbit::new(0),
        Hexbit::new(0),
        Hexbit::new(4),
        Hexbit::new(51),
        Hexbit::new(0),
        Hexbit::new(33),
        Hexbit::new(39),
        Hexbit::new(34),
        Hexbit::new(0),
        Hexbit::new(20),
        Hexbit::new(48),
        Hexbit::new(44),
        Hexbit::new(0),
        Hexbit::new(25),
        Hexbit::new(0),
        Hexbit::new(0),
        Hexbit::new(0),
        Hexbit::new(16),
        Hexbit::new(40),
        Hexbit::new(0),
        Hexbit::new(0),
        Hexbit::new(60),
        Hexbit::new(51),
        Hexbit::new(38),
    ];
    assert_eq!(long::decode(&mut w), None);

    let mut w = [
        Hexbit::new(0),
        Hexbit::new(0),
        Hexbit::new(0),
        Hexbit::new(0),
        Hexbit::new(0),
        Hexbit::new(0),
        Hexbit::new(0),
        Hexbit::new(0),
        Hexbit::new(0),
        Hexbit::new(0),
        Hexbit::new(0),
        Hexbit::new(0),
        Hexbit::new(0),
        Hexbit::new(8),
        Hexbit::new(0),
        Hexbit::new(0),
        Hexbit::new(0),
        Hexbit::new(0),
        Hexbit::new(0),
        Hexbit::new(19),
        Hexbit::new(39),
        Hexbit::new(0),
        Hexbit::new(11),
        Hexbit::new(12),
        Hexbit::new(0),
        Hexbit::new(0),
        Hexbit::new(33),
        Hexbit::new(35),
        Hexbit::new(3),
        Hexbit::new(36),
        Hexbit::new(0),
        Hexbit::new(0),
        Hexbit::new(37),
        Hexbit::new(46),
        Hexbit::new(0),
        Hexbit::new(20),
    ];
    assert_eq!(long::decode(&mut w), None);
}

#[test]
fn test_received_decode() {
    // Just a few examples of received words that should be recoverable.

    let mut w = [
        Hexbit::new(0),
        Hexbit::new(0),
        Hexbit::new(0),
        Hexbit::new(0),
        Hexbit::new(0),
        Hexbit::new(0),
        Hexbit::new(0),
        Hexbit::new(0),
        Hexbit::new(0),
        Hexbit::new(0),
        Hexbit::new(0),
        Hexbit::new(0),
        Hexbit::new(0),
        Hexbit::new(8),
        Hexbit::new(0),
        Hexbit::new(0),
        Hexbit::new(0),
        Hexbit::new(13),
        Hexbit::new(21),
        Hexbit::new(46),
        Hexbit::new(4),
        Hexbit::new(22),
        Hexbit::new(12),
        Hexbit::new(9),
        Hexbit::new(52),
        Hexbit::new(25),
        Hexbit::new(13),
        Hexbit::new(58),
        Hexbit::new(28),
        Hexbit::new(58),
        Hexbit::new(0),
        Hexbit::new(51),
        Hexbit::new(62),
        Hexbit::new(41),
        Hexbit::new(34),
        Hexbit::new(22),
    ];
    let exp = [
        Hexbit::new(0),
        Hexbit::new(0),
        Hexbit::new(0),
        Hexbit::new(0),
        Hexbit::new(0),
        Hexbit::new(0),
        Hexbit::new(0),
        Hexbit::new(0),
        Hexbit::new(0),
        Hexbit::new(0),
        Hexbit::new(0),
        Hexbit::new(0),
        Hexbit::new(0),
        Hexbit::new(8),
        Hexbit::new(0),
        Hexbit::new(0),
        Hexbit::new(0),
        Hexbit::new(13),
        Hexbit::new(21),
        Hexbit::new(46),
    ];
    assert_eq!(long::decode(&mut w), Some((&exp[..], 6)));

    let mut w = [
        Hexbit::new(0),
        Hexbit::new(0),
        Hexbit::new(0),
        Hexbit::new(0),
        Hexbit::new(0),
        Hexbit::new(0),
        Hexbit::new(0),
        Hexbit::new(0),
        Hexbit::new(0),
        Hexbit::new(0),
        Hexbit::new(0),
        Hexbit::new(0),
        Hexbit::new(0),
        Hexbit::new(8),
        Hexbit::new(0),
        Hexbit::new(0),
        Hexbit::new(0),
        Hexbit::new(3),
        Hexbit::new(18),
        Hexbit::new(63),
        Hexbit::new(14),
        Hexbit::new(62),
        Hexbit::new(37),
        Hexbit::new(37),
        Hexbit::new(41),
        Hexbit::new(45),
        Hexbit::new(54),
        Hexbit::new(14),
        Hexbit::new(49),
        Hexbit::new(31),
        Hexbit::new(15),
        Hexbit::new(48),
        Hexbit::new(46),
        Hexbit::new(0),
        Hexbit::new(0),
        Hexbit::new(0),
    ];
    let exp = [
        Hexbit::new(0),
        Hexbit::new(0),
        Hexbit::new(0),
        Hexbit::new(0),
        Hexbit::new(0),
        Hexbit::new(0),
        Hexbit::new(0),
        Hexbit::new(0),
        Hexbit::new(0),
        Hexbit::new(0),
        Hexbit::new(0),
        Hexbit::new(0),
        Hexbit::new(0),
        Hexbit::new(8),
        Hexbit::new(0),
        Hexbit::new(0),
        Hexbit::new(0),
        Hexbit::new(3),
        Hexbit::new(18),
        Hexbit::new(63),
    ];
    assert_eq!(long::decode(&mut w), Some((&exp[..], 3)));

    let mut w = [
        Hexbit::new(0),
        Hexbit::new(0),
        Hexbit::new(0),
        Hexbit::new(0),
        Hexbit::new(0),
        Hexbit::new(0),
        Hexbit::new(0),
        Hexbit::new(0),
        Hexbit::new(0),
        Hexbit::new(0),
        Hexbit::new(0),
        Hexbit::new(0),
        Hexbit::new(0),
        Hexbit::new(8),
        Hexbit::new(0),
        Hexbit::new(0),
        Hexbit::new(0),
        Hexbit::new(3),
        Hexbit::new(18),
        Hexbit::new(63),
        Hexbit::new(14),
        Hexbit::new(62),
        Hexbit::new(37),
        Hexbit::new(37),
        Hexbit::new(41),
        Hexbit::new(45),
        Hexbit::new(54),
        Hexbit::new(14),
        Hexbit::new(49),
        Hexbit::new(31),
        Hexbit::new(15),
        Hexbit::new(48),
        Hexbit::new(46),
        Hexbit::new(58),
        Hexbit::new(51),
        Hexbit::new(54),
    ];
    let exp = [
        Hexbit::new(0),
        Hexbit::new(0),
        Hexbit::new(0),
        Hexbit::new(0),
        Hexbit::new(0),
        Hexbit::new(0),
        Hexbit::new(0),
        Hexbit::new(0),
        Hexbit::new(0),
        Hexbit::new(0),
        Hexbit::new(0),
        Hexbit::new(0),
        Hexbit::new(0),
        Hexbit::new(8),
        Hexbit::new(0),
        Hexbit::new(0),
        Hexbit::new(0),
        Hexbit::new(3),
        Hexbit::new(18),
        Hexbit::new(63),
    ];
    assert_eq!(long::decode(&mut w), Some((&exp[..], 0)));

    let mut w = [
        Hexbit::new(0),
        Hexbit::new(0),
        Hexbit::new(0),
        Hexbit::new(0),
        Hexbit::new(0),
        Hexbit::new(0),
        Hexbit::new(0),
        Hexbit::new(0),
        Hexbit::new(0),
        Hexbit::new(0),
        Hexbit::new(0),
        Hexbit::new(0),
        Hexbit::new(0),
        Hexbit::new(8),
        Hexbit::new(0),
        Hexbit::new(0),
        Hexbit::new(0),
        Hexbit::new(3),
        Hexbit::new(18),
        Hexbit::new(63),
        Hexbit::new(14),
        Hexbit::new(62),
        Hexbit::new(37),
        Hexbit::new(37),
        Hexbit::new(41),
        Hexbit::new(45),
        Hexbit::new(54),
        Hexbit::new(14),
        Hexbit::new(49),
        Hexbit::new(31),
        Hexbit::new(15),
        Hexbit::new(48),
        Hexbit::new(47),
        Hexbit::new(40),
        Hexbit::new(0),
        Hexbit::new(12),
    ];
    let exp = [
        Hexbit::new(0),
        Hexbit::new(0),
        Hexbit::new(0),
        Hexbit::new(0),
        Hexbit::new(0),
        Hexbit::new(0),
        Hexbit::new(0),
        Hexbit::new(0),
        Hexbit::new(0),
        Hexbit::new(0),
        Hexbit::new(0),
        Hexbit::new(0),
        Hexbit::new(0),
        Hexbit::new(8),
        Hexbit::new(0),
        Hexbit::new(0),
        Hexbit::new(0),
        Hexbit::new(3),
        Hexbit::new(18),
        Hexbit::new(63),
    ];
    assert_eq!(long::decode(&mut w), Some((&exp[..], 4)));
}

#[test]
fn test_out_of_bounds() {
    // Tests received words that cause attempted out-of-bounds corrections

    // 4 errors, attempted access at location 34.
    let mut w = [
        Hexbit::new(0),
        Hexbit::new(0),
        Hexbit::new(0),
        Hexbit::new(0),
        Hexbit::new(51),
        Hexbit::new(19),
        Hexbit::new(8),
        Hexbit::new(35),
        Hexbit::new(48),
        Hexbit::new(61),
        Hexbit::new(0),
        Hexbit::new(1),
        Hexbit::new(11),
        Hexbit::new(44),
        Hexbit::new(10),
        Hexbit::new(0),
        Hexbit::new(11),
        Hexbit::new(0),
        Hexbit::new(15),
        Hexbit::new(56),
        Hexbit::new(50),
        Hexbit::new(0),
        Hexbit::new(0),
        Hexbit::new(0),
    ];

    assert_eq!(medium::decode(&mut w), None);

    // 6 errors, attempted access at location 61.
    let mut w = [
        Hexbit::new(0),
        Hexbit::new(0),
        Hexbit::new(0),
        Hexbit::new(4),
        Hexbit::new(0),
        Hexbit::new(3),
        Hexbit::new(34),
        Hexbit::new(28),
        Hexbit::new(7),
        Hexbit::new(13),
        Hexbit::new(61),
        Hexbit::new(32),
        Hexbit::new(27),
        Hexbit::new(55),
        Hexbit::new(49),
        Hexbit::new(7),
        Hexbit::new(0),
        Hexbit::new(0),
        Hexbit::new(0),
        Hexbit::new(0),
        Hexbit::new(0),
        Hexbit::new(0),
        Hexbit::new(0),
        Hexbit::new(0),
    ];

    assert_eq!(short::decode(&mut w), None);
}

fn hexbits(bits: &[u8]) -> Vec<Hexbit> {
    bits.iter().map(|&b| Hexbit::new(b)).collect()
}

const SHORT_WORD: [u8; 24] = [
    3, 10, 17, 24, 31, 38, 45, 52, 59, 2, 9, 16, 41, 63, 60, 26, 45, 24, 19, 16, 23, 7, 39, 8,
];

const MED_WORD: [u8; 24] = [
    1, 6, 11, 16, 21, 26, 31, 36, 41, 46, 51, 56, 61, 2, 7, 12, 46, 12, 30, 12, 3, 11, 2, 25,
];

const LONG_WORD: [u8; 36] = [
    2, 13, 24, 35, 46, 57, 4, 15, 26, 37, 48, 59, 6, 17, 28, 39, 50, 61, 8, 19, 52, 58, 28, 38,
    38, 8, 42, 14, 59, 13, 11, 4, 56, 7, 7, 3,
];

fn short_buf(bits: &[u8]) -> [Hexbit; 24] {
    let mut buf = [Hexbit::default(); 24];
    hexbits(bits).into_iter().collect_slice(&mut buf[..]);
    buf
}

fn med_buf(bits: &[u8]) -> [Hexbit; 24] {
    short_buf(bits)
}

fn long_buf(bits: &[u8]) -> [Hexbit; 36] {
    let mut buf = [Hexbit::default(); 36];
    hexbits(bits).into_iter().collect_slice(&mut buf[..]);
    buf
}

#[test]
fn test_encode_exact() {
    let mut buf = short_buf(&SHORT_WORD[..12]);
    // Whatever is in the parity part is overwritten.
    buf[12] = Hexbit::new(0o77);
    buf[23] = Hexbit::new(0o77);
    short::encode(&mut buf);
    assert_eq!(&buf[..], &hexbits(&SHORT_WORD)[..]);

    let mut buf = med_buf(&MED_WORD[..16]);
    medium::encode(&mut buf);
    assert_eq!(&buf[..], &hexbits(&MED_WORD)[..]);

    let mut buf = long_buf(&LONG_WORD[..20]);
    long::encode(&mut buf);
    assert_eq!(&buf[..], &hexbits(&LONG_WORD)[..]);

    let mut buf = [Hexbit::default(); 36];
    long::encode(&mut buf);
    assert_eq!(buf, [Hexbit::default(); 36]);
}

#[test]
fn test_encode_unit_data() {
    // The codeword of a single 1 holds a column of the generator matrix.
    let mut buf = [Hexbit::default(); 24];
    buf[11] = Hexbit::new(1);
    short::encode(&mut buf);
    for p in 0..12 {
        assert_eq!(buf[12 + p].bits(), short::GEN[p][11]);
    }

    let mut buf = [Hexbit::default(); 24];
    buf[0] = Hexbit::new(1);
    medium::encode(&mut buf);
    for p in 0..8 {
        assert_eq!(buf[16 + p].bits(), medium::GEN[p][0]);
    }
}

#[test]
fn test_round_trip() {
    for seed in 0..64u8 {
        let data: Vec<u8> = (0..20u8).map(|i| (i * 11 + seed * 7) % 64).collect();

        let mut buf = short_buf(&data[..12]);
        short::encode(&mut buf);
        let word = buf;
        assert_eq!(short::decode(&mut buf), Some((&hexbits(&data[..12])[..], 0)));
        assert_eq!(buf, word);

        let mut buf = med_buf(&data[..16]);
        medium::encode(&mut buf);
        let word = buf;
        assert_eq!(medium::decode(&mut buf), Some((&hexbits(&data[..16])[..], 0)));
        assert_eq!(buf, word);

        let mut buf = long_buf(&data[..20]);
        long::encode(&mut buf);
        let word = buf;
        assert_eq!(long::decode(&mut buf), Some((&hexbits(&data[..20])[..], 0)));
        assert_eq!(buf, word);
    }
}

#[test]
fn test_single_errors() {
    for i in 0..24 {
        for pat in [0o01, 0o25, 0o77] {
            let mut buf = short_buf(&SHORT_WORD);
            buf[i] = Hexbit::new(buf[i].bits() ^ pat);
            assert_eq!(short::decode(&mut buf), Some((&hexbits(&SHORT_WORD[..12])[..], 1)));

            let mut buf = med_buf(&MED_WORD);
            buf[i] = Hexbit::new(buf[i].bits() ^ pat);
            assert_eq!(medium::decode(&mut buf), Some((&hexbits(&MED_WORD[..16])[..], 1)));
        }
    }

    for i in 0..36 {
        for pat in [0o01, 0o25, 0o77] {
            let mut buf = long_buf(&LONG_WORD);
            buf[i] = Hexbit::new(buf[i].bits() ^ pat);
            assert_eq!(long::decode(&mut buf), Some((&hexbits(&LONG_WORD[..20])[..], 1)));
        }
    }
}

#[test]
fn test_correctable_errors() {
    // Every run of up to t errors, from every start.
    for start in 0..24 {
        for len in 1..=6 {
            let mut buf = short_buf(&SHORT_WORD);
            for i in 0..len {
                let at = (start + 5 * i) % 24;
                buf[at] = Hexbit::new(buf[at].bits() ^ (1 + i as u8 * 8));
            }
            assert_eq!(short::decode(&mut buf), Some((&hexbits(&SHORT_WORD[..12])[..], len)));
        }
        for len in 1..=4 {
            let mut buf = med_buf(&MED_WORD);
            for i in 0..len {
                let at = (start + i) % 24;
                buf[at] = Hexbit::new(buf[at].bits() ^ (1 + i as u8 * 8));
            }
            assert_eq!(medium::decode(&mut buf), Some((&hexbits(&MED_WORD[..16])[..], len)));
        }
    }
    for start in 0..36 {
        for len in 1..=8 {
            let mut buf = long_buf(&LONG_WORD);
            for i in 0..len {
                let at = (start + 7 * i) % 36;
                buf[at] = Hexbit::new(buf[at].bits() ^ (1 + i as u8 * 8));
            }
            assert_eq!(long::decode(&mut buf), Some((&hexbits(&LONG_WORD[..20])[..], len)));
        }
    }
}

#[test]
fn test_decode_writes_data_only() {
    // One error among the data symbols and one among the parity symbols: the data part of
    // the buffer is corrected, the parity part is left as received.
    let mut buf = short_buf(&SHORT_WORD);
    buf[1] = Hexbit::new(SHORT_WORD[1] ^ 7);
    buf[20] = Hexbit::new(SHORT_WORD[20] ^ 5);
    assert_eq!(short::decode(&mut buf), Some((&hexbits(&SHORT_WORD[..12])[..], 2)));
    let mut expected = short_buf(&SHORT_WORD);
    expected[20] = Hexbit::new(SHORT_WORD[20] ^ 5);
    assert_eq!(buf, expected);
}

#[test]
fn test_failure_leaves_buffer() {
    // The short codeword above with 7 errors.
    let received = [
        57, 10, 17, 24, 31, 38, 45, 52, 6, 2, 9, 0, 41, 63, 55, 26, 41, 24, 19, 34, 61, 7, 39, 8,
    ];
    let mut buf = short_buf(&received);
    assert_eq!(short::decode(&mut buf), None);
    assert_eq!(buf, short_buf(&received));
}

#[test]
fn test_syndromes() {
    let coefs: Vec<_> = MED_WORD.iter().rev().map(|&b| P25Codeword::new(b)).collect();
    let mut word = Polynomial::<MedCoefs>::new(&coefs);
    let syn = reed_solomon::syndromes(&word);
    assert_eq!(syn.degree(), None);

    // Symbol 3 of the word is the coefficient of x^20.
    assert!(word.set_coefficient(20, P25Codeword::new(MED_WORD[3] ^ 0o25)));
    let syn = reed_solomon::syndromes(&word);
    let expected = [24, 56, 26, 3, 7, 50, 8, 41];
    for i in 0..24 {
        assert_eq!(syn.coef(i).bits(), if i < 8 { expected[i] } else { 0 });
    }
}

#[test]
fn test_generic_encode() {
    let data = hexbits(&[1, 2, 3]);
    let mut parity = [Hexbit::default(); 2];
    let gen = [[1, 1, 1], [0o40, 2, 0]];
    reed_solomon::encode(&data, &mut parity, &gen);
    // α^5 α^0 + α α = α^5 + α^2.
    assert_eq!(parity, [Hexbit::new(1 ^ 2 ^ 3), Hexbit::new(0o40 ^ 0o04)]);
}

#[test]
fn test_generic_decode() {
    let mut received = hexbits(&MED_WORD);
    received[23] = Hexbit::new(MED_WORD[23] ^ 0o60);
    received[0] = Hexbit::new(MED_WORD[0] ^ 0o01);
    let (poly, err) = reed_solomon::decode::<MedCoefs>(&received).unwrap();
    assert_eq!(err, 2);
    for i in 0..24 {
        assert_eq!(poly.coef(i).bits(), MED_WORD[23 - i]);
    }
}

#[test]
fn test_extract_data() {
    let coefs: Vec<_> = (0..24).map(|i| P25Codeword::new(i)).collect();
    let poly = Polynomial::<ShortCoefs>::new(&coefs);
    let mut data = [Hexbit::default(); 5];
    let written = reed_solomon::extract_data(poly, &mut data);
    assert_eq!(written, &hexbits(&[23, 22, 21, 20, 19])[..]);
    assert_eq!(data, [Hexbit::new(23), Hexbit::new(22), Hexbit::new(21), Hexbit::new(20),
        Hexbit::new(19)]);

    let mut all = [Hexbit::default(); 24];
    reed_solomon::extract_data(poly, &mut all);
    assert_eq!(all[0], Hexbit::new(23));
    assert_eq!(all[23], Hexbit::new(0));
}

/// The product (x + α)(x + α^2)···(x + α^roots), coefficient of the highest-degree term
/// first.
fn generator(roots: usize) -> Vec<u8> {
    let mut p = Polynomial::<LongCoefs>::unit_power(0);
    for i in 1..=roots {
        p = p * Polynomial::new(&[P25Codeword::for_power(i), P25Codeword::for_power(0)]);
    }
    (0..=roots).rev().map(|i| p.coef(i).bits()).collect()
}

#[test]
fn test_generator_polynomials() {
    assert_eq!(generator(12), short::GENERATOR);
    assert_eq!(generator(8), medium::GENERATOR);
    assert_eq!(generator(16), long::GENERATOR);
}

#[test]
fn test_generator_matrix_columns() {
    // The last column of each matrix is the generator polynomial without its first term.
    for p in 0..12 {
        assert_eq!(short::GEN[p][11], short::GENERATOR[p + 1]);
    }
    for p in 0..8 {
        assert_eq!(medium::GEN[p][15], medium::GENERATOR[p + 1]);
    }
    for p in 0..16 {
        assert_eq!(long::GEN[p][19], long::GENERATOR[p + 1]);
    }

    // Each other column is x times the next one, reduced by the generator polynomial.
    for m in 1..20 {
        let lead = P25Codeword::new(long::GEN[0][m]);
        for p in 0..16 {
            let above = if p + 1 < 16 { long::GEN[p + 1][m] } else { 0 };
            let multiple = lead * P25Codeword::new(long::GENERATOR[p + 1]);
            assert_eq!(long::GEN[p][m - 1], above ^ multiple.bits());
        }
    }
}

/// A small generator of repeatable pseudo-random numbers.
struct Xorshift(u32);

impl Xorshift {
    fn next(&mut self) -> u32 {
        self.0 ^= self.0 << 13;
        self.0 ^= self.0 >> 17;
        self.0 ^= self.0 << 5;
        self.0
    }

    fn below(&mut self, bound: u32) -> u32 {
        self.next() % bound
    }
}

/// Replace `count` different symbols of the word by other symbols.
fn corrupt(rng: &mut Xorshift, word: &mut [Hexbit], count: usize) {
    let mut hit = vec![false; word.len()];
    let mut done = 0;
    while done < count {
        let at = rng.below(word.len() as u32) as usize;
        if !hit[at] {
            hit[at] = true;
            let pattern = 1 + rng.below(63) as u8;
            word[at] = Hexbit::new(word[at].bits() ^ pattern);
            done += 1;
        }
    }
}

#[test]
fn test_random_errors_short() {
    let mut rng = Xorshift(0x2545f491);
    for round in 0..300 {
        let data: Vec<u8> = (0..12).map(|_| rng.below(64) as u8).collect();
        let mut buf = short_buf(&data);
        short::encode(&mut buf);
        let errors = round % 7;
        corrupt(&mut rng, &mut buf, errors);
        assert_eq!(short::decode(&mut buf), Some((&hexbits(&data)[..], errors)));
    }
}

#[test]
fn test_random_errors_medium() {
    let mut rng = Xorshift(0x9e3779b9);
    for round in 0..300 {
        let data: Vec<u8> = (0..16).map(|_| rng.below(64) as u8).collect();
        let mut buf = med_buf(&data);
        medium::encode(&mut buf);
        let errors = round % 5;
        corrupt(&mut rng, &mut buf, errors);
        assert_eq!(medium::decode(&mut buf), Some((&hexbits(&data)[..], errors)));
    }
}

#[test]
fn test_random_errors_long() {
    let mut rng = Xorshift(0x7f4a7c15);
    for round in 0..300 {
        let data: Vec<u8> = (0..20).map(|_| rng.below(64) as u8).collect();
        let mut buf = long_buf(&data);
        long::encode(&mut buf);
        let errors = round % 9;
        corrupt(&mut rng, &mut buf, errors);
        assert_eq!(long::decode(&mut buf), Some((&hexbits(&data)[..], errors)));
    }
}

#[test]
fn test_beyond_capacity() {
    // A word with more errors than the code corrects can decode to anything. In this word
    // of the medium code, 8 symbols from the all-zero codeword, only the first syndrome is
    // not zero, and the decoder locates no error.
    let mut buf = med_buf(&[
        0, 0, 0, 0, 0, 0, 0, 0, 0, 0, 0, 0, 0, 0, 0, 0, 30, 29, 18, 16, 24, 13, 8, 23,
    ]);
    assert_eq!(medium::decode(&mut buf), Some((&[Hexbit::default(); 16][..], 0)));
}
