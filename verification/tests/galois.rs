use p25_fec::coding::galois::{P25Codeword, CODEWORDS, POWERS};

/// Multiply two field elements as polynomials over GF(2), reducing by x^6 + x + 1.
fn multiply_bits(a: u8, b: u8) -> u8 {
    let mut acc = 0u8;
    let mut shifted = a;
    for bit in 0..6 {
        if b >> bit & 1 == 1 {
            acc ^= shifted;
        }
        shifted <<= 1;
        if shifted & 0x40 != 0 {
            shifted ^= 0x43;
        }
    }
    acc
}

#[test]
fn test_field_for_power() {
    assert_eq!(P25Codeword::for_power(0).bits(), 0b000001);
    assert_eq!(P25Codeword::for_power(1).bits(), 0b000010);
    assert_eq!(P25Codeword::for_power(5).bits(), 0b100000);
    assert_eq!(P25Codeword::for_power(6).bits(), 0b000011);
    assert_eq!(P25Codeword::for_power(62).bits(), 0b100001);
    assert_eq!(P25Codeword::for_power(63).bits(), 0b000001);
    assert_eq!(P25Codeword::for_power(64).bits(), 0b000010);
    assert_eq!(P25Codeword::for_power(63 * 5 + 20).bits(), 0o74);
}

#[test]
fn test_field_power() {
    assert_eq!(P25Codeword::default().power(), None);
    assert_eq!(P25Codeword::new(0b000001).power(), Some(0));
    assert_eq!(P25Codeword::new(0b000010).power(), Some(1));
    assert_eq!(P25Codeword::new(0b000011).power(), Some(6));
    assert_eq!(P25Codeword::new(0b100001).power(), Some(62));

    for p in 0..63 {
        assert_eq!(P25Codeword::for_power(p).power(), Some(p));
    }

    for bits in 1..64 {
        let c = P25Codeword::new(bits);
        assert_eq!(P25Codeword::for_power(c.power().unwrap()), c);
    }
}

#[test]
fn test_field_tables() {
    // Each power of α is α times the one before.
    assert_eq!(CODEWORDS[0], 1);
    for p in 0..62 {
        assert_eq!(CODEWORDS[p + 1], multiply_bits(CODEWORDS[p], 0b000010));
    }
    assert_eq!(multiply_bits(CODEWORDS[62], 0b000010), 1);

    for p in 0..63 {
        assert_eq!(POWERS[CODEWORDS[p] as usize - 1] as usize, p);
    }
}

#[test]
fn test_field_zero() {
    assert!(P25Codeword::default().zero());
    assert!(P25Codeword::new(0).zero());
    assert!(!P25Codeword::new(1).zero());
    assert!(!P25Codeword::for_power(40).zero());
    assert_eq!(P25Codeword::default().bits(), 0);
}

#[test]
fn test_field_add_sub() {
    let a = P25Codeword::new(0b110011);
    let b = P25Codeword::new(0b010101);
    assert_eq!((a + b).bits(), 0b100110);
    assert_eq!((a - b).bits(), 0b100110);
    assert_eq!((a + a).bits(), 0);
    assert_eq!((a + P25Codeword::default()).bits(), 0b110011);
}

#[test]
fn test_field_mul() {
    assert_eq!((P25Codeword::new(0o25) * P25Codeword::new(0o31)).bits(), 36);
    assert_eq!((P25Codeword::for_power(62) * P25Codeword::for_power(1)).bits(), 1);
    assert_eq!((P25Codeword::for_power(60) * P25Codeword::for_power(40)).bits(),
        P25Codeword::for_power(37).bits());

    for a in 0..64 {
        for b in 0..64 {
            let prod = P25Codeword::new(a) * P25Codeword::new(b);
            assert_eq!(prod.bits(), multiply_bits(a, b));
        }
    }
}

#[test]
fn test_field_mul_zero_absorbs() {
    for a in 0..64 {
        assert!((P25Codeword::new(a) * P25Codeword::default()).zero());
        assert!((P25Codeword::default() * P25Codeword::new(a)).zero());
    }
}

#[test]
fn test_field_mul_distributes() {
    for a in 0..64 {
        for b in 0..64 {
            for c in 0..64 {
                let (a, b, c) = (P25Codeword::new(a), P25Codeword::new(b), P25Codeword::new(c));
                assert_eq!(a * (b + c), a * b + a * c);
            }
        }
    }
}

#[test]
fn test_field_div_invert() {
    assert_eq!((P25Codeword::new(0o25) / P25Codeword::new(0o31)).bits(), 6);
    assert_eq!(P25Codeword::new(0o25).invert().bits(), 35);
    assert_eq!(P25Codeword::new(1).invert().bits(), 1);
    assert_eq!((P25Codeword::default() / P25Codeword::new(0o31)).bits(), 0);

    for a in 1..64 {
        let a = P25Codeword::new(a);
        assert_eq!((a * a.invert()).bits(), 1);
        assert_eq!((a / a).bits(), 1);

        for b in 0..64 {
            let b = P25Codeword::new(b);
            assert_eq!(b / a * a, b);
            assert_eq!(b / a, b * a.invert());
        }
    }
}
