use p25_fec::coding::hamming::{shortened, standard};

#[test]
fn test_standard() {
    assert_eq!(standard::encode(0), 0);
    assert_eq!(standard::encode(0b11111111111), 0b11111111111_1111);

    for w in 0..1 << 11 {
        assert_eq!(standard::decode(standard::encode(w)), Some((w, 0)));
    }

    let w = standard::encode(0b10101010101);
    assert_eq!(w, 0b10101010101_0101);
    assert_eq!(standard::decode(w), Some((0b10101010101, 0)));

    for i in 0..15 {
        assert_eq!(standard::decode(w ^ 1 << i), Some((0b10101010101, 1)));
    }

    for (i, j) in (0..15).zip(0..15) {
        if i != j {
            // Two-bit errors are detected as one-bit errors with an incorrect bit
            // correction, so just check for the detection.
            let (_, n) = standard::decode(w ^ (1 << i) ^ (1 << j)).unwrap();
            assert_eq!(n, 1);
        }
    }
}

#[test]
fn test_shortened() {
    assert_eq!(shortened::encode(0), 0);
    assert_eq!(shortened::encode(0b111111), 0b111111_0000);

    for w in 0..1 << 6 {
        assert_eq!(shortened::decode(shortened::encode(w)), Some((w, 0)));
    }

    let w = shortened::encode(0b101010);
    assert_eq!(w, 0b101010_0110);
    assert_eq!(shortened::decode(w), Some((0b101010, 0)));

    for i in 0..10 {
        assert_eq!(shortened::decode(w ^ 1 << i), Some((0b101010, 1)));
    }

    for (i, j) in (0..10).zip(0..10) {
        if i != j {
            // Two-bit errors are detected as one-bit errors with an incorrect bit
            // correction, so just check for the detection.
            let (_, n) = shortened::decode(w ^ (1 << i) ^ (1 << j)).unwrap();
            assert_eq!(n, 1);
        }
    }
}

#[test]
fn test_standard_all_single_errors() {
    for data in 0..1 << 11 {
        let w = standard::encode(data);
        assert_eq!(w >> 4, data);
        for i in 0..15 {
            assert_eq!(standard::decode(w ^ 1 << i), Some((data, 1)));
        }
    }
}

#[test]
fn test_standard_double_errors() {
    // Every nonzero syndrome names a bit, so two errors always pass for one.
    for data in [0, 0b10101010101, 0b11111111111, 0b00000000001] {
        let w = standard::encode(data);
        for i in 0..15 {
            for j in 0..15 {
                if i != j {
                    let (wrong, n) = standard::decode(w ^ (1 << i) ^ (1 << j)).unwrap();
                    assert_eq!(n, 1);
                    if i >= 4 || j >= 4 {
                        assert_ne!(wrong, data);
                    }
                }
            }
        }
    }
}

#[test]
fn test_shortened_all_single_errors() {
    for data in 0..1 << 6 {
        let w = shortened::encode(data);
        assert_eq!(w >> 4, data as u16);
        for i in 0..10 {
            assert_eq!(shortened::decode(w ^ 1 << i), Some((data, 1)));
        }
    }
}

#[test]
fn test_shortened_double_errors() {
    // Two errors either pass for one or are reported, but never pass for none.
    let mut unrecoverable = 0;
    for data in 0..1 << 6 {
        let w = shortened::encode(data);
        for i in 0..10 {
            for j in 0..10 {
                if i != j {
                    match shortened::decode(w ^ (1 << i) ^ (1 << j)) {
                        Some((_, n)) => assert_eq!(n, 1),
                        None => unrecoverable += 1,
                    }
                }
            }
        }
    }
    assert!(unrecoverable > 0);
}

#[test]
fn test_shortened_unrecoverable() {
    // These words have the syndromes 5, 6, 9, 10 and 15, which no single error gives.
    for w in [5, 6, 9, 10, 15] {
        assert_eq!(shortened::decode(w), None);
    }
    assert_eq!(shortened::decode(shortened::encode(0b101010) ^ 0b0101), None);
}

#[test]
fn test_exact_codewords() {
    assert_eq!(standard::encode(0b00000000001), 0b00000000001_0011);
    assert_eq!(standard::encode(0b10000000000), 0b10000000000_1111);
    assert_eq!(standard::encode(0b11111111101), 0b11111111101_1010);
    assert_eq!(shortened::encode(0b000001), 0b000001_1100);
    assert_eq!(shortened::encode(0b100000), 0b100000_1110);
}
