use base64::Engine;
use mucodec::{from_hex_digit, Bytes, Error, ReprBase64, ReprBytes, ReprHex};
use proptest::arbitrary::any;
use proptest::collection;
use proptest::test_runner::TestRunner;

fn sample<const N: usize>(seed: u8) -> Bytes<N> {
    let mut a = [0u8; N];
    let mut x = seed as u32;
    for b in a.iter_mut() {
        x = x.wrapping_mul(1_103_515_245).wrapping_add(12_345);
        *b = (x >> 16) as u8;
    }
    Bytes::from_bytes(a)
}

fn cross_check<const N: usize>() {
    for seed in 0..8u8 {
        let v = sample::<N>(seed);
        let raw = v.as_bytes();
        assert_eq!(v.to_hex(), hex::encode(raw));
        assert_eq!(v.to_base64(), base64::engine::general_purpose::STANDARD.encode(raw));
        assert_eq!(Bytes::<N>::from_hex(&v.to_hex()).unwrap(), v);
        assert_eq!(Bytes::<N>::from_base64(&v.to_base64()).unwrap(), v);
    }
    let ones = Bytes::<N>::from_bytes([0xffu8; N]);
    assert_eq!(ones.to_hex(), hex::encode([0xffu8; N]));
    assert_eq!(ones.to_base64(), base64::engine::general_purpose::STANDARD.encode([0xffu8; N]));
    assert_eq!(Bytes::<N>::from_base64(&ones.to_base64()).unwrap(), ones);
}

fn round_trip_property<const N: usize>() {
    let mut runner = TestRunner::default();
    runner
        .run(&collection::vec(any::<u8>(), N), |v| {
            let a: [u8; N] = v.as_slice().try_into().unwrap();
            let b = Bytes::<N>::from_bytes(a);
            assert_eq!(Bytes::<N>::from_bytes(b.as_bytes()), b);
            assert_eq!(b.to_hex(), hex::encode(a));
            assert_eq!(Bytes::<N>::from_hex(&b.to_hex()).unwrap(), b);
            assert_eq!(b.to_base64(), base64::engine::general_purpose::STANDARD.encode(a));
            assert_eq!(Bytes::<N>::from_base64(&b.to_base64()).unwrap(), b);
            Ok(())
        })
        .unwrap();
}

#[test]
fn dead_scenario() {
    let b = Bytes::<2>::from_bytes([0xDE, 0xAD]);
    assert_eq!(b.to_hex(), "dead");
    assert_eq!(Bytes::<2>::from_hex("dead").unwrap().as_bytes(), [0xDE, 0xAD]);
    assert_eq!(b.to_base64(), "3q0=");
    assert_eq!(Bytes::<2>::from_base64("3q0=").unwrap().as_bytes(), [0xDE, 0xAD]);
}

#[test]
fn cross_check_boundary_sizes() {
    cross_check::<0>();
    cross_check::<1>();
    cross_check::<2>();
    cross_check::<3>();
    cross_check::<15>();
    cross_check::<16>();
    cross_check::<17>();
    cross_check::<22>();
    cross_check::<23>();
    cross_check::<24>();
    cross_check::<25>();
    cross_check::<31>();
    cross_check::<32>();
    cross_check::<33>();
    cross_check::<46>();
    cross_check::<47>();
    cross_check::<48>();
    cross_check::<49>();
}

#[test]
fn round_trip_random_values() {
    round_trip_property::<16>();
    round_trip_property::<23>();
    round_trip_property::<32>();
    round_trip_property::<64>();
    round_trip_property::<128>();
    round_trip_property::<256>();
}

#[test]
fn hex_rejects_wrong_length() {
    assert_eq!(
        Bytes::<2>::from_hex("dea"),
        Err(Error::InvalidDataSize { expected: 4, got: 3 })
    );
    assert_eq!(
        Bytes::<2>::from_hex("deadbe"),
        Err(Error::InvalidDataSize { expected: 4, got: 6 })
    );
    assert_eq!(
        Bytes::<0>::from_hex("00"),
        Err(Error::InvalidDataSize { expected: 0, got: 2 })
    );
    assert_eq!(
        Bytes::<16>::from_hex(""),
        Err(Error::InvalidDataSize { expected: 32, got: 0 })
    );
}

#[test]
fn base64_rejects_wrong_length() {
    assert_eq!(
        Bytes::<2>::from_base64("3q0"),
        Err(Error::InvalidDataSize { expected: 4, got: 3 })
    );
    assert_eq!(
        Bytes::<2>::from_base64("3q0=AAAA"),
        Err(Error::InvalidDataSize { expected: 4, got: 8 })
    );
    assert_eq!(
        Bytes::<24>::from_base64(""),
        Err(Error::InvalidDataSize { expected: 32, got: 0 })
    );
}

#[test]
fn hex_rejects_bad_first_digit() {
    let s = format!("g{}", "0".repeat(63));
    assert_eq!(Bytes::<32>::from_hex(&s), Err(Error::InvalidHexDigit('g')));
    let s = format!("g{}", "0".repeat(3));
    assert_eq!(Bytes::<2>::from_hex(&s), Err(Error::InvalidHexDigit('g')));
    assert_eq!(Bytes::<1>::from_hex("g0"), Err(Error::InvalidHexDigit('g')));
}

#[test]
fn hex_reports_first_bad_digit() {
    // The first bad digit is reported, inside a whole group of 32 and after it.
    let mut s = "0".repeat(40);
    s.replace_range(5..6, "x");
    s.replace_range(9..10, "y");
    assert_eq!(Bytes::<20>::from_hex(&s), Err(Error::InvalidHexDigit('x')));
    let mut s = "0".repeat(40);
    s.replace_range(35..36, "z");
    assert_eq!(Bytes::<20>::from_hex(&s), Err(Error::InvalidHexDigit('z')));
}

#[test]
fn hex_rejects_uppercase() {
    assert_eq!(Bytes::<2>::from_hex("DEAD"), Err(Error::InvalidHexDigit('D')));
    assert_eq!(Bytes::<2>::from_hex("deaD"), Err(Error::InvalidHexDigit('D')));
    assert_eq!(Bytes::<2>::from_hex("de d"), Err(Error::InvalidHexDigit(' ')));
}

#[test]
fn base64_rejects_bad_first_char() {
    let s = format!("!{}", "A".repeat(3));
    assert_eq!(Bytes::<2>::from_base64(&s), Err(Error::InvalidBase64Character('!')));
    let s = format!("!{}", "A".repeat(43));
    assert_eq!(Bytes::<32>::from_base64(&s), Err(Error::InvalidBase64Character('!')));
    let s = format!("A{}!", "A".repeat(42));
    assert_eq!(Bytes::<32>::from_base64(&s), Err(Error::InvalidBase64Character('!')));
    let s = format!("AAA-{}", "A".repeat(28));
    assert_eq!(Bytes::<24>::from_base64(&s), Err(Error::InvalidBase64Character('-')));
}

#[test]
fn base64_values_of_known_texts() {
    assert_eq!(Bytes::<3>::from_bytes(*b"Man").to_base64(), "TWFu");
    assert_eq!(Bytes::<1>::from_bytes(*b"M").to_base64(), "TQ==");
    assert_eq!(Bytes::<0>::zero().to_base64(), "");
    assert_eq!(Bytes::<3>::from_base64("+/+/").unwrap().as_bytes(), [0xfb, 0xff, 0xbf]);
    assert_eq!(Bytes::<1>::from_base64("TQ==").unwrap().as_bytes(), *b"M");
}

#[test]
fn base64_padding_in_tail_leaves_zero() {
    // `=` counts as zero, and a byte whose last character is `=` stays zero.
    assert_eq!(Bytes::<3>::from_base64("QR==").unwrap().as_bytes(), [0x41, 0, 0]);
    assert_eq!(Bytes::<1>::from_base64("QRAA").unwrap().as_bytes(), [0x41]);
}

#[test]
fn hex_values_of_known_texts() {
    assert_eq!(Bytes::<0>::zero().to_hex(), "");
    assert_eq!(Bytes::<4>::from_bytes([0, 1, 0x7f, 0xff]).to_hex(), "00017fff");
    assert_eq!(Bytes::<3>::from_hex("0a9fb0").unwrap().as_bytes(), [0x0a, 0x9f, 0xb0]);
}

#[test]
fn hex_digit_values() {
    assert_eq!(from_hex_digit(b'0'), Ok(0));
    assert_eq!(from_hex_digit(b'9'), Ok(9));
    assert_eq!(from_hex_digit(b'a'), Ok(10));
    assert_eq!(from_hex_digit(b'f'), Ok(15));
    assert_eq!(from_hex_digit(b'g'), Err(Error::InvalidHexDigit('g')));
    assert_eq!(from_hex_digit(b'A'), Err(Error::InvalidHexDigit('A')));
}

#[test]
fn round_trip_random_large_values() {
    round_trip_property::<512>();
    round_trip_property::<1024>();
    round_trip_property::<2048>();
}
