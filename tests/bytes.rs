use mucodec::{Bytes, Error, ReprBytes, ReprHex};

#[test]
fn equals_agrees_with_bytes() {
    let a = Bytes::<40>::from_bytes([7u8; 40]);
    let mut raw = [7u8; 40];
    let b = Bytes::<40>::from_bytes(raw);
    assert!(a.equals(&b));
    assert_eq!(a.equals(&b), a.as_bytes() == b.as_bytes());
    for i in [0usize, 15, 16, 31, 32, 39] {
        raw[i] = 8;
        let c = Bytes::<40>::from_bytes(raw);
        assert!(!a.equals(&c));
        assert_eq!(a.equals(&c), a.as_bytes() == c.as_bytes());
        assert!(a != c);
        raw[i] = 7;
    }
    assert!(Bytes::<0>::zero().equals(&Bytes::<0>::zero()));
    assert!(Bytes::<5>::from_bytes([1, 2, 3, 4, 5]) == Bytes::<5>::from_bytes([1, 2, 3, 4, 5]));
}

#[test]
fn zero_default_and_copies() {
    assert_eq!(Bytes::<4>::zero().as_bytes(), [0; 4]);
    assert_eq!(Bytes::<4>::default(), Bytes::<4>::zero());
    let b = Bytes::<3>::from_bytes([1, 2, 3]);
    assert_eq!(b.to_bytes(), vec![1, 2, 3]);
    assert_eq!(*b, [1, 2, 3]);
    let s: &[u8] = b.as_ref();
    assert_eq!(s, &[1, 2, 3]);
}

#[test]
fn from_slice_checks_length() {
    assert_eq!(Bytes::<3>::from_slice(&[1, 2, 3]).unwrap().as_bytes(), [1, 2, 3]);
    assert_eq!(
        Bytes::<3>::from_slice(&[1, 2]),
        Err(Error::InvalidDataSize { expected: 3, got: 2 })
    );
    assert_eq!(
        Bytes::<3>::from_slice(&[1, 2, 3, 4]),
        Err(Error::InvalidDataSize { expected: 3, got: 4 })
    );
}

#[test]
fn ordering_is_by_bytes() {
    assert!(Bytes::<2>::from_bytes([0, 9]) < Bytes::<2>::from_bytes([1, 0]));
}

#[test]
fn blake3_hash_bytes() {
    let hash = blake3::hash(b"abc");
    let b = Bytes::<32>::from(hash);
    assert_eq!(&b.as_bytes(), hash.as_bytes());
    assert_eq!(b.to_hex(), hash.to_hex().as_str());
    assert_ne!(b, Bytes::<32>::zero());
}

#[test]
fn error_messages() {
    assert_eq!(
        Error::InvalidDataSize { expected: 64, got: 3 }.message(),
        "Invalid data size: expected 64, got 3"
    );
    assert_eq!(
        Error::InvalidDataSize { expected: 0, got: 1234567 }.message(),
        "Invalid data size: expected 0, got 1234567"
    );
    assert_eq!(Error::InvalidHexDigit('g').message(), "Invalid hex digit: g");
    assert_eq!(Error::InvalidBase64Character('!').message(), "Invalid base64 character: !");
    assert_eq!(
        Error::SliceConversionError("too short".to_string()).message(),
        "Slice conversion error: too short"
    );
}

#[test]
fn slice_conversion_error_from_std() {
    let short: &[u8] = &[1, 2];
    let failure = <[u8; 3]>::try_from(short).unwrap_err();
    let e = Error::from(failure);
    assert!(matches!(e, Error::SliceConversionError(_)));
    assert_eq!(e, Error::SliceConversionError(failure.to_string()));
}
