use base64::Engine;
use mucodec::{Error, ReprBase64, ReprBytes, ReprHex};

#[test]
fn integers_are_little_endian_bytes() {
    assert_eq!(0x1234u16.as_bytes(), [0x34, 0x12]);
    assert_eq!(<u16 as ReprBytes<2>>::from_bytes([0x34, 0x12]), 0x1234);
    assert_eq!(0xdead_beefu32.to_bytes(), vec![0xef, 0xbe, 0xad, 0xde]);
    assert_eq!(<u64 as ReprBytes<8>>::from_bytes(7u64.to_le_bytes()), 7);
    assert_eq!(u64::MAX.as_bytes(), [0xff; 8]);
    assert_eq!(<u8 as ReprBytes<1>>::zero(), 0);
    assert_eq!(<u32 as ReprBytes<4>>::from_slice(&[1, 0, 0, 0]), Ok(1));
    assert_eq!(
        <u32 as ReprBytes<4>>::from_slice(&[1, 0]),
        Err(Error::InvalidDataSize { expected: 4, got: 2 })
    );
}

#[test]
fn integers_hex_and_base64() {
    for v in [0u64, 1, 0xff, 0x0123_4567_89ab_cdef, u64::MAX] {
        let le = v.to_le_bytes();
        assert_eq!(v.to_hex(), hex::encode(le));
        assert_eq!(u64::from_hex(&v.to_hex()), Ok(v));
        assert_eq!(v.to_base64(), base64::engine::general_purpose::STANDARD.encode(le));
        assert_eq!(u64::from_base64(&v.to_base64()), Ok(v));
    }
    assert_eq!(0xabcdu16.to_hex(), "cdab");
    assert_eq!(u16::from_hex("cdab"), Ok(0xabcd));
    assert_eq!(u32::from_hex("0000"), Err(Error::InvalidDataSize { expected: 8, got: 4 }));
    assert_eq!(0x4du8.to_base64(), "TQ==");
    assert_eq!(u8::from_base64("TQ=="), Ok(0x4d));
    assert_eq!(u32::from_base64("!AAAAA=="), Err(Error::InvalidBase64Character('!')));
}

#[test]
fn wide_and_signed_integers() {
    let v: u128 = 0x0011_2233_4455_6677_8899_aabb_ccdd_eeff;
    assert_eq!(v.as_bytes(), v.to_le_bytes());
    assert_eq!(<u128 as ReprBytes<16>>::from_bytes(v.to_le_bytes()), v);
    assert_eq!(v.to_hex(), hex::encode(v.to_le_bytes()));
    assert_eq!(u128::from_hex(&v.to_hex()), Ok(v));
    assert_eq!(u128::from_base64(&u128::MAX.to_base64()), Ok(u128::MAX));
    for x in [0i8, 1, -1, i8::MIN, i8::MAX] {
        assert_eq!(x.as_bytes(), x.to_le_bytes());
        assert_eq!(<i8 as ReprBytes<1>>::from_bytes(x.to_le_bytes()), x);
        assert_eq!(i8::from_hex(&x.to_hex()), Ok(x));
    }
    for x in [0i16, -2, 300, i16::MIN, i16::MAX] {
        assert_eq!(x.as_bytes(), x.to_le_bytes());
        assert_eq!(<i16 as ReprBytes<2>>::from_bytes(x.to_le_bytes()), x);
        assert_eq!(i16::from_base64(&x.to_base64()), Ok(x));
    }
    for x in [0i32, -70000, i32::MIN, i32::MAX] {
        assert_eq!(x.as_bytes(), x.to_le_bytes());
        assert_eq!(<i32 as ReprBytes<4>>::from_bytes(x.to_le_bytes()), x);
        assert_eq!(i32::from_hex(&x.to_hex()), Ok(x));
    }
    for x in [0i64, -1, i64::MIN, i64::MAX, -0x0123_4567_89ab] {
        assert_eq!(x.as_bytes(), x.to_le_bytes());
        assert_eq!(<i64 as ReprBytes<8>>::from_bytes(x.to_le_bytes()), x);
        assert_eq!(i64::from_base64(&x.to_base64()), Ok(x));
    }
    for x in [0i128, -1, i128::MIN, i128::MAX, -0x0123_4567_89ab_cdef_0011_2233] {
        assert_eq!(x.as_bytes(), x.to_le_bytes());
        assert_eq!(<i128 as ReprBytes<16>>::from_bytes(x.to_le_bytes()), x);
        assert_eq!(i128::from_hex(&x.to_hex()), Ok(x));
        assert_eq!(i128::from_base64(&x.to_base64()), Ok(x));
    }
    assert_eq!((-1i16).to_hex(), "ffff");
    assert_eq!(i16::from_hex("0080"), Ok(i16::MIN));
}
