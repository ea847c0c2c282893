use mucodec::{ListU16, ListU32, ListU64, ReprPacked, Error};
use proptest::collection;
use proptest::test_runner::TestRunner;

#[test]
fn test_pack_zero_64() {
    let input = ListU16::<64>::zero();
    let (bit_width, packed) = input.pack();
    assert_eq!(bit_width, 0);
    assert!(packed.is_empty());
    assert_eq!(ListU16::<64>::unpack(bit_width, &packed).unwrap(), input);
    let input = ListU32::<128>::zero();
    let (bit_width, packed) = input.pack();
    assert_eq!((bit_width, packed.len()), (0, 0));
    assert_eq!(ListU32::<128>::unpack(bit_width, &packed).unwrap(), input);
    let input = ListU64::<64>::zero();
    let (bit_width, packed) = input.pack();
    assert_eq!((bit_width, packed.len()), (0, 0));
    assert_eq!(ListU64::<64>::unpack(bit_width, &packed).unwrap(), input);
}

#[test]
fn pack_width_is_that_of_the_largest_value() {
    let l = ListU16::<4>::new([1, 2, 3, 0]);
    assert_eq!(l.pack(), (2, vec![1]));
    let l = ListU32::<3>::new([0, 255, 7]);
    assert_eq!(l.pack(), (8, vec![0, 255, 7]));
    let l = ListU32::<2>::new([256, 1]);
    assert_eq!(l.pack(), (9, vec![0, 1, 1]));
    let l = ListU64::<2>::new([u64::MAX, 0]);
    let (w, p) = l.pack();
    assert_eq!(w, 64);
    assert_eq!(p, vec![0xff, 0xff, 0xff, 0xff, 0xff, 0xff, 0xff, 0xff, 0, 0, 0, 0, 0, 0, 0, 0]);
    let l = ListU16::<2>::new([0x1234, 0xabcd]);
    assert_eq!(l.pack(), (16, vec![0x34, 0x12, 0xcd, 0xab]));
}

#[test]
fn pack_round_trip_at_whole_byte_widths() {
    let l = ListU16::<3>::new([0xffff, 0x8000, 0]);
    let (w, p) = l.pack();
    assert_eq!(ListU16::<3>::unpack(w, &p).unwrap(), l);
    let l = ListU32::<3>::new([0xff_ffff, 1, 2]);
    let (w, p) = l.pack();
    assert_eq!(w, 24);
    assert_eq!(p.len(), 9);
    assert_eq!(ListU32::<3>::unpack(w, &p).unwrap(), l);
    let l = ListU64::<1>::new([0x0123_4567_89ab_cdef]);
    let (w, p) = l.pack();
    assert_eq!(w, 57);
    assert_eq!(ListU64::<1>::unpack(w, &p).unwrap(), l);
}

#[test]
fn pack_round_trip_random_full_width() {
    let mut runner = TestRunner::default();
    runner
        .run(&collection::vec(0x8000u16..=0xffff, 64), |v| {
            let a: [u16; 64] = v.as_slice().try_into().unwrap();
            let l = ListU16::<64>::new(a);
            let (w, p) = l.pack();
            assert_eq!(w, 16);
            assert_eq!(p.len(), 128);
            assert_eq!(ListU16::<64>::unpack(w, &p).unwrap(), l);
            assert_eq!(ListU16::<64>::from_bytes(&l.as_bytes()).unwrap(), l);
            Ok(())
        })
        .unwrap();
    runner
        .run(&collection::vec(0u32..=0xff, 64), |v| {
            let a: [u32; 64] = v.as_slice().try_into().unwrap();
            let l = ListU32::<64>::new(a);
            let (w, p) = l.pack();
            assert_eq!(p.len(), (64 * w + 7) / 8);
            assert_eq!(ListU32::<64>::unpack(w, &p).unwrap(), l);
            Ok(())
        })
        .unwrap();
}

#[test]
fn pack_loses_high_bytes_cut_from_the_payload() {
    // Width 12 takes two bytes per value, but the payload keeps only
    // (3 * 12 + 7) / 8 = 5 bytes: the last value keeps its low byte only.
    let l = ListU16::<3>::new([0x0fff, 0x0fff, 0x0fff]);
    let (w, p) = l.pack();
    assert_eq!(w, 12);
    assert_eq!(p, vec![0xff, 0x0f, 0xff, 0x0f, 0xff]);
    assert_eq!(ListU16::<3>::unpack(w, &p).unwrap().to_array(), [0x0fff, 0x0fff, 0x00ff]);
    // When the cut bytes are zero, nothing is lost.
    let l = ListU16::<3>::new([0x0fff, 0x0fff, 0x00ff]);
    let (w, p) = l.pack();
    assert_eq!(ListU16::<3>::unpack(w, &p).unwrap(), l);
}

#[test]
fn unpack_rejects_wrong_sizes_and_widths() {
    assert_eq!(
        ListU16::<4>::unpack(2, &[1, 2]),
        Err(Error::InvalidDataSize { expected: 1, got: 2 })
    );
    assert_eq!(
        ListU16::<4>::unpack(17, &[0; 9]),
        Err(Error::InvalidDataSize { expected: 16, got: 17 })
    );
    assert_eq!(ListU16::<4>::unpack(0, &[1, 2, 3]).unwrap(), ListU16::<4>::zero());
    // Each value takes a whole byte, so the one byte of payload holds the first value only.
    assert_eq!(ListU32::<2>::unpack(3, &[0b0010_1101]).unwrap().to_array(), [5, 0]);
}

#[test]
fn envelope_size_is_fixed() {
    for l in [
        ListU16::<5>::zero(),
        ListU16::<5>::new([1, 0, 0, 0, 0]),
        ListU16::<5>::new([300, 0, 0, 0, 1]),
        ListU16::<5>::new([0xffff; 5]),
    ] {
        assert_eq!(l.as_bytes().len(), 5 * 2 + 1);
    }
    assert_eq!(ListU32::<7>::new([9; 7]).as_bytes().len(), 7 * 4 + 1);
    assert_eq!(ListU64::<3>::new([u64::MAX; 3]).as_bytes().len(), 3 * 8 + 1);
    assert_eq!(ListU64::<0>::zero().as_bytes().len(), 1);
}

#[test]
fn envelope_layout() {
    let l = ListU16::<4>::new([1, 2, 3, 0]);
    assert_eq!(l.as_bytes(), vec![2, 1, 0, 0, 0, 0, 0, 0, 0xff]);
    let l = ListU16::<2>::new([0xffff, 1]);
    assert_eq!(l.as_bytes(), vec![16, 0xff, 0xff, 1, 0]);
    let l = ListU16::<1>::new([7]);
    assert_eq!(l.as_bytes(), vec![3, 7, 0xff]);
    let l = ListU32::<2>::new([5, 200]);
    let bytes = l.as_bytes();
    let (w, p) = l.pack();
    assert_eq!(bytes[0] as usize, w);
    assert_eq!(&bytes[1..1 + p.len()], p.as_slice());
    assert!(bytes[1 + p.len()..bytes.len() - 1].iter().all(|&b| b == 0));
    assert_eq!(*bytes.last().unwrap(), 0xff);
    assert_eq!(ListU32::<2>::from_bytes(&bytes).unwrap(), l);
}

#[test]
fn envelope_decode_errors() {
    assert_eq!(
        ListU16::<4>::from_bytes(&[2, 1, 0]),
        Err(Error::InvalidDataSize { expected: 9, got: 3 })
    );
    assert_eq!(
        ListU16::<4>::from_bytes(&[17, 0, 0, 0, 0, 0, 0, 0, 0]),
        Err(Error::InvalidDataSize { expected: 16, got: 17 })
    );
    // Padding and sentinel are not checked.
    assert_eq!(
        ListU16::<4>::from_bytes(&[2, 1, 9, 9, 9, 9, 9, 9, 9]).unwrap().to_array(),
        [1, 0, 0, 0]
    );
}

#[test]
fn default_list_is_zero() {
    assert_eq!(ListU64::<3>::default(), ListU64::<3>::zero());
    assert_eq!(ListU16::<2>::default().to_array(), [0, 0]);
}

#[test]
fn list_values_are_readable() {
    let l = ListU32::<3>::new([4, 5, 6]);
    assert_eq!(l[1], 5);
    assert_eq!(*l, [4, 5, 6]);
    let s: &[u32] = l.as_ref();
    assert_eq!(s, &[4, 5, 6]);
}

#[test]
fn pack_width_matches_leading_zeros() {
    let mut runner = TestRunner::default();
    runner
        .run(&collection::vec(0u64..=u64::MAX >> 7, 9), |v| {
            let a: [u64; 9] = v.as_slice().try_into().unwrap();
            let max = *a.iter().max().unwrap();
            let l = ListU64::<9>::new(a);
            let (w, p) = l.pack();
            assert_eq!(w, (64 - max.leading_zeros()) as usize);
            assert_eq!(p.len(), (9 * w + 7) / 8);
            assert_eq!(l.as_bytes().len(), 9 * 8 + 1);
            assert_eq!(l.as_bytes()[0] as usize, w);
            Ok(())
        })
        .unwrap();
}

#[test]
fn zero_list_envelope_ends_with_sentinel() {
    let bytes = ListU32::<3>::zero().as_bytes();
    assert_eq!(bytes.len(), 13);
    assert_eq!(bytes[0], 0);
    assert!(bytes[1..12].iter().all(|&b| b == 0));
    assert_eq!(bytes[12], 0xff);
    // A payload that leaves just the last byte free is followed by the sentinel.
    assert_eq!(ListU16::<2>::new([200, 1]).as_bytes(), vec![8, 200, 1, 0, 0xff]);
    assert_eq!(ListU16::<1>::new([300]).as_bytes(), vec![9, 44, 1]);
}
