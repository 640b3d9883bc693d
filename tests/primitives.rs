use std::io::Cursor;

use byteorder::{NativeEndian, WriteBytesExt};
use neli::codec::{alignto, padding, read_u16, read_u32, write_u16, write_u32};
use neli::err::SerError;
use neli::{Endian, Nl, NlDeState, NlSerState};

#[test]
fn test_nl_u8() {
    let mut v: u8 = 5;
    let s: &[u8; 1] = &[5];
    let mut state = NlSerState::new();
    <u8 as Nl>::serialize(&mut v, &mut state).unwrap();
    assert_eq!(s, state.into_inner().as_slice());

    let s: &[u8; 1] = &[5];
    let mut state = NlDeState::new(s);
    let v = <u8 as Nl>::deserialize(&mut state).unwrap();
    assert_eq!(v, 5)
}

#[test]
fn test_nl_u16() {
    let mut v: u16 = 6000;
    let s: &mut [u8] = &mut [0; 2];
    {
        let mut c = Cursor::new(&mut *s);
        c.write_u16::<NativeEndian>(6000).unwrap();
    }
    let mut state = NlSerState::new();
    <u16 as Nl>::serialize(&mut v, &mut state).unwrap();
    assert_eq!(s, state.into_inner().as_slice());

    let s: &mut [u8] = &mut [0; 2];
    {
        let mut c = Cursor::new(&mut *s);
        c.write_u16::<NativeEndian>(6000).unwrap();
    }
    let mut state = NlDeState::new(&*s);
    let v = <u16 as Nl>::deserialize(&mut state).unwrap();
    assert_eq!(v, 6000)
}

#[test]
fn test_nl_u32() {
    let mut v: u32 = 600000;
    let s: &mut [u8] = &mut [0; 4];
    {
        let mut c = Cursor::new(&mut *s);
        c.write_u32::<NativeEndian>(600000).unwrap();
    }
    let mut state = NlSerState::new();
    <u32 as Nl>::serialize(&mut v, &mut state).unwrap();
    assert_eq!(s, state.into_inner().as_slice());

    let s: &mut [u8] = &mut [0; 4];
    {
        let mut c = Cursor::new(&mut *s);
        c.write_u32::<NativeEndian>(600000).unwrap();
    }
    let mut state = NlDeState::new(&*s);
    let v = <u32 as Nl>::deserialize(&mut state).unwrap();
    assert_eq!(v, 600000)
}

#[test]
fn test_nl_vec() {
    let mut v = vec![1, 2, 3, 4, 5, 6, 7, 8, 9];
    let mut state = NlSerState::new();
    <Vec<u8> as Nl>::serialize(&mut v, &mut state).unwrap();
    assert_eq!(vec![1, 2, 3, 4, 5, 6, 7, 8, 9], state.into_inner().as_slice());

    let s = &[1, 2, 3, 4, 5, 6, 7, 8, 9];
    let mut state = NlDeState::new(s);
    let v = <Vec<u8> as Nl>::deserialize_with(&mut state, s.len()).unwrap();
    assert_eq!(v, vec![1, 2, 3, 4, 5, 6, 7, 8, 9])
}

#[test]
fn byte_orders_are_exact() {
    assert_eq!(write_u16(0x0102, Endian::Little), vec![2, 1]);
    assert_eq!(write_u16(0x0102, Endian::Big), vec![1, 2]);
    assert_eq!(write_u32(0x01020304, Endian::Little), vec![4, 3, 2, 1]);
    assert_eq!(write_u32(0x01020304, Endian::Big), vec![1, 2, 3, 4]);
    assert_eq!(read_u16(&[2, 1], Endian::Little), 0x0102);
    assert_eq!(read_u16(&[2, 1], Endian::Big), 0x0201);
    assert_eq!(read_u32(&[4, 3, 2, 1, 9], Endian::Little), 0x01020304);
    assert_eq!(read_u32(&[4, 3, 2, 1], Endian::Big), 0x04030201);
}

#[test]
fn native_order_matches_host() {
    let expected = if 1u16.to_ne_bytes()[0] == 1 { Endian::Little } else { Endian::Big };
    assert_eq!(Endian::native(), expected);
}

#[test]
fn primitives_round_trip_in_both_orders() {
    for order in [Endian::Little, Endian::Big] {
        let mut st = NlSerState::with_order(order);
        0xabu8.serialize(&mut st).unwrap();
        0xbeefu16.serialize(&mut st).unwrap();
        0xdeadbeefu32.serialize(&mut st).unwrap();
        vec![7u8, 8, 9].serialize(&mut st).unwrap();
        let bytes = st.into_inner();
        assert_eq!(bytes.len(), 10);
        let mut de = NlDeState::with_order(&bytes, order);
        assert_eq!(u8::deserialize(&mut de).unwrap(), 0xab);
        assert_eq!(u16::deserialize(&mut de).unwrap(), 0xbeef);
        assert_eq!(u32::deserialize(&mut de).unwrap(), 0xdeadbeef);
        assert_eq!(Vec::<u8>::deserialize_with(&mut de, 3).unwrap(), vec![7, 8, 9]);
        assert_eq!(de.remaining(), 0);
    }
}

#[test]
fn short_input_is_unexpected_eob() {
    let mut de = NlDeState::new(&[1u8]);
    assert!(matches!(u16::deserialize(&mut de), Err(neli::err::DeError::UnexpectedEOB)));
    assert_eq!(de.pos, 0);
    let mut de = NlDeState::new(&[1u8, 2, 3]);
    assert!(matches!(u32::deserialize(&mut de), Err(neli::err::DeError::UnexpectedEOB)));
    assert!(matches!(
        Vec::<u8>::deserialize_with(&mut de, 4),
        Err(neli::err::DeError::UnexpectedEOB)
    ));
    let mut de = NlDeState::new(&[]);
    assert!(matches!(u8::deserialize(&mut de), Err(neli::err::DeError::UnexpectedEOB)));
}

#[test]
fn sizes_and_alignment() {
    assert_eq!(5u8.size(), 1);
    assert_eq!(5u8.asize(), 4);
    assert_eq!(5u16.asize(), 4);
    assert_eq!(5u32.asize(), 4);
    assert_eq!(vec![0u8; 5].size(), 5);
    assert_eq!(vec![0u8; 5].asize(), 8);
    assert_eq!(vec![0u8; 8].asize(), 8);
    assert_eq!(alignto(0), 0);
    assert_eq!(alignto(1), 4);
    assert_eq!(alignto(4), 4);
    assert_eq!(alignto(13), 16);
    assert_eq!(padding(13), 3);
    assert_eq!(padding(16), 0);
    assert_eq!(padding(17), 3);
    assert_eq!(padding(18), 2);
}

#[test]
fn reconstruct_joins_the_buffer() {
    let e = SerError::UnexpectedEOB(vec![3, 4]);
    let r = e.reconstruct(Some(vec![1, 2]), Some(vec![5]));
    assert!(matches!(r, SerError::UnexpectedEOB(ref b) if *b == vec![1, 2, 3, 4, 5]));
    let e = SerError::new("oops", vec![3]);
    let r = e.reconstruct(None, Some(vec![4]));
    assert!(matches!(r, SerError::Msg(ref m, ref b) if m == "oops" && *b == vec![3, 4]));
    let e = SerError::BufferNotFilled(vec![9]);
    let r = e.reconstruct(Some(vec![8]), None);
    assert!(matches!(r, SerError::BufferNotFilled(ref b) if *b == vec![8, 9]));
    let e = SerError::Wrapped("io".to_string(), vec![1]);
    let r = e.reconstruct(None, None);
    assert!(matches!(r, SerError::Wrapped(ref m, ref b) if m == "io" && *b == vec![1]));
}

#[test]
fn error_constructors_keep_the_message() {
    assert!(matches!(neli::err::NlError::new("x"), neli::err::NlError::Msg(ref m) if m == "x"));
    assert!(matches!(neli::err::DeError::new("y"), neli::err::DeError::Msg(ref m) if m == "y"));
}

#[test]
fn probe_gives_the_order_of_its_bytes() {
    assert_eq!(Endian::from_probe(&vec![1, 0]), Endian::Little);
    assert_eq!(Endian::from_probe(&vec![0, 1]), Endian::Big);
}
