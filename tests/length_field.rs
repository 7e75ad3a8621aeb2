use byteorder::{BigEndian, ByteOrder, LittleEndian};
use framecodecs::codec::{Codec, EncodeError};
use framecodecs::length_field::{LengthFieldCodec, LengthFieldProto};
use std::mem;
use tokio_core::io::EasyBuf;

#[test]
fn test_length_field() {
    let mut b = [0; 2];
    BigEndian::write_u16(&mut b[..], 3);

    let mut buf = EasyBuf::new();
    buf.get_mut().extend_from_slice(&b[..]);
    buf.get_mut().extend_from_slice(b"abc");
    buf.get_mut().extend_from_slice(&b[..]);
    buf.get_mut().extend_from_slice(b"def");

    BigEndian::write_u16(&mut b[..], 0);
    buf.get_mut().extend_from_slice(&b[..]);

    let mut p: LengthFieldCodec<BigEndian> = LengthFieldCodec::new(mem::size_of::<u16>());

    assert_eq!(p.decode(&mut buf).unwrap(), Some(b"abc".to_vec()));
    assert_eq!(p.decode(&mut buf).unwrap(), Some(b"def".to_vec()));
    assert_eq!(p.decode(&mut buf).unwrap(), Some(vec![]));
    assert!(p.decode(&mut buf).unwrap().is_none());
}

#[test]
fn length_field_encode_big_and_little() {
    let mut be: LengthFieldCodec<BigEndian> = LengthFieldCodec::new(2);
    let mut out = vec![];
    be.encode(b"abc".to_vec(), &mut out).unwrap();
    assert_eq!(out, vec![0, 3, b'a', b'b', b'c']);

    let mut le: LengthFieldCodec<LittleEndian> = LengthFieldCodec::new(3);
    let mut out = vec![];
    le.encode(vec![1u8; 258], &mut out).unwrap();
    assert_eq!(&out[..3], &[2, 1, 0]);
    let mut buf = EasyBuf::from(out);
    assert_eq!(le.decode(&mut buf).unwrap(), Some(vec![1u8; 258]));
}

#[test]
fn length_field_one_byte_maximum() {
    let mut p: LengthFieldCodec<BigEndian> = LengthFieldCodec::from(LengthFieldProto::new(1));
    let mut out = vec![];
    p.encode(vec![5u8; 255], &mut out).unwrap();
    assert_eq!(out[0], 255);
    assert_eq!(
        p.encode(vec![5u8; 256], &mut out),
        Err(EncodeError::Precondition)
    );
    assert_eq!(out.len(), 256);
    let mut buf = EasyBuf::from(out);
    assert_eq!(p.decode(&mut buf).unwrap(), Some(vec![5u8; 255]));
}

#[test]
fn length_field_eight_bytes() {
    let mut p: LengthFieldCodec<BigEndian> = LengthFieldCodec::new(8);
    let mut out = vec![];
    p.encode(b"xyz".to_vec(), &mut out).unwrap();
    assert_eq!(out, vec![0, 0, 0, 0, 0, 0, 0, 3, b'x', b'y', b'z']);
    let mut buf = EasyBuf::from(out);
    assert_eq!(p.decode(&mut buf).unwrap(), Some(b"xyz".to_vec()));
    // A length of 2^64 - 1 is read and then waited for.
    let mut buf = EasyBuf::from(vec![0xff; 8]);
    assert_eq!(p.decode(&mut buf).unwrap(), None);
    assert_eq!(buf.len(), 0);
}

#[test]
fn length_field_header_then_body() {
    let mut p: LengthFieldCodec<LittleEndian> = LengthFieldCodec::new(2);
    let mut buf = EasyBuf::from(vec![4]);
    assert_eq!(p.decode(&mut buf).unwrap(), None);
    buf.get_mut().extend_from_slice(&[0, b'a', b'b']);
    assert_eq!(p.decode(&mut buf).unwrap(), None);
    assert_eq!(buf.as_slice(), b"ab");
    buf.get_mut().extend_from_slice(b"cd");
    assert_eq!(p.decode(&mut buf).unwrap(), Some(b"abcd".to_vec()));
}

#[test]
fn length_field_scenario() {
    let mut p: LengthFieldCodec<BigEndian> = LengthFieldCodec::new(2);
    let mut buf = EasyBuf::from(vec![0, 3, b'a', b'b', b'c', 0, 3, b'd', b'e', b'f', 0, 0]);
    assert_eq!(p.decode(&mut buf).unwrap(), Some(b"abc".to_vec()));
    assert_eq!(p.decode(&mut buf).unwrap(), Some(b"def".to_vec()));
    assert_eq!(p.decode(&mut buf).unwrap(), Some(vec![]));
    assert_eq!(p.decode(&mut buf).unwrap(), None);
}
