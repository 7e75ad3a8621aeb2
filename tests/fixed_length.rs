use framecodecs::codec::{Codec, EncodeError};
use framecodecs::fixed_length::{FixedLengthCodec, FixedLengthProto};
use tokio_core::io::EasyBuf;

#[test]
fn test_fixed_length() {
    let mut p = FixedLengthCodec::new(5);

    let mut buf = EasyBuf::new();
    buf.get_mut().extend_from_slice(b"abcdefghijkl");

    assert_eq!(p.decode(&mut buf).unwrap(), Some(b"abcde".to_vec()));
    assert_eq!(p.decode(&mut buf).unwrap(), Some(b"fghij".to_vec()));
    assert!(p.decode(&mut buf).unwrap().is_none());

    buf.get_mut().extend_from_slice(b"mno");

    assert_eq!(p.decode(&mut buf).unwrap(), Some(b"klmno".to_vec()));
}

#[test]
fn fixed_length_test_fixed_length() {
    let mut p = FixedLengthProto::new(5).codec();
    assert_eq!(p.length(), 5);

    let mut buf = EasyBuf::new();
    buf.get_mut().extend_from_slice(b"abcdefghijkl");

    assert_eq!(p.decode(&mut buf).unwrap(), Some(b"abcde".to_vec()));
    assert_eq!(p.decode(&mut buf).unwrap(), Some(b"fghij".to_vec()));
    assert!(p.decode(&mut buf).unwrap().is_none());

    buf.get_mut().extend_from_slice(b"mno");

    assert_eq!(p.decode(&mut buf).unwrap(), Some(b"klmno".to_vec()));
}

#[test]
fn fixed_length_scenario() {
    let mut p = FixedLengthCodec::new(5);
    let mut buf = EasyBuf::from(b"ABCDEFGHIJKLMNO".to_vec());
    assert_eq!(p.decode(&mut buf).unwrap(), Some(b"ABCDE".to_vec()));
    assert_eq!(p.decode(&mut buf).unwrap(), Some(b"FGHIJ".to_vec()));
    assert_eq!(p.decode(&mut buf).unwrap(), Some(b"KLMNO".to_vec()));
    assert_eq!(p.decode(&mut buf).unwrap(), None);
}

#[test]
fn fixed_length_shorter_equal_longer() {
    let mut p = FixedLengthCodec::new(3);
    let mut buf = EasyBuf::from(b"ab".to_vec());
    assert_eq!(p.decode(&mut buf).unwrap(), None);
    assert_eq!(buf.as_slice(), b"ab");

    let mut buf = EasyBuf::from(b"abc".to_vec());
    assert_eq!(p.decode(&mut buf).unwrap(), Some(b"abc".to_vec()));
    assert_eq!(buf.len(), 0);

    let mut buf = EasyBuf::from(b"abcd".to_vec());
    assert_eq!(p.decode(&mut buf).unwrap(), Some(b"abc".to_vec()));
    assert_eq!(buf.as_slice(), b"d");
}

#[test]
fn fixed_length_encode() {
    let mut p = FixedLengthCodec::new(3);
    let mut out = b"x".to_vec();
    p.encode(b"abc".to_vec(), &mut out).unwrap();
    assert_eq!(out, b"xabc");
    assert_eq!(p.encode(b"ab".to_vec(), &mut out), Err(EncodeError::Precondition));
    assert_eq!(out, b"xabc");
}
