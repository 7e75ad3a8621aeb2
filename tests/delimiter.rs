use framecodecs::codec::{Codec, DecodeError};
use framecodecs::delimiter::{encode_char, Delimiter, DelimiterCodec, DelimiterProto, LineDelimiter};
use tokio_core::io::EasyBuf;

fn pop(d: &impl Delimiter, buf: &mut EasyBuf) -> Option<Vec<u8>> {
    d.pop_buf(buf).unwrap().map(|b| b.as_slice().to_vec())
}

fn check_delimiter<D: Delimiter>(d: &D, input: &[u8], mut right: Vec<Vec<u8>>) {
    let mut buf = EasyBuf::from(input.to_vec());
    while let Some(f) = d.pop_buf(&mut buf).unwrap() {
        assert_eq!(right.remove(0), f.as_slice().to_vec());
    }
    assert!(right.is_empty());
    assert!(buf.len() == 0);
}

#[test]
fn test_delimiter_u8() {
    let mut buf = EasyBuf::new();
    buf.get_mut().extend_from_slice(&[1, 1, 0, 2, 0, 0]);

    let delimiter = 0u8;

    assert_eq!(pop(&delimiter, &mut buf), Some(vec![1, 1]));
    assert_eq!(pop(&delimiter, &mut buf), Some(vec![2]));
    assert_eq!(pop(&delimiter, &mut buf), Some(vec![]));
    assert_eq!(pop(&delimiter, &mut buf), None);

    let mut v = vec![];
    delimiter.write_delimiter(&mut v);
    assert_eq!(v.as_slice(), &[0u8]);
}

#[test]
fn delimiter_test_delimiter_u8() {
    let d = 0u8;
    check_delimiter(&d, &[1, 1, 0, 2, 0, 0], vec![vec![1, 1], vec![2], vec![]]);

    let mut v = vec![];
    d.write_delimiter(&mut v);
    assert_eq!(v.as_slice(), &[0u8]);
}

#[test]
fn test_delimiter_char() {
    let mut buf = EasyBuf::new();
    buf.get_mut().extend_from_slice("あめ、つち、、".as_bytes());

    let delimiter = '、';

    assert_eq!(pop(&delimiter, &mut buf), Some("あめ".as_bytes().to_vec()));
    assert_eq!(pop(&delimiter, &mut buf), Some("つち".as_bytes().to_vec()));
    assert_eq!(pop(&delimiter, &mut buf), Some(vec![]));
    assert_eq!(pop(&delimiter, &mut buf), None);

    let mut v = vec![];
    delimiter.write_delimiter(&mut v);
    assert_eq!(v, "、".as_bytes());
}

#[test]
fn delimiter_test_delimiter_char() {
    let d = '、';
    check_delimiter(
        &d,
        "あめ、つち、、".as_bytes(),
        vec!["あめ".into(), "つち".into(), "".into()],
    );

    let mut v = vec![];
    d.write_delimiter(&mut v);
    assert_eq!(v, "、".as_bytes());
}

#[test]
fn test_delimiter_line() {
    let mut buf = EasyBuf::new();
    buf.get_mut().extend_from_slice("あめ\r\nつち\r\n\r\n".as_bytes());

    let delimiter = LineDelimiter::CrLf;

    assert_eq!(pop(&delimiter, &mut buf), Some("あめ".as_bytes().to_vec()));
    assert_eq!(pop(&delimiter, &mut buf), Some("つち".as_bytes().to_vec()));
    assert_eq!(pop(&delimiter, &mut buf), Some(vec![]));
    assert_eq!(pop(&delimiter, &mut buf), None);

    let mut v = vec![];
    delimiter.write_delimiter(&mut v);
    assert_eq!(v, b"\r\n");
}

#[test]
fn delimiter_test_delimiter_line() {
    let d = LineDelimiter::CrLf;
    check_delimiter(
        &d,
        "あめ\r\nつち\r\n\r\n".as_bytes(),
        vec!["あめ".into(), "つち".into(), "".into()],
    );

    let mut v = vec![];
    d.write_delimiter(&mut v);
    assert_eq!(v, b"\r\n");
}

#[test]
fn test_delimiter_vec() {
    let mut buf = EasyBuf::new();
    buf.get_mut().extend_from_slice("あめ#\0#つち#\0##\0#".as_bytes());

    let delimiter = &b"#\0#"[..].to_vec();

    assert_eq!(pop(delimiter, &mut buf), Some("あめ".as_bytes().to_vec()));
    assert_eq!(pop(delimiter, &mut buf), Some("つち".as_bytes().to_vec()));
    assert_eq!(pop(delimiter, &mut buf), Some(vec![]));
    assert_eq!(pop(delimiter, &mut buf), None);

    let mut v = vec![];
    delimiter.write_delimiter(&mut v);
    assert_eq!(v.as_slice(), b"#\0#");
}

#[test]
fn delimiter_test_delimiter_vec() {
    let d = (&b"#\0#"[..]).to_vec();
    check_delimiter(
        &d,
        "あめ#\0#つち#\0##\0#".as_bytes(),
        vec!["あめ".into(), "つち".into(), "".into()],
    );

    let mut v = vec![];
    d.write_delimiter(&mut v);
    assert_eq!(v.as_slice(), b"#\0#");
}

#[test]
fn test_delimiter_string() {
    let mut buf = EasyBuf::new();
    buf.get_mut().extend("あめ・\nつち・\n・\n".as_bytes());

    let delimiter = "・\n";

    assert_eq!(pop(&delimiter, &mut buf), Some("あめ".as_bytes().to_vec()));
    assert_eq!(pop(&delimiter, &mut buf), Some("つち".as_bytes().to_vec()));
    assert_eq!(pop(&delimiter, &mut buf), Some(vec![]));
    assert_eq!(pop(&delimiter, &mut buf), None);

    let mut v = vec![];
    delimiter.write_delimiter(&mut v);
    assert_eq!(v, "・\n".as_bytes());
}

#[test]
fn delimiter_test_delimiter_string() {
    let d = "・\n";
    check_delimiter(
        &d,
        "あめ・\nつち・\n・\n".as_bytes(),
        vec!["あめ".into(), "つち".into(), "".into()],
    );

    let mut v = vec![];
    d.write_delimiter(&mut v);
    assert_eq!(v, "・\n".as_bytes());
}

#[test]
fn delimiter_owned_string_and_slice() {
    let s = String::from("--");
    check_delimiter(&s, b"a--bc----", vec![b"a".to_vec(), b"bc".to_vec(), vec![]]);
    let mut v = vec![1u8];
    s.write_delimiter(&mut v);
    assert_eq!(v, b"\x01--");

    let sl: &[u8] = b"xy";
    check_delimiter(&sl, b"1xy2xy", vec![b"1".to_vec(), b"2".to_vec()]);
}

#[test]
fn codec_lf_scenario() {
    let mut c = DelimiterCodec::new(LineDelimiter::Lf);
    let mut buf = EasyBuf::from(b"Doe\nRay\n\n".to_vec());
    let mut frames = vec![];
    while let Some(f) = c.decode(&mut buf).unwrap() {
        frames.push(f.as_slice().to_vec());
    }
    assert_eq!(frames, vec![b"Doe".to_vec(), b"Ray".to_vec(), vec![]]);
    assert_eq!(buf.len(), 0);
}

#[test]
fn codec_crlf_scenario() {
    let proto = DelimiterProto::new(LineDelimiter::CrLf);
    let mut c = DelimiterCodec::new(*proto.delimiter());
    let mut buf = EasyBuf::from("あめ\r\nつち\r\n\r\n".as_bytes().to_vec());
    let mut frames = vec![];
    while let Some(f) = c.decode(&mut buf).unwrap() {
        frames.push(f.as_slice().to_vec());
    }
    assert_eq!(
        frames,
        vec!["あめ".as_bytes().to_vec(), "つち".as_bytes().to_vec(), vec![]]
    );
}

#[test]
fn empty_payload_between_delimiters() {
    let mut c = DelimiterCodec::new(b';');
    let mut out = vec![];
    c.encode(vec![], &mut out).unwrap();
    c.encode(vec![], &mut out).unwrap();
    assert_eq!(out, b";;");
    let mut buf = EasyBuf::from(out);
    assert_eq!(c.decode(&mut buf).unwrap().unwrap().as_slice(), b"");
    assert_eq!(c.decode(&mut buf).unwrap().unwrap().as_slice(), b"");
    assert!(c.decode(&mut buf).unwrap().is_none());
}

#[test]
fn crlf_split_between_cr_and_lf() {
    let mut c = DelimiterCodec::new(LineDelimiter::CrLf);
    let mut buf = EasyBuf::new();
    buf.get_mut().extend_from_slice(b"ab\r");
    assert!(c.decode(&mut buf).unwrap().is_none());
    assert_eq!(buf.as_slice(), b"ab\r");
    buf.get_mut().extend_from_slice(b"\ncd");
    assert_eq!(c.decode(&mut buf).unwrap().unwrap().as_slice(), b"ab");
    assert_eq!(buf.as_slice(), b"cd");
    assert!(c.decode(&mut buf).unwrap().is_none());
}

#[test]
fn char_delimiter_split_across_chunks() {
    let d = '、';
    let bytes = "あめ、".as_bytes();
    let mut buf = EasyBuf::new();
    // Cut inside the three bytes of the second character.
    buf.get_mut().extend_from_slice(&bytes[..4]);
    assert_eq!(d.pop_buf(&mut buf).unwrap().map(|b| b.as_slice().to_vec()), None);
    buf.get_mut().extend_from_slice(&bytes[4..7]);
    assert_eq!(d.pop_buf(&mut buf).unwrap().map(|b| b.as_slice().to_vec()), None);
    buf.get_mut().extend_from_slice(&bytes[7..]);
    assert_eq!(
        d.pop_buf(&mut buf).unwrap().map(|b| b.as_slice().to_vec()),
        Some("あめ".as_bytes().to_vec())
    );
    assert_eq!(buf.len(), 0);
}

#[test]
fn char_delimiter_rejects_invalid_utf8() {
    let d = ',';
    let mut buf = EasyBuf::from(vec![0x61, 0xff, b',', b'b']);
    assert_eq!(d.pop_buf(&mut buf).err(), Some(DecodeError::InvalidEncoding));
    assert_eq!(buf.as_slice(), &[0x61, 0xff, b',', b'b']);
    // Bytes after the delimiter are not looked at.
    let mut buf = EasyBuf::from(vec![b'a', b',', 0xff]);
    assert_eq!(d.pop_buf(&mut buf).unwrap().unwrap().as_slice(), b"a");
}

#[test]
fn sequence_delimiter_at_buffer_start() {
    let d = b"<>".to_vec();
    let mut buf = EasyBuf::from(b"<>rest<>".to_vec());
    assert_eq!(d.pop_buf(&mut buf).unwrap().unwrap().as_slice(), b"");
    assert_eq!(d.pop_buf(&mut buf).unwrap().unwrap().as_slice(), b"rest");
    assert_eq!(buf.len(), 0);
}

#[test]
fn sequence_delimiter_partial_suffix_waits() {
    let d = b"#\0#".to_vec();
    let mut buf = EasyBuf::from(b"abc#\0".to_vec());
    assert!(d.pop_buf(&mut buf).unwrap().is_none());
    assert_eq!(buf.as_slice(), b"abc#\0");
}

#[test]
fn encode_char_widths() {
    for c in ['a', 'é', '、', '😀'] {
        let mut s = [0u8; 4];
        assert_eq!(encode_char(c), c.encode_utf8(&mut s).as_bytes());
        let mut v = vec![];
        c.write_delimiter(&mut v);
        assert_eq!(v, c.encode_utf8(&mut s).as_bytes());
    }
}

#[test]
fn line_delimiter_bytes() {
    assert_eq!(LineDelimiter::Cr.as_slice(), b"\r");
    assert_eq!(LineDelimiter::Lf.as_slice(), b"\n");
    assert_eq!(LineDelimiter::CrLf.as_slice(), b"\r\n");
    let mut v = vec![];
    LineDelimiter::Cr.write_delimiter(&mut v);
    assert_eq!(v, b"\r");
}

#[test]
fn delimiter_codec_round_trip() {
    let mut c = DelimiterCodec::new(LineDelimiter::Lf);
    let mut out = vec![];
    c.encode(b"one".to_vec(), &mut out).unwrap();
    c.encode(b"two".to_vec(), &mut out).unwrap();
    assert_eq!(out, b"one\ntwo\n");
    let mut buf = EasyBuf::from(out);
    assert_eq!(c.decode(&mut buf).unwrap().unwrap().as_slice(), b"one");
    assert_eq!(c.decode(&mut buf).unwrap().unwrap().as_slice(), b"two");
    assert!(c.decode(&mut buf).unwrap().is_none());
}
