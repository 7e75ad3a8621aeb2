use framecodecs::codec::{Codec, DecodeError};
use framecodecs::varint::{VarIntLengthFieldCodec, VarIntLengthFieldProto};
use tokio_core::io::EasyBuf;

#[test]
fn test_varintlengthfield() {
    let mut p = VarIntLengthFieldCodec::new();

    let mut buf = EasyBuf::new();
    buf.get_mut().extend(&[1, 65, 2, 65, 66]);

    assert_eq!(p.decode(&mut buf).unwrap().unwrap(), vec![65]);
    assert_eq!(p.decode(&mut buf).unwrap().unwrap(), vec![65, 66]);
    assert!(buf.as_slice().is_empty());
    assert!(p.decode(&mut buf).unwrap().is_none());

    p.encode(vec![0, 1, 2], &mut buf.get_mut()).unwrap();
    assert_eq!(p.decode(&mut buf).unwrap().unwrap(), vec![0, 1, 2]);
    assert!(p.decode(&mut buf).unwrap().is_none());

    let mut test_large = |len| {
        let data: Vec<_> = (0..10).cycle().take(len).collect();
        p.encode(data.clone(), &mut buf.get_mut()).unwrap();
        assert_eq!(p.decode(&mut buf).unwrap().unwrap(), data);
    };

    test_large(128);
    test_large(300);
    test_large(1000);
}

#[test]
fn varint_encode_scenario() {
    let mut p = VarIntLengthFieldProto::new().codec();
    let mut out = vec![];
    p.encode(vec![0, 1, 2], &mut out).unwrap();
    assert_eq!(out, vec![3, 0, 1, 2]);
}

#[test]
fn varint_header_bytes() {
    let cases: Vec<(usize, Vec<u8>)> = vec![
        (0, vec![0x00]),
        (127, vec![0x7f]),
        (128, vec![0x80, 0x01]),
        (300, vec![0xac, 0x02]),
        (16384, vec![0x80, 0x80, 0x01]),
    ];
    for (len, header) in cases {
        let mut p = VarIntLengthFieldCodec::new();
        let data = vec![7u8; len];
        let mut out = vec![];
        p.encode(data.clone(), &mut out).unwrap();
        assert_eq!(&out[..header.len()], &header[..]);
        assert_eq!(out.len(), header.len() + len);
        let mut buf = EasyBuf::from(out);
        assert_eq!(p.decode(&mut buf).unwrap(), Some(data));
        assert_eq!(buf.len(), 0);
        assert_eq!(p.decode(&mut buf).unwrap(), None);
    }
}

#[test]
fn varint_byte_at_a_time() {
    let mut p = VarIntLengthFieldCodec::new();
    let mut out = vec![];
    p.encode(vec![9u8; 300], &mut out).unwrap();
    p.encode(vec![], &mut out).unwrap();
    let mut buf = EasyBuf::new();
    let mut frames = vec![];
    for b in out {
        buf.get_mut().push(b);
        while let Some(f) = p.decode(&mut buf).unwrap() {
            frames.push(f);
        }
    }
    assert_eq!(frames, vec![vec![9u8; 300], vec![]]);
}

#[test]
fn varint_too_long_is_rejected() {
    let mut p = VarIntLengthFieldCodec::new();
    let mut bytes = vec![0xffu8; 11];
    bytes.push(0x01);
    let mut buf = EasyBuf::from(bytes.clone());
    assert_eq!(p.decode(&mut buf), Err(DecodeError::InvalidEncoding));
    assert_eq!(buf.as_slice(), &bytes[..]);
}
