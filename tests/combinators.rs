use byteorder::{BigEndian, LittleEndian};
use framecodecs::codec::{Codec, DecodeError, EncodeError};
use framecodecs::decode_to_vec::{DecodeToVecBind, DecodeToVecProto, DecodeToVecTransport};
use framecodecs::delimiter::{DelimiterProto, LineDelimiter};
use framecodecs::fixed_length::FixedLengthCodec;
use framecodecs::length_field::LengthFieldCodec;
use framecodecs::remote_addr::{
    BindPoll, InnerPoll, NewRemoteAddrTransport, RemoteAddrCodec, RemoteAddrProto,
    RemoteAddrTransport,
};
use framecodecs::request_id_field::{RequestIdFieldCodec, RequestIdFieldProto};
use tokio_core::io::EasyBuf;

#[test]
fn request_id_scenario() {
    let inner: LengthFieldCodec<BigEndian> = LengthFieldCodec::new(4);
    let mut c: RequestIdFieldCodec<BigEndian, _> = RequestIdFieldCodec::new(inner);
    let mut out = vec![];
    c.encode((42, b"hello".to_vec()), &mut out).unwrap();
    let mut expected = vec![0, 0, 0, 0, 0, 0, 0, 0x2a, 0, 0, 0, 5];
    expected.extend_from_slice(b"hello");
    assert_eq!(out, expected);
    let mut buf = EasyBuf::from(out);
    assert_eq!(c.decode(&mut buf).unwrap(), Some((42, b"hello".to_vec())));
    assert_eq!(buf.len(), 0);
    assert_eq!(c.decode(&mut buf).unwrap(), None);
}

#[test]
fn request_id_little_endian_and_split_body() {
    let proto: RequestIdFieldProto<LittleEndian, _> =
        RequestIdFieldProto::new(FixedLengthCodec::new(3));
    let mut c: RequestIdFieldCodec<LittleEndian, _> = RequestIdFieldCodec::new(*proto.inner());
    let mut out = vec![];
    c.encode((0x0102, b"abc".to_vec()), &mut out).unwrap();
    assert_eq!(&out[..8], &[2, 1, 0, 0, 0, 0, 0, 0]);
    let mut buf = EasyBuf::from(out[..9].to_vec());
    assert_eq!(c.decode(&mut buf).unwrap(), None);
    assert_eq!(buf.as_slice(), b"a");
    buf.get_mut().extend_from_slice(&out[9..]);
    assert_eq!(c.decode(&mut buf).unwrap(), Some((0x0102, b"abc".to_vec())));
}

#[test]
fn request_id_short_header_waits() {
    let mut c: RequestIdFieldCodec<BigEndian, _> = RequestIdFieldCodec::new(FixedLengthCodec::new(1));
    let mut buf = EasyBuf::from(vec![0; 7]);
    assert_eq!(c.decode(&mut buf).unwrap(), None);
    assert_eq!(buf.len(), 7);
}

#[test]
fn request_id_inner_encode_error() {
    let mut c: RequestIdFieldCodec<BigEndian, _> = RequestIdFieldCodec::new(FixedLengthCodec::new(2));
    let mut out = vec![9];
    assert_eq!(c.encode((1, b"abc".to_vec()), &mut out), Err(EncodeError::Precondition));
    assert_eq!(out, vec![9]);
}

#[test]
fn request_id_inner_decode_error() {
    let inner = framecodecs::delimiter::DelimiterCodec::new(',');
    let mut c: RequestIdFieldCodec<BigEndian, _> = RequestIdFieldCodec::new(inner);
    let mut bytes = vec![0, 0, 0, 0, 0, 0, 0, 1];
    bytes.extend_from_slice(&[0xff, b',']);
    let mut buf = EasyBuf::from(bytes);
    assert_eq!(c.decode(&mut buf).err(), Some(DecodeError::InvalidEncoding));
}

#[test]
fn remote_addr_codec_tags_frames() {
    let mut c = RemoteAddrCodec::new(FixedLengthCodec::new(2), 7u32);
    let mut out = vec![];
    c.encode(b"ab".to_vec(), &mut out).unwrap();
    c.encode(b"cd".to_vec(), &mut out).unwrap();
    assert_eq!(out, b"abcd");
    let mut buf = EasyBuf::from(out);
    buf.get_mut().push(b'e');
    assert_eq!(c.decode(&mut buf).unwrap(), Some((7, b"ab".to_vec())));
    assert_eq!(c.decode(&mut buf).unwrap(), Some((7, b"cd".to_vec())));
    assert_eq!(c.decode(&mut buf).unwrap(), None);
    assert_eq!(buf.as_slice(), b"e");
}

#[test]
fn remote_addr_transport_tags() {
    let proto = RemoteAddrProto::new(DelimiterProto::new(LineDelimiter::Lf));
    assert_eq!(*proto.inner().delimiter(), LineDelimiter::Lf);
    let mut t = RemoteAddrTransport::new(vec![1u8], 99u16);
    assert_eq!(t.peer_addr(), 99);
    t.get_mut().push(2);
    assert_eq!(t.tag("x"), (99, "x"));
    assert_eq!(t.tag_multiplexed((5, "y")), (5, (99, "y")));
}

#[test]
fn remote_addr_bind_state_machine() {
    let mut b: NewRemoteAddrTransport<&str, u16, &str> = NewRemoteAddrTransport::new("fut", Ok(80));
    assert!(b.is_pending());
    let (f, a) = b.take();
    assert!(!b.is_pending());
    match b.step(f, a, InnerPoll::<u8, &str>::NotReady) {
        BindPoll::NotReady => {}
        _ => panic!("expected NotReady"),
    }
    assert!(b.is_pending());
    let (f, a) = b.take();
    match b.step(f, a, InnerPoll::Ready(3u8)) {
        BindPoll::Ready(t) => assert_eq!(t.peer_addr(), 80),
        _ => panic!("expected Ready"),
    }
    assert!(!b.is_pending());

    let mut b: NewRemoteAddrTransport<&str, u16, &str> =
        NewRemoteAddrTransport::new("fut", Err("no peer"));
    let (f, a) = b.take();
    match b.step(f, a, InnerPoll::Ready(3u8)) {
        BindPoll::Failed(e) => assert_eq!(e, "no peer"),
        _ => panic!("expected Failed"),
    }

    let mut b: NewRemoteAddrTransport<&str, u16, &str> = NewRemoteAddrTransport::new("fut", Ok(1));
    let (f, a) = b.take();
    match b.step(f, a, InnerPoll::<u8, &str>::Failed("inner")) {
        BindPoll::Failed(e) => assert_eq!(e, "inner"),
        _ => panic!("expected Failed"),
    }
}

#[test]
fn decode_to_vec_converts() {
    let proto = DecodeToVecProto::new(5u8);
    assert_eq!(*proto.inner(), 5);
    let mut bind: DecodeToVecBind<u8, ()> = DecodeToVecBind::new(1);
    *bind.get_mut() += 1;
    assert_eq!(*bind.get_mut(), 2);
    let mut t: DecodeToVecTransport<u8, ()> = DecodeToVecTransport::new(3);
    assert_eq!(*t.get_mut(), 3);
    let v = DecodeToVecTransport::<u8, ()>::to_vec(EasyBuf::from(b"ab".to_vec()));
    assert_eq!(v, b"ab");
    let (id, v) =
        DecodeToVecTransport::<u8, ()>::to_vec_multiplexed((4, EasyBuf::from(b"cd".to_vec())));
    assert_eq!((id, v), (4, b"cd".to_vec()));
}
