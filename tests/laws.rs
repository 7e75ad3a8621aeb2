use byteorder::{BigEndian, LittleEndian};
use framecodecs::codec::Codec;
use framecodecs::delimiter::{DelimiterCodec, LineDelimiter};
use framecodecs::fixed_length::FixedLengthCodec;
use framecodecs::length_field::LengthFieldCodec;
use framecodecs::remote_addr::RemoteAddrCodec;
use framecodecs::request_id_field::RequestIdFieldCodec;
use framecodecs::varint::VarIntLengthFieldCodec;
use tokio_core::io::EasyBuf;

fn frames() -> Vec<Vec<u8>> {
    vec![b"alpha".to_vec(), vec![], b"b".to_vec(), vec![0x41; 200], b"end".to_vec()]
}

/// Encodes `items`, then feeds the bytes in chunks of `step` bytes, decoding
/// after each chunk until nothing comes; returns the frames in order.
fn chunked<C, F>(mut c: C, items: &[C::Out], step: usize, view: F) -> Vec<Vec<u8>>
where
    C: Codec,
    C::Out: Clone,
    F: Fn(C::In) -> Vec<u8>,
{
    let mut wire = vec![];
    for x in items {
        c.encode(x.clone(), &mut wire).unwrap();
    }
    let mut buf = EasyBuf::new();
    let mut out = vec![];
    for chunk in wire.chunks(step) {
        buf.get_mut().extend_from_slice(chunk);
        while let Some(f) = c.decode(&mut buf).unwrap() {
            out.push(view(f));
        }
    }
    assert_eq!(buf.len(), 0);
    out
}

#[test]
fn round_trip_every_codec() {
    for f in frames() {
        let mut be: LengthFieldCodec<BigEndian> = LengthFieldCodec::new(2);
        let mut wire = vec![];
        be.encode(f.clone(), &mut wire).unwrap();
        let mut buf = EasyBuf::from(wire);
        assert_eq!(be.decode(&mut buf).unwrap(), Some(f.clone()));
        assert_eq!(buf.len(), 0);

        let mut v = VarIntLengthFieldCodec::new();
        let mut wire = vec![];
        v.encode(f.clone(), &mut wire).unwrap();
        let mut buf = EasyBuf::from(wire);
        assert_eq!(v.decode(&mut buf).unwrap(), Some(f.clone()));
        assert_eq!(buf.len(), 0);

        let mut d = DelimiterCodec::new(LineDelimiter::CrLf);
        let mut wire = vec![];
        d.encode(f.clone(), &mut wire).unwrap();
        let mut buf = EasyBuf::from(wire);
        assert_eq!(d.decode(&mut buf).unwrap().unwrap().as_slice(), &f[..]);
        assert_eq!(buf.len(), 0);

        if !f.is_empty() {
            let mut x = FixedLengthCodec::new(f.len());
            let mut wire = vec![];
            x.encode(f.clone(), &mut wire).unwrap();
            let mut buf = EasyBuf::from(wire);
            assert_eq!(x.decode(&mut buf).unwrap(), Some(f.clone()));
            assert_eq!(buf.len(), 0);
        }
    }
}

#[test]
fn streams_survive_any_chunking() {
    let items = frames();
    for step in [1usize, 2, 3, 7, 64, 1000] {
        let le: LengthFieldCodec<LittleEndian> = LengthFieldCodec::new(3);
        assert_eq!(chunked(le, &items, step, |v| v), items);
        let v = VarIntLengthFieldCodec::new();
        assert_eq!(chunked(v, &items, step, |v| v), items);
        let d = DelimiterCodec::new(b"\r\n".to_vec());
        assert_eq!(chunked(d, &items, step, |b| b.as_slice().to_vec()), items);
        let c = DelimiterCodec::new('、');
        let text: Vec<Vec<u8>> = vec!["あめ".into(), "".into(), "つち".into()];
        assert_eq!(chunked(c, &text, step, |b| b.as_slice().to_vec()), text);
        let f = FixedLengthCodec::new(4);
        let fixed: Vec<Vec<u8>> = vec![b"abcd".to_vec(), b"efgh".to_vec()];
        assert_eq!(chunked(f, &fixed, step, |v| v), fixed);
    }
}

#[test]
fn need_more_keeps_progress() {
    let mut c: LengthFieldCodec<BigEndian> = LengthFieldCodec::new(4);
    let mut wire = vec![];
    c.encode(b"hello".to_vec(), &mut wire).unwrap();
    let mut buf = EasyBuf::from(wire[..6].to_vec());
    assert_eq!(c.decode(&mut buf).unwrap(), None);
    assert_eq!(c.decode(&mut buf).unwrap(), None);
    buf.get_mut().extend_from_slice(&wire[6..]);
    assert_eq!(c.decode(&mut buf).unwrap(), Some(b"hello".to_vec()));
}

#[test]
fn combinators_are_transparent() {
    let items: Vec<(u64, Vec<u8>)> = vec![(1, b"one".to_vec()), (u64::MAX, vec![]), (7, b"x".to_vec())];
    for step in [1usize, 5, 100] {
        let c: RequestIdFieldCodec<BigEndian, _> = RequestIdFieldCodec::new(VarIntLengthFieldCodec::new());
        let mut wire = vec![];
        let mut enc = c;
        for x in &items {
            enc.encode(x.clone(), &mut wire).unwrap();
        }
        let mut dec: RequestIdFieldCodec<BigEndian, _> = RequestIdFieldCodec::new(VarIntLengthFieldCodec::new());
        let mut buf = EasyBuf::new();
        let mut out = vec![];
        for chunk in wire.chunks(step) {
            buf.get_mut().extend_from_slice(chunk);
            while let Some(x) = dec.decode(&mut buf).unwrap() {
                out.push(x);
            }
        }
        assert_eq!(out, items);
    }

    let mut tagged = RemoteAddrCodec::new(DelimiterCodec::new(LineDelimiter::Lf), "10.0.0.1:80");
    let mut buf = EasyBuf::from(b"a\nbc\n\n".to_vec());
    let mut out = vec![];
    while let Some((addr, f)) = tagged.decode(&mut buf).unwrap() {
        out.push((addr, f.as_slice().to_vec()));
    }
    assert_eq!(
        out,
        vec![
            ("10.0.0.1:80", b"a".to_vec()),
            ("10.0.0.1:80", b"bc".to_vec()),
            ("10.0.0.1:80", vec![]),
        ]
    );
}
