use mcproto::err::ReadError;
use mcproto::ident::Uuid;
use mcproto::netty::{ProtocolRead, ProtocolWrite, Var};
use mcproto::packets::{Handshake0, NextState0};
use mcproto::seqs::CountType;
use mcproto::strings::Utf8String;
use mcproto::var_size;

#[test]
fn testsss() {
    let cursor = &[2u8, 0, 0, 0, 1];
    let mut pos: usize = 0;
    let hs = Handshake0::read(&cursor[..], &mut pos);
    println!("{hs:?}");

    let hs = if let Ok(hs) = hs {
        hs
    } else {
        panic!("failed to parse")
    };

    let capacity = Handshake0::size_hint();
    println!("allocating {} bytes for Handshake0", capacity);
    let mut buf = Vec::with_capacity(capacity);
    let res = hs.write(&mut buf);

    println!("{:?}", buf);

    assert!(res.is_ok())
}

#[test]
fn var_size_counts_seven_bit_groups() {
    assert_eq!(var_size(8), 2);
    assert_eq!(var_size(16), 3);
    assert_eq!(var_size(32), 5);
    assert_eq!(var_size(64), 10);
    assert_eq!(var_size(128), 19);
}

fn varint_u32(v: u32) -> Vec<u8> {
    let mut out = Vec::new();
    Var(v).write(&mut out).unwrap();
    out
}

#[test]
fn varint_canonical_values() {
    assert_eq!(varint_u32(0), vec![0x00]);
    assert_eq!(varint_u32(127), vec![0x7F]);
    assert_eq!(varint_u32(128), vec![0x80, 0x01]);
    assert_eq!(varint_u32(300), vec![0xAC, 0x02]);
}

#[test]
fn varint_round_trips_every_width() {
    for v in [0u128, 1, 127, 128, 300, 0xFFFF_FFFF, u128::MAX] {
        let mut out = Vec::new();
        Var(v).write(&mut out).unwrap();
        let mut pos: usize = 0;
        let Var(back): Var<u128> = Var::read(&out[..], &mut pos).unwrap();
        assert_eq!(back, v);
        assert_eq!(pos, out.len());
    }
    let mut out = Vec::new();
    Var(-1i32).write(&mut out).unwrap();
    assert_eq!(out, vec![0xFF, 0xFF, 0xFF, 0xFF, 0x0F]);
    let mut pos: usize = 0;
    let Var(back): Var<i32> = Var::read(&out[..], &mut pos).unwrap();
    assert_eq!(back, -1);
    let mut out = Vec::new();
    Var(-2i64).write(&mut out).unwrap();
    let mut pos: usize = 0;
    let Var(back): Var<i64> = Var::read(&out[..], &mut pos).unwrap();
    assert_eq!(back, -2);
    let mut out = Vec::new();
    Var(200u8).write(&mut out).unwrap();
    let mut pos: usize = 0;
    let Var(back): Var<u8> = Var::read(&out[..], &mut pos).unwrap();
    assert_eq!(back, 200);
}

#[test]
fn varint_overlong_is_malformed() {
    let bytes = [0x80u8, 0x80, 0x80, 0x80, 0x80, 0x01];
    let mut pos: usize = 0;
    let r: Result<Var<u32>, ReadError> = Var::read(&bytes[..], &mut pos);
    match r {
        Err(e) => assert_eq!(e, ReadError::MalformedVarInt),
        Ok(_) => panic!("read should fail"),
    }
}

#[test]
fn varint_underrun_is_io_error() {
    let bytes = [0x80u8, 0x80];
    let mut pos: usize = 0;
    let r: Result<Var<u32>, ReadError> = Var::read(&bytes[..], &mut pos);
    match r {
        Err(e) => assert_eq!(e, ReadError::IoError),
        Ok(_) => panic!("read should fail"),
    }
}

#[test]
fn fixed_ints_are_big_endian() {
    let mut out = Vec::new();
    0x01020304u32.write(&mut out).unwrap();
    assert_eq!(out, vec![1, 2, 3, 4]);
    let mut pos: usize = 0;
    let back = u32::read(&out[..], &mut pos).unwrap();
    assert_eq!(back, 0x01020304);

    let mut out = Vec::new();
    (-1i16).write(&mut out).unwrap();
    assert_eq!(out, vec![0xFF, 0xFF]);
    let mut pos: usize = 0;
    assert_eq!(i16::read(&out[..], &mut pos).unwrap(), -1);

    let mut out = Vec::new();
    1u128.write(&mut out).unwrap();
    assert_eq!(out.len(), 16);
    let mut pos: usize = 0;
    assert_eq!(u128::read(&out[..], &mut pos).unwrap(), 1);
}

#[test]
fn bool_codec() {
    let mut out = Vec::new();
    true.write(&mut out).unwrap();
    false.write(&mut out).unwrap();
    assert_eq!(out, vec![1, 0]);
    let mut pos: usize = 0;
    assert!(bool::read(&out[..], &mut pos).unwrap());
    assert!(!bool::read(&out[..], &mut pos).unwrap());
    let nonzero = [7u8];
    let mut pos: usize = 0;
    assert!(bool::read(&nonzero[..], &mut pos).unwrap());
}

#[test]
fn string_round_trip() {
    let text = b"hello, world".to_vec();
    let s = Utf8String::from_bytes(text.clone()).unwrap();
    let mut out = Vec::new();
    s.write(&mut out).unwrap();
    assert_eq!(out[0], text.len() as u8);
    let mut pos: usize = 0;
    let back = Utf8String::read(&out[..], &mut pos).unwrap();
    assert_eq!(back.bytes, text);
    assert_eq!(pos, out.len());
}

#[test]
fn string_rejects_invalid_utf8() {
    let wire = [2u8, 0xC0, 0x20];
    let mut pos: usize = 0;
    let r = Utf8String::read(&wire[..], &mut pos);
    match r {
        Err(e) => assert_eq!(e, ReadError::Utf8Error),
        Ok(_) => panic!("read should fail"),
    }
}

#[test]
fn vec_round_trip() {
    let v: Vec<u16> = vec![1, 2, 515];
    let mut out = Vec::new();
    v.write(&mut out).unwrap();
    assert_eq!(out, vec![3, 0, 1, 0, 2, 2, 3]);
    let mut pos: usize = 0;
    let back: Vec<u16> = Vec::read(&out[..], &mut pos).unwrap();
    assert_eq!(back, vec![1, 2, 515]);
}

#[test]
fn count_type_uses_its_prefix() {
    let v: CountType<Vec<u32>, u8> = CountType::new(vec![9, 10]);
    let mut out = Vec::new();
    v.write(&mut out).unwrap();
    assert_eq!(out, vec![2, 0, 0, 0, 9, 0, 0, 0, 10]);
    let mut pos: usize = 0;
    let back: CountType<Vec<u32>, u8> = CountType::read(&out[..], &mut pos).unwrap();
    assert_eq!(back.inner, vec![9, 10]);
}

#[test]
fn next_state_rejects_unknown_discriminant() {
    let wire = [3u8];
    let mut pos: usize = 0;
    let r = NextState0::read(&wire[..], &mut pos);
    match r {
        Err(e) => assert_eq!(e, ReadError::InvalidEnumId),
        Ok(_) => panic!("read should fail"),
    }
}

#[test]
fn uuid_writes_hyphenated_lowercase() {
    let u = Uuid { bits: 0x00112233445566778899aabbccddeeffu128 };
    let mut out = Vec::new();
    u.write(&mut out).unwrap();
    assert_eq!(out[0], 36);
    assert_eq!(&out[1..], b"00112233-4455-6677-8899-aabbccddeeff");
    let mut pos: usize = 0;
    let back = Uuid::read(&out[..], &mut pos).unwrap();
    assert_eq!(back.bits, u.bits);
}

#[test]
fn uuid_rejects_malformed_text() {
    let mut wire = vec![5u8];
    wire.extend_from_slice(b"nope!");
    let mut pos: usize = 0;
    let r = Uuid::read(&wire[..], &mut pos);
    match r {
        Err(e) => assert_eq!(e, ReadError::UuidError),
        Ok(_) => panic!("read should fail"),
    }
}
