use cfb8::cipher::KeyIvInit;
use mcproto::conn::{CipherState, WriteHalf};
use mcproto::packing::{Compression, EncodedData};
use std::io::Read;

#[test]
fn plain_frame_is_length_then_payload() {
    let mut scratch = Vec::new();
    let packed = EncodedData::new(vec![0x01, 0x02, 0x03]).split_pack(None, &mut scratch);
    assert_eq!(packed, vec![0x03, 0x01, 0x02, 0x03]);
}

#[test]
fn below_threshold_frame_keeps_payload_with_zero_marker() {
    let mut scratch = Vec::new();
    let c = Compression { threshold: 10, level: 6 };
    let packed = EncodedData::new(vec![0xAA, 0xBB]).split_pack(Some(&c), &mut scratch);
    assert_eq!(packed, vec![0x03, 0x00, 0xAA, 0xBB]);
}

#[test]
fn above_threshold_frame_decompresses_to_the_payload() {
    let payload: Vec<u8> = (0..200u16).map(|i| (i % 50) as u8).collect();
    let mut scratch = Vec::new();
    let c = Compression { threshold: 10, level: 6 };
    let packed = EncodedData::new(payload.clone()).split_pack(Some(&c), &mut scratch);

    // outer length prefix
    let mut pos: usize = 0;
    let total = read_varint(&packed, &mut pos);
    assert_eq!(total as usize, packed.len() - pos);
    // inner uncompressed-length prefix
    let inner = read_varint(&packed, &mut pos);
    assert_eq!(inner as usize, payload.len());
    // the rest is the deflated payload
    let mut dec = flate2::read::ZlibDecoder::new(&packed[pos..]);
    let mut back = Vec::new();
    dec.read_to_end(&mut back).unwrap();
    assert_eq!(back, payload);
}

fn read_varint(data: &[u8], pos: &mut usize) -> u32 {
    let mut val: u32 = 0;
    let mut shift = 0;
    loop {
        let b = data[*pos];
        *pos += 1;
        val |= ((b & 0x7F) as u32) << shift;
        if b & 0x80 == 0 {
            return val;
        }
        shift += 7;
    }
}

#[test]
fn encryption_ciphers_every_framed_byte_in_order() {
    let key = vec![7u8; 16];
    let iv = vec![9u8; 16];

    // the frame as it would travel without encryption
    let mut scratch = Vec::new();
    let plain = EncodedData::new(vec![1, 2, 3, 4, 5]).split_pack(None, &mut scratch);

    let mut wh: WriteHalf<Vec<u8>> = WriteHalf::new(Vec::new());
    wh.enable_encryption(CipherState::new(&key, &iv));
    let sent = wh.prepare(EncodedData::new(vec![1, 2, 3, 4, 5]));

    assert_eq!(sent.len(), plain.len());
    assert_ne!(sent, plain);

    // decrypting in the same byte order recovers the exact framed bytes
    let mut dec = cfb8::Decryptor::<aes::Aes128>::new_from_slices(&key, &iv).unwrap();
    let mut back = sent.clone();
    dec.decrypt(&mut back);
    assert_eq!(back, plain);
}

#[test]
fn compression_and_encryption_compose_in_order() {
    let key = vec![1u8; 16];
    let iv = vec![2u8; 16];
    let payload = vec![0x10, 0x20];

    let mut scratch = Vec::new();
    let c = Compression { threshold: 10, level: 6 };
    let plain = EncodedData::new(payload.clone()).split_pack(Some(&c), &mut scratch);

    let mut wh: WriteHalf<Vec<u8>> = WriteHalf::new(Vec::new());
    wh.set_compression(Some(Compression { threshold: 10, level: 6 }));
    wh.enable_encryption(CipherState::new(&key, &iv));
    let sent = wh.prepare(EncodedData::new(payload));

    assert_eq!(sent.len(), plain.len());
    assert_ne!(sent, plain);
}
