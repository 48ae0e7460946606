use mcproto::nbt::{
    decode_payload, decode_value, encode_payload, encode_value, Compound, Entry, List, NbtError,
    NbtTag, Value,
};

#[test]
fn byte_list_identity() {
    let list = List::Byte(vec![-1, 0, 1]);
    let mut out = Vec::new();
    list.encode(&mut out).unwrap();
    assert_eq!(out, vec![1, 0, 0, 0, 3, 0xFF, 0x00, 0x01]);
    let mut pos: usize = 0;
    let back = List::decode(&out[..], &mut pos).unwrap();
    match back {
        List::Byte(b) => assert_eq!(b, vec![-1, 0, 1]),
        _ => panic!("wrong list variant"),
    }
    assert_eq!(pos, out.len());
}

#[test]
fn empty_untyped_list_decodes_as_invalid() {
    let list = List::Invalid;
    let mut out = Vec::new();
    list.encode(&mut out).unwrap();
    assert_eq!(out, vec![0, 0, 0, 0, 0]);
    let mut pos: usize = 0;
    let back = List::decode(&out[..], &mut pos).unwrap();
    assert!(matches!(back, List::Invalid));
}

#[test]
fn end_tag_with_positive_count_is_malformed() {
    let wire = [0u8, 0, 0, 0, 2];
    let mut pos: usize = 0;
    let r = List::decode(&wire[..], &mut pos);
    match r {
        Err(e) => assert_eq!(e, NbtError::EndTagInList),
        Ok(_) => panic!("decode should fail"),
    }
}

#[test]
fn empty_compound_decodes_as_zero_entries() {
    let v = Value::Compound(Compound { entries: Vec::new() });
    let mut out = Vec::new();
    encode_value(&v, &mut out).unwrap();
    assert_eq!(out, vec![10, 0]);
    let mut pos: usize = 0;
    let back = decode_value(&out[..], &mut pos).unwrap();
    match back {
        Value::Compound(c) => assert_eq!(c.entries.len(), 0),
        _ => panic!("wrong value variant"),
    }
}

#[test]
fn nbt_tree_round_trip() {
    let tree = Value::Compound(Compound {
        entries: vec![
            Entry { name: b"answer".to_vec(), value: Value::Int(42) },
            Entry { name: b"pi-bits".to_vec(), value: Value::Float(0x40490FDBu32) },
            Entry {
                name: b"nested".to_vec(),
                value: Value::List(List::String(vec![b"a".to_vec(), b"bc".to_vec()])),
            },
            Entry { name: b"raw".to_vec(), value: Value::ByteArray(vec![9, 8, 7]) },
            Entry { name: b"ints".to_vec(), value: Value::IntArray(vec![-1, 2]) },
            Entry { name: b"longs".to_vec(), value: Value::LongArray(vec![5]) },
            Entry {
                name: b"inner".to_vec(),
                value: Value::Compound(Compound {
                    entries: vec![Entry { name: b"s".to_vec(), value: Value::Short(-2) }],
                }),
            },
            Entry {
                name: b"lists".to_vec(),
                value: Value::List(List::List(vec![List::Byte(vec![1]), List::Invalid])),
            },
        ],
    });
    let mut out = Vec::new();
    encode_value(&tree, &mut out).unwrap();
    let mut pos: usize = 0;
    let back = decode_value(&out[..], &mut pos).unwrap();
    assert_eq!(pos, out.len());
    let mut out2 = Vec::new();
    encode_value(&back, &mut out2).unwrap();
    assert_eq!(out, out2);
}

#[test]
fn unknown_tag_is_invalid() {
    let wire = [13u8, 0];
    let mut pos: usize = 0;
    let r = decode_value(&wire[..], &mut pos);
    match r {
        Err(e) => assert_eq!(e, NbtError::InvalidTag),
        Ok(_) => panic!("decode should fail"),
    }
}

#[test]
fn negative_count_is_rejected() {
    let wire = [0xFFu8, 0xFF, 0xFF, 0xFF];
    let mut pos: usize = 0;
    let r = decode_payload(NbtTag::ByteArray, &wire[..], &mut pos);
    match r {
        Err(e) => assert_eq!(e, NbtError::NegativeCount),
        Ok(_) => panic!("decode should fail"),
    }
}

#[test]
fn invalid_mutf8_name_is_rejected() {
    // compound entry: tag Byte, name length 1, invalid byte 0xF5, payload 0
    let wire = [1u8, 0, 1, 0xF5, 0, 0];
    let mut pos: usize = 0;
    let r = decode_payload(NbtTag::Compound, &wire[..], &mut pos);
    match r {
        Err(e) => assert_eq!(e, NbtError::Mutf8Error),
        Ok(_) => panic!("decode should fail"),
    }
}

#[test]
fn truncated_input_is_eof() {
    let wire = [3u8, 0, 0];
    let mut pos: usize = 0;
    let r = decode_value(&wire[..], &mut pos);
    match r {
        Err(e) => assert_eq!(e, NbtError::Eof),
        Ok(_) => panic!("decode should fail"),
    }
}

#[test]
fn overlong_string_is_too_long() {
    let v = Value::String(vec![b'a'; 70000]);
    let mut out = Vec::new();
    let r = encode_payload(&v, &mut out);
    match r {
        Err(e) => assert_eq!(e, NbtError::TooLong),
        Ok(_) => panic!("decode should fail"),
    }
}

#[test]
fn to_static_and_into_static_keep_the_tree() {
    let list = List::Compound(vec![Compound {
        entries: vec![Entry { name: b"k".to_vec(), value: Value::Byte(1) }],
    }]);
    let copy = list.to_static();
    let mut a = Vec::new();
    let mut b = Vec::new();
    list.encode(&mut a).unwrap();
    copy.encode(&mut b).unwrap();
    assert_eq!(a, b);
    let owned = copy.into_static();
    let mut c = Vec::new();
    owned.encode(&mut c).unwrap();
    assert_eq!(a, c);
}
