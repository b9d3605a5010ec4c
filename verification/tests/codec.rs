use dslabs::codec::fixture::{Msg, Type};
use dslabs::codec::message::{decode, encode};

#[test]
fn test_basic_encode_decode() {
    let msg = Msg {
        type_: Type::Put as i32,
        id: 42,
        name: "the answer".to_owned(),
        paylad: vec![vec![7; 3]; 2],
    };
    let mut buf = vec![];
    encode(&msg, &mut buf).unwrap();
    let msg1 = decode(&buf).unwrap();
    assert_eq!(msg, msg1);
}

#[test]
fn test_default() {
    let msg = Msg::default();
    let msg1 = decode(&[]).unwrap();
    assert_eq!(msg, msg1);
}

#[test]
fn encode_writes_protobuf_fields() {
    let msg = Msg {
        type_: Type::Get as i32,
        id: 300,
        name: "ab".to_owned(),
        paylad: vec![vec![1, 2], vec![]],
    };
    let mut buf = vec![];
    encode(&msg, &mut buf).unwrap();
    // field 1 varint 2; field 2 varint 300; field 3 "ab"; field 4 twice.
    let expected: Vec<u8> = vec![0x08, 0x02, 0x10, 0xac, 0x02, 0x1a, 0x02, b'a', b'b', 0x22, 0x02, 1, 2, 0x22, 0x00];
    assert_eq!(buf, expected);
}

#[test]
fn encode_skips_empty_fields() {
    let msg = Msg::default();
    let mut buf = vec![9];
    encode(&msg, &mut buf).unwrap();
    assert_eq!(buf, vec![9]);
}

#[test]
fn negative_kind_round_trips() {
    let msg = Msg { type_: -5, id: u64::MAX, name: "é→x".to_owned(), paylad: vec![] };
    let mut buf = vec![];
    encode(&msg, &mut buf).unwrap();
    let back: Msg = decode(&buf).unwrap();
    assert_eq!(back, msg);
    assert_eq!(back.type_(), Type::Unknown);
}

#[test]
fn decode_skips_unknown_fields() {
    // field 5 (varint 1) is no field of Msg; field 2 = 7.
    let bytes = [0x28, 0x01, 0x10, 0x07];
    let msg: Msg = decode(&bytes).unwrap();
    assert_eq!(msg.id, 7);
    assert_eq!(msg.type_, 0);
}

#[test]
fn decode_refuses_truncated_and_bad_input() {
    // a length that runs past the end
    assert!(decode::<Msg>(&[0x1a, 0x05, b'a']).is_err());
    // a key with tag 0
    assert!(decode::<Msg>(&[0x00, 0x01]).is_err());
    // a name that is not UTF-8
    assert!(decode::<Msg>(&[0x1a, 0x01, 0xff]).is_err());
}

#[test]
fn last_value_of_a_field_wins() {
    let bytes = [0x10, 0x01, 0x10, 0x02];
    let msg: Msg = decode(&bytes).unwrap();
    assert_eq!(msg.id, 2);
}

#[test]
fn kinds_by_number() {
    assert!(Type::is_valid(0));
    assert!(Type::is_valid(3));
    assert!(!Type::is_valid(4));
    assert!(!Type::is_valid(-1));
    assert_eq!(Type::from_i32(2), Some(Type::Get));
    assert_eq!(Type::from_i32(7), None);
    let mut msg = Msg::default();
    assert_eq!(msg.type_(), Type::Unknown);
    msg.set_type(Type::Del);
    assert_eq!(msg.type_, 3);
    assert_eq!(msg.type_(), Type::Del);
    assert_eq!(Type::default(), Type::Unknown);
}

#[test]
fn messages_compare_by_value() {
    let a = Msg { type_: 1, id: 2, name: "n".to_owned(), paylad: vec![vec![1]] };
    let b = a.clone();
    assert_eq!(a, b);
    let c = Msg { paylad: vec![vec![2]], ..a.clone() };
    assert_ne!(a, c);
    let d = Msg { paylad: vec![vec![1], vec![]], ..a.clone() };
    assert_ne!(a, d);
}
