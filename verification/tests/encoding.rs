use snapfaas::encoding::{
    bytes_equal, decode_field, decode_fields, decode_varint, encode_field, encode_fields,
    encode_varint, u32_from_be_bytes, u32_to_be_bytes, u64_from_be_bytes, u64_to_be_bytes, Field,
    FieldValue,
};

fn varint(v: u64) -> Vec<u8> {
    let mut buf = Vec::new();
    encode_varint(v, &mut buf);
    buf
}

#[test]
fn varint_of_known_values() {
    assert_eq!(varint(0), vec![0]);
    assert_eq!(varint(1), vec![1]);
    assert_eq!(varint(127), vec![0x7f]);
    assert_eq!(varint(128), vec![0x80, 0x01]);
    assert_eq!(varint(300), vec![0xac, 0x02]);
    assert_eq!(varint(16384), vec![0x80, 0x80, 0x01]);
    assert_eq!(
        varint(u64::MAX),
        vec![0xff, 0xff, 0xff, 0xff, 0xff, 0xff, 0xff, 0xff, 0xff, 0x01]
    );
}

#[test]
fn varint_appends() {
    let mut buf = vec![9, 9];
    encode_varint(300, &mut buf);
    assert_eq!(buf, vec![9, 9, 0xac, 0x02]);
}

#[test]
fn varint_agrees_with_prost() {
    let mut values = vec![0u64, 1, 127, 128, 255, 256, 16383, 16384, u32::MAX as u64, u64::MAX];
    let mut v: u64 = 1;
    for _ in 0..63 {
        v = v.wrapping_mul(3).wrapping_add(7);
        values.push(v);
        values.push(v >> 17);
        values.push(v >> 40);
    }
    for v in values {
        let mut theirs: Vec<u8> = Vec::new();
        prost::encoding::encode_varint(v, &mut theirs);
        assert_eq!(varint(v), theirs);
        assert_eq!(decode_varint(&theirs, 0), Some((v, theirs.len())));
        let mut slice = &theirs[..];
        assert_eq!(prost::encoding::decode_varint(&mut slice).unwrap(), v);
    }
}

#[test]
fn varint_decodes_at_a_position() {
    let buf = vec![0xff, 0xac, 0x02, 0x05];
    assert_eq!(decode_varint(&buf, 1), Some((300, 3)));
    assert_eq!(decode_varint(&buf, 3), Some((5, 4)));
    assert_eq!(decode_varint(&buf, 4), None);
}

#[test]
fn varint_rejects_what_is_no_encoding() {
    // cut short
    assert_eq!(decode_varint(&[0x80], 0), None);
    assert_eq!(decode_varint(&[], 0), None);
    // longer than need be
    assert_eq!(decode_varint(&[0x80, 0x00], 0), None);
    assert_eq!(decode_varint(&[0xac, 0x80, 0x00], 0), None);
    // more than 64 bits
    assert_eq!(
        decode_varint(&[0xff, 0xff, 0xff, 0xff, 0xff, 0xff, 0xff, 0xff, 0xff, 0x02], 0),
        None
    );
    assert_eq!(
        decode_varint(&[0x80, 0x80, 0x80, 0x80, 0x80, 0x80, 0x80, 0x80, 0x80, 0x80, 0x01], 0),
        None
    );
}

#[test]
fn big_endian_integers() {
    assert_eq!(u64_to_be_bytes(0), vec![0; 8]);
    assert_eq!(u64_to_be_bytes(1), vec![0, 0, 0, 0, 0, 0, 0, 1]);
    assert_eq!(u64_to_be_bytes(0x0102030405060708), vec![1, 2, 3, 4, 5, 6, 7, 8]);
    assert_eq!(u64_to_be_bytes(u64::MAX), vec![0xff; 8]);
    assert_eq!(u32_to_be_bytes(0x01020304), vec![1, 2, 3, 4]);
    assert_eq!(u32_to_be_bytes(12), vec![0, 0, 0, 12]);
    for v in [0u64, 1, 255, 256, 0xdead_beef, u64::MAX, 1 << 63] {
        assert_eq!(u64_to_be_bytes(v), v.to_be_bytes().to_vec());
        assert_eq!(u64_from_be_bytes(&v.to_be_bytes()), Some(v));
    }
    for v in [0u32, 1, 255, 256, 0xdead_beef, u32::MAX] {
        assert_eq!(u32_to_be_bytes(v), v.to_be_bytes().to_vec());
        assert_eq!(u32_from_be_bytes(&v.to_be_bytes()), Some(v));
    }
    assert_eq!(u64_from_be_bytes(&[1, 2, 3]), None);
    assert_eq!(u64_from_be_bytes(&[0; 9]), None);
    assert_eq!(u32_from_be_bytes(&[0; 8]), None);
    assert_eq!(u32_from_be_bytes(&[]), None);
}

#[test]
fn bytes_are_compared() {
    assert!(bytes_equal(&[], &[]));
    assert!(bytes_equal(&[1, 2], &[1, 2]));
    assert!(!bytes_equal(&[1, 2], &[1, 3]));
    assert!(!bytes_equal(&[1, 2], &[1]));
}

#[test]
fn fields_of_known_bytes() {
    let mut buf = Vec::new();
    encode_field(&Field { number: 1, value: FieldValue::Varint(150) }, &mut buf);
    assert_eq!(buf, vec![0x08, 0x96, 0x01]);
    let mut buf = Vec::new();
    encode_field(
        &Field { number: 2, value: FieldValue::Bytes(b"testing".to_vec()) },
        &mut buf,
    );
    assert_eq!(buf, vec![0x12, 0x07, b't', b'e', b's', b't', b'i', b'n', b'g']);
    let mut buf = Vec::new();
    encode_field(&Field { number: 15, value: FieldValue::Bytes(vec![]) }, &mut buf);
    assert_eq!(buf, vec![0x7a, 0x00]);
}

#[test]
fn fields_agree_with_prost() {
    let value = b"some bytes".to_vec();
    let mut theirs: Vec<u8> = Vec::new();
    prost::encoding::bytes::encode(3, &value, &mut theirs);
    prost::encoding::uint64::encode(4, &77u64, &mut theirs);
    let ours = encode_fields(&vec![
        Field { number: 3, value: FieldValue::Bytes(value) },
        Field { number: 4, value: FieldValue::Varint(77) },
    ]);
    assert_eq!(ours, theirs);
}

#[test]
fn fields_come_back() {
    let fields = vec![
        Field { number: 1, value: FieldValue::Varint(0) },
        Field { number: 1, value: FieldValue::Bytes(vec![1, 2, 3]) },
        Field { number: 9, value: FieldValue::Bytes(vec![]) },
        Field { number: 15, value: FieldValue::Varint(u64::MAX) },
    ];
    let bytes = encode_fields(&fields);
    let back = decode_fields(&bytes).unwrap();
    assert_eq!(format!("{:?}", back), format!("{:?}", fields));
    assert_eq!(format!("{:?}", decode_fields(&[]).unwrap()), "[]");
}

#[test]
fn fields_reject_what_is_no_encoding() {
    // field number 0
    assert!(decode_fields(&[0x00, 0x01]).is_none());
    // field number 16 needs two bytes of key
    assert!(decode_fields(&[0x80, 0x01, 0x01]).is_none());
    // a kind other than integer and bytes
    assert!(decode_fields(&[0x09, 0, 0, 0, 0, 0, 0, 0, 0]).is_none());
    assert!(decode_fields(&[0x0d, 0, 0, 0, 0]).is_none());
    // bytes shorter than their length
    assert!(decode_fields(&[0x0a, 0x03, 1, 2]).is_none());
    // no value
    assert!(decode_fields(&[0x08]).is_none());
    // an overlong length
    assert!(decode_fields(&[0x0a, 0x81, 0x00, 7]).is_none());
    assert!(decode_field(&[0x0a, 0x01, 7], 3).is_none());
    let (f, next) = decode_field(&[0xff, 0x0a, 0x01, 7], 1).unwrap();
    assert_eq!(next, 4);
    assert_eq!(format!("{:?}", f), "Field { number: 1, value: Bytes([7]) }");
}
