use snapfaas::dclabel::Clause;
use snapfaas::record::{decode, encode_to_vec};
use snapfaas::syscalls::{
    frame, frame_len, unframe, CompareAndSwap, CompareAndSwapResponse, Component, DcLabel, Invoke,
    InvokeResponse, ReadDir, ReadDirResponse, ReadKey, ReadKeyResponse, Syscall, WriteKey,
    WriteKeyResponse,
};

#[test]
fn read_key_of_known_bytes() {
    let m = ReadKey { key: vec![1, 2, 3] };
    assert_eq!(encode_to_vec(&m), vec![0x0a, 0x03, 1, 2, 3]);
    assert_eq!(decode::<ReadKey>(&[0x0a, 0x03, 1, 2, 3]), Some(m));
    assert_eq!(encode_to_vec(&ReadKey { key: vec![] }), Vec::<u8>::new());
    assert_eq!(decode::<ReadKey>(&[]), Some(ReadKey { key: vec![] }));
}

#[test]
fn read_key_rejects_what_prost_would_not_write() {
    // an empty key is left out, never written
    assert_eq!(decode::<ReadKey>(&[0x0a, 0x00]), None);
    // the key twice
    assert_eq!(decode::<ReadKey>(&[0x0a, 0x01, 1, 0x0a, 0x01, 2]), None);
    // a field that the message does not have
    assert_eq!(decode::<ReadKey>(&[0x12, 0x01, 1]), None);
    // an integer where bytes belong
    assert_eq!(decode::<ReadKey>(&[0x08, 0x01]), None);
    // cut short
    assert_eq!(decode::<ReadKey>(&[0x0a, 0x03, 1]), None);
}

#[test]
fn responses_of_known_bytes() {
    assert_eq!(encode_to_vec(&ReadKeyResponse { value: None }), Vec::<u8>::new());
    assert_eq!(encode_to_vec(&ReadKeyResponse { value: Some(vec![]) }), vec![0x0a, 0x00]);
    assert_eq!(encode_to_vec(&ReadKeyResponse { value: Some(vec![7]) }), vec![0x0a, 0x01, 7]);
    assert_eq!(encode_to_vec(&WriteKeyResponse { success: false }), Vec::<u8>::new());
    assert_eq!(encode_to_vec(&WriteKeyResponse { success: true }), vec![0x08, 0x01]);
    assert_eq!(encode_to_vec(&InvokeResponse { success: true }), vec![0x08, 0x01]);
    assert_eq!(
        encode_to_vec(&CompareAndSwapResponse { success: true, old: Some(vec![9]) }),
        vec![0x08, 0x01, 0x12, 0x01, 9]
    );
    assert_eq!(
        encode_to_vec(&CompareAndSwapResponse { success: false, old: None }),
        Vec::<u8>::new()
    );
    assert_eq!(
        encode_to_vec(&ReadDirResponse { keys: vec![b"a/".to_vec(), b"b".to_vec()] }),
        vec![0x0a, 0x02, b'a', b'/', 0x0a, 0x01, b'b']
    );
}

#[test]
fn responses_come_back() {
    for value in [None, Some(vec![]), Some(vec![0u8; 300])] {
        let m = ReadKeyResponse { value };
        assert_eq!(decode::<ReadKeyResponse>(&encode_to_vec(&m)), Some(m));
    }
    for success in [false, true] {
        let m = WriteKeyResponse { success };
        assert_eq!(decode::<WriteKeyResponse>(&encode_to_vec(&m)), Some(m));
        let m = InvokeResponse { success };
        assert_eq!(decode::<InvokeResponse>(&encode_to_vec(&m)), Some(m));
        for old in [None, Some(vec![]), Some(vec![1, 2])] {
            let m = CompareAndSwapResponse { success, old };
            assert_eq!(decode::<CompareAndSwapResponse>(&encode_to_vec(&m)), Some(m));
        }
    }
    for keys in [vec![], vec![vec![]], vec![b"x/".to_vec(), b"y".to_vec(), b"x/".to_vec()]] {
        let m = ReadDirResponse { keys };
        assert_eq!(decode::<ReadDirResponse>(&encode_to_vec(&m)), Some(m));
    }
}

#[test]
fn responses_reject_what_is_no_encoding() {
    // false is left out, never written
    assert_eq!(decode::<WriteKeyResponse>(&[0x08, 0x00]), None);
    assert_eq!(decode::<WriteKeyResponse>(&[0x08, 0x02]), None);
    assert_eq!(decode::<WriteKeyResponse>(&[0x0a, 0x00]), None);
    // fields out of order
    assert_eq!(decode::<CompareAndSwapResponse>(&[0x12, 0x01, 9, 0x08, 0x01]), None);
    // a value twice
    assert_eq!(decode::<ReadKeyResponse>(&[0x0a, 0x00, 0x0a, 0x00]), None);
    // a compare-and-swap response with an old value is no write response
    assert_eq!(decode::<WriteKeyResponse>(&[0x08, 0x01, 0x12, 0x01, 9]), None);
    // an integer among the names
    assert_eq!(decode::<ReadDirResponse>(&[0x0a, 0x01, b'a', 0x08, 0x01]), None);
}

#[test]
fn write_key_agrees_with_prost() {
    let key = b"key".to_vec();
    let value = b"value".to_vec();
    let mut theirs: Vec<u8> = Vec::new();
    prost::encoding::bytes::encode(1, &key, &mut theirs);
    prost::encoding::bytes::encode(2, &value, &mut theirs);
    prost::encoding::uint32::encode(3, &16u32, &mut theirs);
    let m = WriteKey { key: key.clone(), value: value.clone(), flags: Some(16) };
    assert_eq!(encode_to_vec(&m), theirs);
    assert_eq!(decode::<WriteKey>(&theirs), Some(m));

    let mut theirs: Vec<u8> = Vec::new();
    prost::encoding::bytes::encode(2, &value, &mut theirs);
    let m = WriteKey { key: vec![], value, flags: None };
    assert_eq!(encode_to_vec(&m), theirs);
    assert_eq!(decode::<WriteKey>(&theirs), Some(m));

    let mut theirs: Vec<u8> = Vec::new();
    prost::encoding::uint32::encode(3, &0u32, &mut theirs);
    let m = WriteKey { key: vec![], value: vec![], flags: Some(0) };
    assert_eq!(encode_to_vec(&m), theirs);
    assert_eq!(decode::<WriteKey>(&theirs), Some(m));
    // flags that do not fit in 32 bits
    assert_eq!(decode::<WriteKey>(&[0x18, 0x80, 0x80, 0x80, 0x80, 0x10]), None);
}

#[test]
fn compare_and_swap_agrees_with_prost() {
    let key = b"k".to_vec();
    let expected = b"old".to_vec();
    let value = b"new".to_vec();
    let mut theirs: Vec<u8> = Vec::new();
    prost::encoding::bytes::encode(1, &key, &mut theirs);
    prost::encoding::bytes::encode(2, &expected, &mut theirs);
    prost::encoding::bytes::encode(3, &value, &mut theirs);
    let m = CompareAndSwap { key: key.clone(), expected: Some(expected), value: value.clone() };
    assert_eq!(encode_to_vec(&m), theirs);
    assert_eq!(decode::<CompareAndSwap>(&theirs), Some(m));
    let m = CompareAndSwap { key, expected: None, value };
    assert_eq!(encode_to_vec(&m), vec![0x0a, 0x01, b'k', 0x1a, 0x03, b'n', b'e', b'w']);
    assert_eq!(decode::<CompareAndSwap>(&encode_to_vec(&m)), Some(m));
    let m = CompareAndSwap { key: vec![], expected: Some(vec![]), value: vec![] };
    assert_eq!(encode_to_vec(&m), vec![0x12, 0x00]);
    assert_eq!(decode::<CompareAndSwap>(&[0x12, 0x00]), Some(m));
}

#[test]
fn invoke_carries_strings() {
    let m = Invoke { function: "ping".to_string(), payload: String::new() };
    let mut theirs: Vec<u8> = Vec::new();
    prost::encoding::string::encode(1, &m.function, &mut theirs);
    assert_eq!(encode_to_vec(&m), theirs);
    assert_eq!(encode_to_vec(&m), vec![0x0a, 0x04, b'p', b'i', b'n', b'g']);
    assert_eq!(decode::<Invoke>(&theirs), Some(m));
    let m = Invoke { function: "f".to_string(), payload: "gr\u{fc}\u{df}e \u{4e16}".to_string() };
    assert_eq!(decode::<Invoke>(&encode_to_vec(&m)), Some(m));
    // bytes that are no UTF-8
    assert_eq!(decode::<Invoke>(&[0x0a, 0x01, 0xff]), None);
    assert_eq!(decode::<Invoke>(&[0x0a, 0x01, b'f', 0x12, 0x02, 0xc3, 0x28]), None);
}

#[test]
fn requests_hold_one_message() {
    let inner = ReadKey { key: vec![5] };
    let m = Syscall::ReadKey(inner.clone());
    assert_eq!(encode_to_vec(&m), vec![0x0a, 0x03, 0x0a, 0x01, 5]);
    let mut theirs: Vec<u8> = Vec::new();
    prost::encoding::bytes::encode(1, &encode_to_vec(&inner), &mut theirs);
    assert_eq!(encode_to_vec(&m), theirs);

    let all = vec![
        Syscall::ReadKey(ReadKey { key: vec![] }),
        Syscall::ReadKey(ReadKey { key: vec![1] }),
        Syscall::WriteKey(WriteKey { key: vec![1], value: vec![2], flags: None }),
        Syscall::WriteKey(WriteKey { key: vec![1], value: vec![], flags: Some(16) }),
        Syscall::CompareAndSwap(CompareAndSwap { key: vec![1], expected: None, value: vec![3] }),
        Syscall::ReadDir(ReadDir { dir: b"dir".to_vec() }),
        Syscall::Invoke(Invoke { function: "ping".to_string(), payload: String::new() }),
    ];
    for (i, m) in all.iter().enumerate() {
        let bytes = encode_to_vec(m);
        assert_eq!(decode::<Syscall>(&bytes).as_ref(), Some(m));
        for (j, other) in all.iter().enumerate() {
            assert_eq!(i == j, bytes == encode_to_vec(other));
        }
    }
    // the inner message of each kind sits in the slot of that kind
    assert_eq!(encode_to_vec(&all[0]), vec![0x0a, 0x00]);
    assert_eq!(encode_to_vec(&all[5])[0], 0x22);
    assert_eq!(encode_to_vec(&all[6])[0], 0x2a);
}

#[test]
fn requests_reject_what_is_no_request() {
    // nothing at all
    assert_eq!(decode::<Syscall>(&[]), None);
    // two messages
    assert_eq!(decode::<Syscall>(&[0x0a, 0x00, 0x12, 0x00]), None);
    assert_eq!(decode::<Syscall>(&[0x0a, 0x00, 0x0a, 0x00]), None);
    // a kind that is not known
    assert_eq!(decode::<Syscall>(&[0x32, 0x00]), None);
    // an inner message that is none
    assert_eq!(decode::<Syscall>(&[0x0a, 0x02, 0x0a, 0x00]), None);
    assert_eq!(decode::<Syscall>(&[0x08, 0x01]), None);
}

#[test]
fn labels_of_known_bytes() {
    let clause = Clause::new(vec!["a".to_string(), "bc".to_string()]);
    assert_eq!(encode_to_vec(&clause), vec![0x0a, 0x01, b'a', 0x0a, 0x02, b'b', b'c']);
    assert_eq!(decode::<Clause>(&encode_to_vec(&clause)), Some(clause.clone()));
    let component = Component { clauses: vec![clause.clone(), Clause::empty()] };
    assert_eq!(
        encode_to_vec(&component),
        vec![0x0a, 0x07, 0x0a, 0x01, b'a', 0x0a, 0x02, b'b', b'c', 0x0a, 0x00]
    );
    assert_eq!(decode::<Component>(&encode_to_vec(&component)), Some(component.clone()));
    let label = DcLabel { secrecy: None, integrity: Some(Component { clauses: vec![] }) };
    assert_eq!(encode_to_vec(&label), vec![0x12, 0x00]);
    assert_eq!(decode::<DcLabel>(&[0x12, 0x00]), Some(label));
    let label = DcLabel { secrecy: Some(component.clone()), integrity: Some(component) };
    assert_eq!(decode::<DcLabel>(&encode_to_vec(&label)), Some(label));
    let label = DcLabel { secrecy: None, integrity: None };
    assert_eq!(encode_to_vec(&label), Vec::<u8>::new());
    // a principal that is no UTF-8
    assert_eq!(decode::<Clause>(&[0x0a, 0x01, 0x80]), None);
    assert_eq!(decode::<Component>(&[0x0a, 0x03, 0x0a, 0x01, 0x80]), None);
    assert_eq!(decode::<DcLabel>(&[0x0a, 0x05, 0x0a, 0x03, 0x0a, 0x01, 0x80]), None);
    assert_eq!(decode::<DcLabel>(&[0x1a, 0x00]), None);
}

#[test]
fn frames_carry_their_length() {
    assert_eq!(frame(&[]), Some(vec![0, 0, 0, 0]));
    assert_eq!(frame(&[7, 8, 9]), Some(vec![0, 0, 0, 3, 7, 8, 9]));
    let long = vec![1u8; 0x1_0203];
    let framed = frame(&long).unwrap();
    assert_eq!(&framed[..4], &[0, 1, 2, 3]);
    assert_eq!(framed.len(), 4 + long.len());
    assert_eq!(frame_len(&[0, 1, 2, 3]), Some(0x1_0203));
    assert_eq!(frame_len(&[0, 1, 2]), None);
    assert_eq!(frame_len(&[0, 1, 2, 3, 4]), None);
}

#[test]
fn frames_are_taken_off_the_front() {
    assert_eq!(unframe(&[0, 0, 0, 3, 7, 8, 9]), Some((vec![7, 8, 9], 7)));
    assert_eq!(unframe(&[0, 0, 0, 1, 7, 8, 9]), Some((vec![7], 5)));
    assert_eq!(unframe(&[0, 0, 0, 0]), Some((vec![], 4)));
    assert_eq!(unframe(&[0, 0, 0]), None);
    assert_eq!(unframe(&[]), None);
    assert_eq!(unframe(&[0, 0, 0, 4, 7, 8, 9]), None);
    let payload = encode_to_vec(&Syscall::ReadKey(ReadKey { key: vec![1] }));
    let mut stream = frame(&payload).unwrap();
    stream.extend_from_slice(&frame(&[]).unwrap());
    let (first, used) = unframe(&stream).unwrap();
    assert_eq!(first, payload);
    assert_eq!(unframe(&stream[used..]), Some((vec![], 4)));
}
