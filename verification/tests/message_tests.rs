use file_sharing_example::message::{FileGetMessage, ListFilesResponse, MessageDecodeError};

#[test]
fn file_request_encoding() {
    let m = FileGetMessage::new("a.txt".to_string());
    assert_eq!(m.encode(), vec![0x0a, 5, b'a', b'.', b't', b'x', b't']);
    assert_eq!(m.encoded_len(), 7);
}

#[test]
fn empty_file_name_encodes_to_nothing() {
    let m = FileGetMessage::new(String::new());
    assert_eq!(m.encode(), Vec::<u8>::new());
    assert_eq!(m.encoded_len(), 0);
    assert_eq!(FileGetMessage::decode(&[]).unwrap(), m);
}

#[test]
fn file_request_roundtrip() {
    for name in ["x", "tmp_file.txt", "黑风雷", &"n".repeat(300)] {
        let m = FileGetMessage::new(name.to_string());
        let bytes = m.encode();
        assert_eq!(bytes.len(), m.encoded_len());
        assert_eq!(FileGetMessage::decode(&bytes).unwrap(), m);
    }
}

#[test]
fn long_names_take_a_two_byte_length() {
    let m = FileGetMessage::new("n".repeat(200));
    let bytes = m.encode();
    assert_eq!(&bytes[..3], &[0x0a, 0xc8, 0x01]);
    assert_eq!(bytes.len(), 203);
}

#[test]
fn unknown_fields_are_skipped() {
    let bytes = [0x10, 0x96, 0x01, 0x0a, 0x01, b'f', 0x1d, 1, 2, 3, 4];
    assert_eq!(FileGetMessage::decode(&bytes).unwrap().file_name, "f");
}

#[test]
fn the_last_file_name_wins() {
    let bytes = [0x0a, 0x01, b'a', 0x0a, 0x02, b'b', b'c'];
    assert_eq!(FileGetMessage::decode(&bytes).unwrap().file_name, "bc");
}

#[test]
fn malformed_file_requests_are_refused() {
    assert_eq!(FileGetMessage::decode(&[0x0a, 0x05, b'a']), Err(MessageDecodeError));
    assert_eq!(FileGetMessage::decode(&[0x08, 0x01]), Err(MessageDecodeError));
    assert_eq!(FileGetMessage::decode(&[0x0a, 0x01, 0xff]), Err(MessageDecodeError));
    assert_eq!(FileGetMessage::decode(&[0x00]), Err(MessageDecodeError));
    assert_eq!(FileGetMessage::decode(&[0x0f, 0x00]), Err(MessageDecodeError));
    assert_eq!(FileGetMessage::decode(&[0x80]), Err(MessageDecodeError));
}

#[test]
fn file_list_encoding() {
    let r = ListFilesResponse { file_names: vec!["a".to_string(), String::new(), "bc".to_string()] };
    assert_eq!(r.encode(), vec![0x0a, 1, b'a', 0x0a, 0, 0x0a, 2, b'b', b'c']);
    assert_eq!(r.encoded_len(), 9);
}

#[test]
fn file_list_roundtrip() {
    let r = ListFilesResponse {
        file_names: vec!["one".to_string(), "".to_string(), "三".to_string(), "x".repeat(150)],
    };
    let bytes = r.encode();
    assert_eq!(bytes.len(), r.encoded_len());
    assert_eq!(ListFilesResponse::decode(&bytes).unwrap(), r);
}

#[test]
fn empty_file_list() {
    let r = ListFilesResponse { file_names: vec![] };
    assert!(r.encode().is_empty());
    assert_eq!(ListFilesResponse::decode(&[]).unwrap(), r);
}

#[test]
fn file_list_skips_unknown_fields_and_refuses_malformed_input() {
    let bytes = [0x12, 0x01, b'z', 0x0a, 0x01, b'q'];
    assert_eq!(ListFilesResponse::decode(&bytes).unwrap().file_names, vec!["q".to_string()]);
    assert_eq!(ListFilesResponse::decode(&[0x0a, 0x03, b'a']), Err(MessageDecodeError));
    assert_eq!(ListFilesResponse::decode(&[0x0d, 0x01]), Err(MessageDecodeError));
}

#[test]
fn unknown_fields_of_every_wire_type_are_skipped() {
    let bytes = vec![
        0x10, 0x96, 0x01, // field 2, varint
        0x19, 1, 2, 3, 4, 5, 6, 7, 8, // field 3, 64 bits
        0x25, 1, 2, 3, 4, // field 4, 32 bits
        0x2a, 0x02, 0xaa, 0xbb, // field 5, length-delimited
        0x33, 0x30, 0x07, 0x34, // field 6, a group holding field 6 as a varint
        0x0a, 0x02, b'a', b'b', // field 1, the file name
    ];
    assert_eq!(FileGetMessage::decode(&bytes), Ok(FileGetMessage::new("ab".to_string())));
}

#[test]
fn unknown_fields_that_run_past_the_end_are_refused() {
    assert_eq!(FileGetMessage::decode(&[0x14]), Err(MessageDecodeError));
    assert_eq!(FileGetMessage::decode(&[0x19, 1, 2, 3]), Err(MessageDecodeError));
    assert_eq!(FileGetMessage::decode(&[0x25, 1, 2]), Err(MessageDecodeError));
    assert_eq!(FileGetMessage::decode(&[0x2a, 0x05, 1]), Err(MessageDecodeError));
    assert_eq!(FileGetMessage::decode(&[0x10, 0x80]), Err(MessageDecodeError));
}
