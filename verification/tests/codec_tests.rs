//! Byte-exact tests of the record codec.

use kvs::{decode_command_at, encode_command, Command, KvsError};

#[test]
fn set_record_bytes_are_canonical_json() {
    let bytes = encode_command(&Command::SetCmd { key: "a".to_string(), value: "1".to_string() });
    assert_eq!(bytes, b"{\"Set\":{\"key\":\"a\",\"value\":\"1\"}}".to_vec());
}

#[test]
fn rm_record_bytes_are_canonical_json() {
    let bytes = encode_command(&Command::Rm { key: "a".to_string() });
    assert_eq!(bytes, b"{\"Rm\":{\"key\":\"a\"}}".to_vec());
}

#[test]
fn get_record_bytes_are_canonical_json() {
    let bytes = encode_command(&Command::Get { key: "k".to_string() });
    assert_eq!(bytes, b"{\"Get\":{\"key\":\"k\"}}".to_vec());
}

#[test]
fn escaping_quotes_backslashes_and_controls() {
    let bytes = encode_command(&Command::SetCmd {
        key: "a\"b".to_string(),
        value: "c\\d\ne\u{0001}".to_string(),
    });
    assert_eq!(
        bytes,
        b"{\"Set\":{\"key\":\"a\\\"b\",\"value\":\"c\\\\d\\u000ae\\u0001\"}}".to_vec()
    );
}

#[test]
fn decode_undoes_encode() {
    let cmds = vec![
        Command::SetCmd { key: "key".to_string(), value: "value".to_string() },
        Command::SetCmd { key: String::new(), value: "\"\\\u{0}".to_string() },
        Command::Rm { key: "gone\u{1F600}".to_string() },
        Command::Get { key: "q".to_string() },
    ];
    for cmd in cmds {
        let bytes = encode_command(&cmd);
        let (back, end) = decode_command_at(&bytes, 0).unwrap();
        assert_eq!(back, cmd);
        assert_eq!(end, bytes.len());
    }
}

#[test]
fn decode_walks_a_stream_of_records() {
    let mut data = Vec::new();
    let first = Command::SetCmd { key: "a".to_string(), value: "1".to_string() };
    let second = Command::Rm { key: "a".to_string() };
    data.extend(encode_command(&first));
    let boundary = data.len();
    data.extend(encode_command(&second));
    let (got1, end1) = decode_command_at(&data, 0).unwrap();
    assert_eq!(got1, first);
    assert_eq!(end1, boundary);
    let (got2, end2) = decode_command_at(&data, end1).unwrap();
    assert_eq!(got2, second);
    assert_eq!(end2, data.len());
}

#[test]
fn decode_rejects_malformed_input() {
    let bad: Vec<Vec<u8>> = vec![
        b"".to_vec(),
        b"{\"Set\":{\"key\":\"a\"}}".to_vec(),
        b"{\"Put\":{\"key\":\"a\"}}".to_vec(),
        b"{\"Set\":{\"key\":\"a\",\"value\":\"1\"}".to_vec(),
        b"{\"Rm\":{\"key\":\"a\\q\"}}".to_vec(),
        b"{\"Rm\":{\"key\":\"a\x01\"}}".to_vec(),
        b"{\"Rm\":{\"key\":\"\xff\xfe\"}}".to_vec(),
    ];
    for input in bad {
        match decode_command_at(&input, 0) {
            Err(KvsError::Serde(_)) => {}
            other => panic!("{:?} decoded to {:?}", input, other),
        }
    }
}

#[test]
fn decode_rejects_noncanonical_escapes() {
    // an escaped byte above 0x1f is never produced by the encoder
    let input = b"{\"Rm\":{\"key\":\"\\u0041\"}}".to_vec();
    assert!(matches!(decode_command_at(&input, 0), Err(KvsError::Serde(_))));
}

#[test]
fn error_messages_are_stable() {
    assert_eq!(KvsError::KeyNotFound.message(), "Key not found");
    assert_eq!(KvsError::UnexpectedCommandType.message(), "Unexpected command type");
    assert_eq!(KvsError::Io("boom".to_string()).message(), "boom");
    assert_eq!(KvsError::StringError("remote".to_string()).message(), "remote");
}

#[test]
fn command_constructors_build_the_variants() {
    assert_eq!(
        Command::set("k".to_string(), "v".to_string()),
        Command::SetCmd { key: "k".to_string(), value: "v".to_string() }
    );
    assert_eq!(Command::remove("k".to_string()), Command::Rm { key: "k".to_string() });
}
