use rusk::codec::{decode_command, encode_command, encode_frame, Command};
use rusk::error::RuskError;

#[test]
fn encode_put_is_tagged_json() {
    let cmd = Command::Put { key: "a".to_string(), value: "1".to_string() };
    let payload = encode_command(&cmd);
    assert_eq!(payload, b"{\"Set\":{\"key\":\"a\",\"value\":\"1\"}}".to_vec());
    let frame = encode_frame(&cmd);
    assert_eq!(&frame[0..4], &[0u8, 0, 0, 31]);
    assert_eq!(&frame[4..], payload.as_slice());
}

#[test]
fn encode_rm_is_tagged_json() {
    let cmd = Command::Rm { key: "k".to_string() };
    assert_eq!(encode_command(&cmd), b"{\"Remove\":{\"key\":\"k\"}}".to_vec());
}

#[test]
fn encode_escapes_like_json() {
    let cmd = Command::Put { key: "q\"\\".to_string(), value: "\n\t\u{1f}".to_string() };
    let payload = encode_command(&cmd);
    assert_eq!(
        payload,
        b"{\"Set\":{\"key\":\"q\\\"\\\\\",\"value\":\"\\n\\t\\u001f\"}}".to_vec()
    );
}

#[test]
fn decode_inverts_encode() {
    let cmd = Command::Put { key: "k\u{e9}\u{8}".to_string(), value: "v\r\u{1f600}".to_string() };
    let payload = encode_command(&cmd);
    match decode_command(&payload) {
        Ok(Command::Put { key, value }) => {
            assert_eq!(key, "k\u{e9}\u{8}");
            assert_eq!(value, "v\r\u{1f600}");
        },
        _ => panic!("round trip failed"),
    }
    let rm = Command::Rm { key: "a b".to_string() };
    match decode_command(&encode_command(&rm)) {
        Ok(Command::Rm { key }) => assert_eq!(key, "a b"),
        _ => panic!("round trip failed"),
    }
}

#[test]
fn decode_rejects_malformed() {
    assert!(matches!(decode_command(b"{\"Set\":{}}"), Err(RuskError::Serde)));
    assert!(matches!(decode_command(b""), Err(RuskError::Serde)));
    assert!(matches!(
        decode_command(b"{\"Set\":{\"key\":\"a\",\"value\":\"1\"}} "),
        Err(RuskError::Serde)
    ));
    // a raw control byte inside a string is rejected
    assert!(matches!(
        decode_command(b"{\"Remove\":{\"key\":\"\x01\"}}"),
        Err(RuskError::Serde)
    ));
    // invalid UTF-8 in the key is rejected, not passed through
    assert!(matches!(
        decode_command(b"{\"Remove\":{\"key\":\"\xff\xfe\"}}"),
        Err(RuskError::Serde)
    ));
}

#[test]
fn decode_accepts_standard_escapes() {
    match decode_command(b"{\"Remove\":{\"key\":\"a\\/b\\u0041\"}}") {
        Ok(Command::Rm { key }) => assert_eq!(key, "a/bA"),
        _ => panic!("escapes not accepted"),
    }
}
