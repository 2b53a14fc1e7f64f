use reviewmesh::codec::{decode_chat, decode_comment, encode_chat, encode_comment};
use reviewmesh::model::{ChatLine, Comment};

fn sample_comment() -> Comment {
    Comment {
        id: "c1".to_string(),
        session_id: "s1".to_string(),
        author: "alice".to_string(),
        file: "src/main.rs".to_string(),
        hunk_id: "h1".to_string(),
        line: 42,
        body: "looks good".to_string(),
        created_at: 1_600_000_000,
        resolved: false,
    }
}

#[test]
fn chatline_serde_roundtrip() {
    let chat = ChatLine {
        id: "1".to_string(),
        session_id: "sess1".to_string(),
        author: "alice".to_string(),
        body: "Hello!".to_string(),
        created_at: 1_600_000_000,
    };
    let bytes = encode_chat(&chat);
    let de = decode_chat(bytes.as_slice()).unwrap();
    assert_eq!(chat, de);
}

#[test]
fn comment_roundtrip() {
    let c = sample_comment();
    let bytes = encode_comment(&c);
    let de = decode_comment(bytes.as_slice()).unwrap();
    assert_eq!(c, de);
}

#[test]
fn comment_roundtrip_resolved_and_negative_time() {
    let mut c = sample_comment();
    c.resolved = true;
    c.created_at = -1;
    let bytes = encode_comment(&c);
    let de = decode_comment(bytes.as_slice()).unwrap();
    assert_eq!(c, de);
}

#[test]
fn roundtrip_keeps_every_character() {
    let chat = ChatLine {
        id: "id-\u{30c1}".to_string(),
        session_id: "sess \u{1F600}".to_string(),
        author: "b\u{00e9}a".to_string(),
        body: "caf\u{00e9} \u{2764}\u{fe0f}".to_string(),
        created_at: 12,
    };
    let bytes = encode_chat(&chat);
    let de = decode_chat(bytes.as_slice()).unwrap();
    assert_eq!(chat, de);
}

#[test]
fn decode_rejects_garbage() {
    assert!(decode_comment(&[]).is_none());
    assert!(decode_comment(&[1, 2, 3]).is_none());
    assert!(decode_chat(&[0xff; 40]).is_none());
}

#[test]
fn decode_rejects_truncation_and_trailing_bytes() {
    let c = sample_comment();
    let bytes = encode_comment(&c);
    let truncated = &bytes[..bytes.len() - 1];
    assert!(decode_comment(truncated).is_none());
    let mut extended = bytes.clone();
    extended.push(0);
    assert!(decode_comment(extended.as_slice()).is_none());
}

#[test]
fn decode_rejects_invalid_character_code() {
    let chat = ChatLine {
        id: "x".to_string(),
        session_id: "s".to_string(),
        author: "a".to_string(),
        body: "b".to_string(),
        created_at: 0,
    };
    let mut bytes = encode_chat(&chat);
    // the id's single character sits right after its 8-byte length;
    // 0xD800 is a surrogate, not a scalar value
    bytes[8] = 0x00;
    bytes[9] = 0xd8;
    bytes[10] = 0x00;
    bytes[11] = 0x00;
    assert!(decode_chat(bytes.as_slice()).is_none());
}

#[test]
fn comment_and_chat_records_are_not_interchangeable() {
    let c = sample_comment();
    let bytes = encode_comment(&c);
    assert!(decode_chat(bytes.as_slice()).is_none());
}
