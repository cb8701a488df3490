use ws_accept::{
    accept_from_bytes, accept_from_digest, accept_into, handshake_input, sec_websocket_accept,
    HANDSHAKE_GUID,
};

const SAMPLE_KEY: &str = "dGhlIHNhbXBsZSBub25jZQ==";
const SAMPLE_ACCEPT: &str = "s3pPLMBiTxaQ9kYGzzhZRbK+xOo=";

fn is_alphabet(c: char) -> bool {
    c.is_ascii_uppercase() || c.is_ascii_lowercase() || c.is_ascii_digit() || c == '+' || c == '/'
}

#[test]
fn known_answer() {
    assert_eq!(sec_websocket_accept(SAMPLE_KEY), SAMPLE_ACCEPT);
}

#[test]
fn known_answer_from_bytes() {
    assert_eq!(accept_from_bytes(SAMPLE_KEY.as_bytes()), SAMPLE_ACCEPT);
}

#[test]
fn same_key_same_value() {
    let keys = [SAMPLE_KEY, "x3JJHMbDL1EzLkh9GBhXDw==", "AQIDBAUGBwgJCgsMDQ4PEA=="];
    for key in keys {
        let first = sec_websocket_accept(key);
        let second = sec_websocket_accept(key);
        assert_eq!(first, second);
        let owned = String::from(key);
        assert_eq!(sec_websocket_accept(&owned), first);
    }
}

#[test]
fn value_has_28_characters() {
    let keys = [
        SAMPLE_KEY,
        "x3JJHMbDL1EzLkh9GBhXDw==",
        "AAAAAAAAAAAAAAAAAAAAAA==",
        "/////////////////////w==",
        "",
        "short",
    ];
    for key in keys {
        assert_eq!(sec_websocket_accept(key).chars().count(), 28);
    }
}

#[test]
fn value_is_base64_of_twenty_bytes() {
    for key in [SAMPLE_KEY, "x3JJHMbDL1EzLkh9GBhXDw==", "AQIDBAUGBwgJCgsMDQ4PEA=="] {
        let value = sec_websocket_accept(key);
        let chars: Vec<char> = value.chars().collect();
        assert_eq!(chars.len(), 28);
        assert!(chars[..27].iter().all(|c| is_alphabet(*c)));
        assert_eq!(chars[27], '=');
        let decoded = base64::decode(&value).unwrap();
        assert_eq!(decoded.len(), 20);
    }
}

#[test]
fn one_changed_character_changes_value() {
    let base = sec_websocket_accept(SAMPLE_KEY);
    let bytes = SAMPLE_KEY.as_bytes();
    for pos in [0usize, 5, 11, 17, 21, 23] {
        let mut changed = bytes.to_vec();
        changed[pos] = if changed[pos] == b'A' { b'B' } else { b'A' };
        let key = String::from_utf8(changed).unwrap();
        assert_ne!(sec_websocket_accept(&key), base);
    }
}

#[test]
fn buffer_matches_text() {
    for key in [SAMPLE_KEY, "x3JJHMbDL1EzLkh9GBhXDw==", "AQIDBAUGBwgJCgsMDQ4PEA=="] {
        let expected = sec_websocket_accept(key);
        let mut source = [0u8; 24];
        source.copy_from_slice(key.as_bytes());
        let mut dest = [0u8; 28];
        accept_into(&source, &mut dest);
        assert_eq!(&dest[..], expected.as_bytes());
    }
}

#[test]
fn buffer_known_answer() {
    let mut source = [0u8; 24];
    source.copy_from_slice(SAMPLE_KEY.as_bytes());
    let mut dest = [0xffu8; 28];
    accept_into(&source, &mut dest);
    assert_eq!(&dest[..], SAMPLE_ACCEPT.as_bytes());
}

#[test]
fn input_is_key_then_guid() {
    let input = handshake_input(b"abc");
    assert_eq!(input, b"abc258EAFA5-E914-47DA-95CA-C5AB0DC85B11".to_vec());
    assert_eq!(handshake_input(b""), HANDSHAKE_GUID.as_bytes().to_vec());
    assert_eq!(handshake_input(SAMPLE_KEY.as_bytes()).len(), 60);
}

#[test]
fn digest_text_exact_values() {
    assert_eq!(accept_from_digest(&[0u8; 20]), "AAAAAAAAAAAAAAAAAAAAAAAAAAA=");
    assert_eq!(accept_from_digest(b"Man"), "TWFu");
    assert_eq!(accept_from_digest(b"Ma"), "TWE=");
    assert_eq!(accept_from_digest(b"M"), "TQ==");
    assert_eq!(accept_from_digest(b""), "");
    assert_eq!(accept_from_digest(&[0xfb, 0xff]), "+/8=");
}

#[test]
fn digest_text_of_sample_digest() {
    let digest: [u8; 20] = [
        0xb3, 0x7a, 0x4f, 0x2c, 0xc0, 0x62, 0x4f, 0x16, 0x90, 0xf6, 0x46, 0x06, 0xcf, 0x38,
        0x59, 0x45, 0xb2, 0xbe, 0xc4, 0xea,
    ];
    assert_eq!(accept_from_digest(&digest), SAMPLE_ACCEPT);
}

#[test]
fn empty_key_hashes_guid_alone() {
    let value = sec_websocket_accept("");
    assert_eq!(value, accept_from_bytes(b""));
    assert_eq!(value.chars().count(), 28);
    assert_ne!(value, sec_websocket_accept(SAMPLE_KEY));
}
