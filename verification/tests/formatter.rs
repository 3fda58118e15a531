use relcomm::hashmap::formatter::{from_bytes, to_bytes, FormatError};

#[test]
fn formatter_roundtrip() {
    let key = "k1".to_string();
    let msg = "value".to_string();
    let bytes = to_bytes(&key, &msg).unwrap();
    assert_eq!(bytes, b"k1:value".to_vec());
    let (k, v) = from_bytes(bytes).unwrap();
    assert_eq!(k, "k1");
    assert_eq!(v, "value");
}

#[test]
fn formatter_rejects_colon_key() {
    let key = "a:b".to_string();
    let msg = "x".to_string();
    assert_eq!(to_bytes(&key, &msg), Err(FormatError::InvalidKey));
}

#[test]
fn formatter_needs_colon() {
    assert_eq!(from_bytes(b"novalue".to_vec()), Err(FormatError::InvalidFormat));
}
