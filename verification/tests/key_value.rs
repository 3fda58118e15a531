use relcomm::hashmap::agent::{get_random_key, get_rnd_msg, letter, message_of, pick_key};
use relcomm::hashmap::formatter::{from_bytes, is_readable, to_bytes, FormatError};
use relcomm::hashmap::table::HashTable;

#[test]
fn table_reads_its_writes() {
    let mut t = HashTable::new();
    assert_eq!(t.read(&"a".to_string()), None);
    t.insert("a".to_string(), "1".to_string());
    t.insert("b".to_string(), "2".to_string());
    t.insert("a".to_string(), "3".to_string());
    assert_eq!(t.read(&"a".to_string()), Some("3".to_string()));
    assert_eq!(t.read(&"b".to_string()), Some("2".to_string()));
}

#[test]
fn table_applies_messages() {
    let mut t = HashTable::new();
    let msg = to_bytes(&"key".to_string(), &"va:lue".to_string()).unwrap();
    assert!(is_readable(&msg));
    assert_eq!(t.apply(msg), Ok(()));
    assert_eq!(t.read(&"key".to_string()), Some("va:lue".to_string()));
    assert_eq!(t.apply(b"no separator".to_vec()), Err(FormatError::InvalidFormat));
    assert_eq!(t.read(&"no separator".to_string()), None);
}

#[test]
fn formatter_edges() {
    let (k, v) = from_bytes(b":".to_vec()).unwrap();
    assert_eq!(k, "");
    assert_eq!(v, "");
    assert!(!is_readable(&vec![0xff, b':', b'a']));
    assert!(is_readable(&b"plain".to_vec()));
    assert_eq!(FormatError::InvalidKey.message(), "Key contains invalid character");
    assert_eq!(FormatError::InvalidFormat.message(), "Invalid message format");
}

#[test]
fn random_letters() {
    assert_eq!(letter(0), b'a');
    assert_eq!(letter(25), b'z');
    assert_eq!(letter(26), b'a');
    assert_eq!(letter(255), b'a' + (255 % 26) as u8);
    assert_eq!(message_of(&vec![0, 1, 27]), "abb");
    let m = get_rnd_msg(40);
    assert_eq!(m.len(), 40);
    assert!(m.bytes().all(|c| c.is_ascii_lowercase()));
    assert!(!m.contains(':'));
}

#[test]
fn random_keys() {
    let keys = ["k0", "k1", "k2"];
    assert_eq!(pick_key(&keys, 4), "k1");
    assert_eq!(pick_key(&keys, 255), "k0");
    let k = get_random_key(&keys);
    assert!(keys.contains(&k.as_str()));
}
