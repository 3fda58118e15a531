//! The message format of a table write: the key, a colon, the value.
use vstd::prelude::*;
use vstd::utf8::{decode_utf8, encode_utf8, valid_utf8};

verus! {

/// Why a table message could not be built or read.
#[derive(Clone, Copy, Debug, PartialEq, Eq, Structural)]
pub enum FormatError {
    /// The key holds a colon, which separates key from value.
    InvalidKey,
    /// The message holds no colon.
    InvalidFormat,
}

impl FormatError {
    /// The text of the error.
    pub fn message(&self) -> (res: &'static str)
        ensures
            res@ == (match self {
                FormatError::InvalidKey => "Key contains invalid character"@,
                FormatError::InvalidFormat => "Invalid message format"@,
            }),
    {
        match self {
            FormatError::InvalidKey => "Key contains invalid character",
            FormatError::InvalidFormat => "Invalid message format",
        }
    }
}

/// The byte of a colon.
pub const COLON: u8 = 58;

/// The message that carries `key` and `msg`: the UTF-8 of the key, a colon,
/// the UTF-8 of the value.
pub open spec fn message_bytes(key: Seq<char>, msg: Seq<char>) -> Seq<u8> {
    encode_utf8(key) + seq![COLON] + encode_utf8(msg)
}

/// The index of the first colon of a message.
pub open spec fn first_colon(s: Seq<u8>) -> Option<int>
    decreases s.len(),
{
    if s.len() == 0 {
        None
    } else if s[0] == COLON {
        Some(0)
    } else {
        match first_colon(s.drop_first()) {
            Some(i) => Some(i + 1),
            None => None,
        }
    }
}

/// A message can be read: where it has a colon, both sides are valid UTF-8.
pub open spec fn readable(s: Seq<u8>) -> bool {
    first_colon(s) matches Some(i) ==> valid_utf8(s.subrange(0, i)) && valid_utf8(
        s.subrange(i + 1, s.len() as int),
    )
}

/// What reading a message gives: the key before its first colon and the value after it.
pub open spec fn parsed(s: Seq<u8>) -> Result<(Seq<char>, Seq<char>), FormatError> {
    match first_colon(s) {
        Some(i) => Ok((decode_utf8(s.subrange(0, i)), decode_utf8(s.subrange(i + 1, s.len() as int)))),
        None => Err(FormatError::InvalidFormat),
    }
}

proof fn lemma_first_colon(s: Seq<u8>)
    ensures
        first_colon(s) matches Some(i) ==> 0 <= i < s.len() && s[i] == COLON && forall|j: int|
            0 <= j < i ==> s[j] != COLON,
        first_colon(s) is None ==> forall|j: int| 0 <= j < s.len() ==> s[j] != COLON,
    decreases s.len(),
{
    if s.len() > 0 {
        lemma_first_colon(s.drop_first());
        if s[0] != COLON {
            assert forall|j: int| 0 < j < s.len() implies s[j] == s.drop_first()[j - 1] by {}
        }
    }
}

proof fn lemma_first_colon_at(s: Seq<u8>, i: int)
    requires
        0 <= i < s.len(),
        s[i] == COLON,
        forall|j: int| 0 <= j < i ==> s[j] != COLON,
    ensures
        first_colon(s) == Some(i),
    decreases s.len(),
{
    if i > 0 {
        assert forall|j: int| 0 <= j < i - 1 implies s.drop_first()[j] != COLON by {
            assert(s.drop_first()[j] == s[j + 1]);
        }
        lemma_first_colon_at(s.drop_first(), i - 1);
    }
}

/// Only a colon encodes to a colon byte: every byte of a wider character is 0x80 or above.
proof fn lemma_scalar_colon(c: char)
    ensures
        encode_scalar_has_colon(c as u32) == (c == ':'),
{
    let v = c as u32;
    vstd::utf8::char_is_scalar(c);
    if vstd::utf8::has_width_1_encoding(v) {
        assert(v <= 0x7f ==> (v & 0x7f) as u8 == v) by (bit_vector);
        let e = vstd::utf8::encode_scalar(v);
        assert(e.len() == 1 && e[0] == v as u8);
        assert(e.contains(COLON) == (v == 58)) by {
            if e.contains(COLON) {
                let k = choose|k: int| 0 <= k < e.len() && e[k] == COLON;
                assert(k == 0);
            }
            if v == 58 {
                assert(e[0] == COLON);
            }
        }
        assert((':' as u32) == 58);
        assert(v == 58 <==> c == ':') by {
            vstd::utf8::char_u32_cast(c, v);
        }
    } else {
        let e = vstd::utf8::encode_scalar(v);
        assert(forall|b: u8| (0xC0 | b) >= 0x80 && (0xE0 | b) >= 0x80 && (0xF0 | b) >= 0x80 && (0x80 | b) >= 0x80) by (bit_vector);
        assert forall|k: int| 0 <= k < e.len() implies e[k] >= 0x80 by {}
        assert(!e.contains(COLON)) by {
            if e.contains(COLON) {
                let k = choose|k: int| 0 <= k < e.len() && e[k] == COLON;
            }
        }
        assert(c != ':') by {
            if c == ':' {
                assert((':' as u32) == 58);
            }
        }
    }
}

/// The UTF-8 of one character holds a colon byte.
pub open spec fn encode_scalar_has_colon(v: u32) -> bool {
    vstd::utf8::encode_scalar(v).contains(COLON)
}

/// The UTF-8 of a text holds a colon byte exactly when the text holds a colon.
pub proof fn lemma_colon_byte(s: Seq<char>)
    ensures
        encode_utf8(s).contains(COLON) == s.contains(':'),
    decreases s.len(),
{
    if s.len() > 0 {
        lemma_colon_byte(s.drop_first());
        lemma_scalar_colon(s[0]);
        let head = vstd::utf8::encode_scalar(s[0] as u32);
        let tail = encode_utf8(s.drop_first());
        assert(encode_utf8(s) == head + tail);
        if (head + tail).contains(COLON) {
            let k = choose|k: int| 0 <= k < (head + tail).len() && (head + tail)[k] == COLON;
            if k < head.len() {
                assert(head[k] == COLON);
                assert(s[0] == ':');
            } else {
                assert(tail[k - head.len()] == COLON);
                let w = choose|w: int| 0 <= w < s.drop_first().len() && s.drop_first()[w] == ':';
                assert(s[w + 1] == ':');
            }
        }
        if s.contains(':') {
            let w = choose|w: int| 0 <= w < s.len() && s[w] == ':';
            if w == 0 {
                let k = choose|k: int| 0 <= k < head.len() && head[k] == COLON;
                assert((head + tail)[k] == COLON);
            } else {
                assert(s.drop_first()[w - 1] == ':');
                let k = choose|k: int| 0 <= k < tail.len() && tail[k] == COLON;
                assert((head + tail)[head.len() + k] == COLON);
            }
        }
    }
}

/// `String::from_utf8`: text exactly when the bytes are valid UTF-8, the
/// text they encode.
#[verifier::external_body]
fn string_from_utf8(bytes: Vec<u8>) -> (res: Option<String>)
    ensures
        res is Some <==> valid_utf8(bytes@),
        res matches Some(s) ==> s@ == decode_utf8(bytes@),
{
    match String::from_utf8(bytes) {
        Ok(s) => Some(s),
        Err(_) => None,
    }
}

/// The message for a write of `msg` under `key`; a key with a colon is refused.
pub fn to_bytes(key: &String, msg: &String) -> (res: Result<Vec<u8>, FormatError>)
    ensures
        key@.contains(':') ==> res == Err::<Vec<u8>, FormatError>(FormatError::InvalidKey),
        !key@.contains(':') ==> (res matches Ok(b) && b@ == message_bytes(key@, msg@)),
{
    let key_bytes = key.as_str().as_bytes();
    let mut i: usize = 0;
    while i < key_bytes.len()
        invariant
            i <= key_bytes@.len(),
            key_bytes@ == encode_utf8(key@),
            forall|j: int| 0 <= j < i ==> key_bytes@[j] != COLON,
        decreases key_bytes@.len() - i,
    {
        if key_bytes[i] == COLON {
            proof {
                lemma_colon_byte(key@);
                assert(key_bytes@[i as int] == COLON);
            }
            return Err(FormatError::InvalidKey);
        }
        i = i + 1;
    }
    proof {
        lemma_colon_byte(key@);
        assert(!encode_utf8(key@).contains(COLON)) by {
            if encode_utf8(key@).contains(COLON) {
                let k = choose|k: int| 0 <= k < key_bytes@.len() && key_bytes@[k] == COLON;
            }
        }
    }
    let mut bytes: Vec<u8> = Vec::new();
    bytes.extend_from_slice(key_bytes);
    bytes.push(COLON);
    bytes.extend_from_slice(msg.as_str().as_bytes());
    proof {
        assert(bytes@ =~= message_bytes(key@, msg@));
    }
    Ok(bytes)
}

/// Reads a table write: the key before the first colon, the value after it.
pub fn from_bytes(msg: Vec<u8>) -> (res: Result<(String, String), FormatError>)
    requires
        readable(msg@),
    ensures
        match parsed(msg@) {
            Ok((k, v)) => (res matches Ok((key, value)) && key@ == k && value@ == v),
            Err(e) => res == Err::<(String, String), FormatError>(e),
        },
{
    proof {
        lemma_first_colon(msg@);
    }
    let mut i: usize = 0;
    while i < msg.len()
        invariant
            i <= msg@.len(),
            readable(msg@),
            forall|j: int| 0 <= j < i ==> msg@[j] != COLON,
        decreases msg@.len() - i,
    {
        if msg[i] == COLON {
            proof {
                lemma_first_colon_at(msg@, i as int);
            }
            let key_bytes = vstd::slice::slice_to_vec(vstd::slice::slice_subrange(msg.as_slice(), 0, i));
            let value_bytes = vstd::slice::slice_to_vec(
                vstd::slice::slice_subrange(msg.as_slice(), i + 1, msg.len()),
            );
            let key = string_from_utf8(key_bytes);
            let value = string_from_utf8(value_bytes);
            match (key, value) {
                (Some(k), Some(v)) => {
                    return Ok((k, v));
                },
                _ => {
                    // both sides are valid UTF-8 by the precondition
                    assert(false);
                    return Err(FormatError::InvalidFormat);
                },
            }
        }
        i = i + 1;
    }
    Err(FormatError::InvalidFormat)
}

/// Whether a message can be read without failing: where it has a colon,
/// both of its sides must be valid UTF-8.
pub fn is_readable(msg: &Vec<u8>) -> (res: bool)
    ensures
        res == readable(msg@),
{
    proof {
        lemma_first_colon(msg@);
    }
    let mut i: usize = 0;
    while i < msg.len()
        invariant
            i <= msg@.len(),
            forall|j: int| 0 <= j < i ==> msg@[j] != COLON,
        decreases msg@.len() - i,
    {
        if msg[i] == COLON {
            proof {
                lemma_first_colon_at(msg@, i as int);
            }
            let key_bytes = vstd::slice::slice_to_vec(vstd::slice::slice_subrange(msg.as_slice(), 0, i));
            let value_bytes = vstd::slice::slice_to_vec(
                vstd::slice::slice_subrange(msg.as_slice(), i + 1, msg.len()),
            );
            let key = string_from_utf8(key_bytes);
            let value = string_from_utf8(value_bytes);
            return key.is_some() && value.is_some();
        }
        i = i + 1;
    }
    true
}

/// Law: a write whose key holds no colon is read back as the same key and value.
pub proof fn lemma_format_roundtrip(key: Seq<char>, msg: Seq<char>)
    requires
        !key.contains(':'),
    ensures
        readable(message_bytes(key, msg)),
        parsed(message_bytes(key, msg)) == Ok::<(Seq<char>, Seq<char>), FormatError>((key, msg)),
{
    let s = message_bytes(key, msg);
    let ek = encode_utf8(key);
    let em = encode_utf8(msg);
    lemma_colon_byte(key);
    assert forall|j: int| 0 <= j < ek.len() implies s[j] != COLON by {
        assert(s[j] == ek[j]);
        if ek[j] == COLON {
            assert(ek.contains(COLON));
        }
    }
    assert(s[ek.len() as int] == COLON);
    lemma_first_colon_at(s, ek.len() as int);
    assert(s.subrange(0, ek.len() as int) =~= ek);
    assert(s.subrange(ek.len() as int + 1, s.len() as int) =~= em);
    vstd::utf8::encode_utf8_valid_utf8(key);
    vstd::utf8::encode_utf8_valid_utf8(msg);
    vstd::utf8::encode_utf8_decode_utf8(key);
    vstd::utf8::encode_utf8_decode_utf8(msg);
}

} // verus!
