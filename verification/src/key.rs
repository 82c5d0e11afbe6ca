//! The key codec of objects.
//!
//! An object binds integer keys and string keys in one space of encoded keys.
//! A string key is encoded as the sigil `$` followed by the string, an integer
//! key as its canonical decimal text.
use crate::text::{
    decimal_string, decimal_text, lemma_decimal_text_first, lemma_parse_decimal_text,
    parse_decimal, parse_i64, push_char,
};
use crate::types::{QType, Value};
use vstd::prelude::*;
use vstd::string::StringExecFns;

verus! {

/// The sigil that marks an encoded string key.
pub const SIGIL: char = '$';

/// The encoded key starts with the sigil.
pub open spec fn has_sigil(k: Seq<char>) -> bool {
    k.len() > 0 && k[0] == SIGIL
}

/// The encoded form of a logical key. Only an integer and a string are keys.
pub open spec fn encode_key(v: Value) -> Option<Seq<char>> {
    match v {
        Value::Int(i) => Some(decimal_text(i as int)),
        Value::Str(s) => Some(seq![SIGIL] + s),
        _ => None,
    }
}

/// The logical key that an encoded key stands for: the string after the
/// sigil, or the integer that the text reads as. A key that has no sigil and
/// does not read as a 64-bit signed integer stands for nothing.
pub open spec fn decode_key(k: Seq<char>) -> Option<Value> {
    if has_sigil(k) {
        Some(Value::Str(k.subrange(1, k.len() as int)))
    } else {
        match parse_i64(k) {
            Some(i) => Some(Value::Int(i)),
            None => None,
        }
    }
}

/// Decoding the encoded form of an integer key gives the key back.
pub proof fn lemma_decode_encode_int(i: i64)
    ensures
        decode_key(encode_key(Value::Int(i)).unwrap()) == Some(Value::Int(i)),
{
    lemma_decimal_text_first(i as int);
    lemma_parse_decimal_text(i as int);
}

/// Decoding the encoded form of a string key gives the key back.
pub proof fn lemma_decode_encode_str(s: Seq<char>)
    ensures
        decode_key(encode_key(Value::Str(s)).unwrap()) == Some(Value::Str(s)),
{
    let k = seq![SIGIL] + s;
    assert(k[0] == SIGIL);
    assert(k.subrange(1, k.len() as int) =~= s);
}

/// Two logical keys with the same encoded form are the same key.
pub proof fn lemma_encode_injective(a: Value, b: Value)
    requires
        encode_key(a) is Some,
        encode_key(a) == encode_key(b),
    ensures
        a == b,
{
    match a {
        Value::Int(i) => lemma_decode_encode_int(i),
        Value::Str(s) => lemma_decode_encode_str(s),
        _ => {},
    }
    match b {
        Value::Int(i) => lemma_decode_encode_int(i),
        Value::Str(s) => lemma_decode_encode_str(s),
        _ => {},
    }
}

/// Encodes a logical key.
pub fn to_qobj_key(k: QType) -> (r: String)
    requires
        k is Int || k is Str,
    ensures
        Some(r@) == encode_key(k@),
{
    match k {
        QType::Int(i) => decimal_string(i),
        QType::Str(s) => {
            let mut out = String::new();
            push_char(&mut out, SIGIL);
            out.append(s.as_str());
            assert(out@ =~= seq![SIGIL] + s@);
            out
        },
        _ => String::new(),
    }
}

/// Decodes an encoded key, or finds that it stands for nothing.
pub fn decode(k: &str) -> (r: Option<QType>)
    ensures
        match r {
            Some(v) => decode_key(k@) == Some(v@),
            None => decode_key(k@) is None,
        },
{
    if !k.is_empty() && k.get_char(0) == SIGIL {
        let n = k.unicode_len();
        let rest = k.substring_char(1, n);
        Some(QType::Str(String::from_str(rest)))
    } else {
        match parse_decimal(k) {
            Some(i) => Some(QType::Int(i)),
            None => None,
        }
    }
}

/// Decodes an encoded key.
pub fn from_qobj_key(k: String) -> (r: QType)
    requires
        decode_key(k@) is Some,
    ensures
        decode_key(k@) == Some(r@),
{
    match decode(k.as_str()) {
        Some(v) => v,
        None => QType::Error,
    }
}

} // verus!
