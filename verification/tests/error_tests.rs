use pyany_serde::codec::Codec;
use pyany_serde::errors::{DecodeError, EncodeError};
use pyany_serde::value::Value;
use pyany_serde::wire;

#[test]
fn too_short_word() {
    let buf = vec![0u8; 4];
    assert_eq!(wire::retrieve_u64(&buf, 0).err(), Some(DecodeError::TooShort));
}

#[test]
fn invalid_boolean_tag() {
    let buf = vec![7u8];
    assert_eq!(wire::retrieve_bool(&buf, 0).err(), Some(DecodeError::BadBool(7)));
}

#[test]
fn invalid_utf8_string() {
    let mut codec = Codec::Str;
    let mut buf = vec![0u8; 16];
    wire::append_bytes(&mut buf, 0, &[0xFF, 0xFE]);
    assert_eq!(codec.retrieve(&buf, 0).err(), Some(DecodeError::BadUtf8));
}

#[test]
fn unrecognized_dynamic_tag() {
    let mut codec = Codec::Dynamic;
    let buf = vec![99u8, 0, 0];
    assert_eq!(codec.retrieve(&buf, 0).err(), Some(DecodeError::BadTag(99)));
}

#[test]
fn length_prefix_beyond_buffer() {
    let mut codec = Codec::Bytes;
    let mut buf = vec![0u8; 12];
    wire::append_u64(&mut buf, 0, 100);
    assert_eq!(codec.retrieve(&buf, 0).err(), Some(DecodeError::TooShort));
}

#[test]
fn mismatched_value_is_rejected() {
    let codec = Codec::Bool;
    let mut buf = vec![0u8; 16];
    let r = codec.append(&mut buf, 0, &Value::Int(1));
    assert_eq!(r, Err(EncodeError::Mismatch));
    assert_eq!(buf, vec![0u8; 16]);
}

#[test]
fn tuple_arity_mismatch_is_rejected() {
    let codec = Codec::Tuple(vec![Codec::Int, Codec::Int]);
    let mut buf = vec![0u8; 32];
    let r = codec.append(&mut buf, 0, &Value::Tuple(vec![Value::Int(1)]));
    assert_eq!(r, Err(EncodeError::Mismatch));
}

#[test]
fn utf8_validation_on_append() {
    let codec = Codec::Str;
    let mut buf = vec![0u8; 16];
    let r = codec.append(&mut buf, 0, &Value::Str(vec![0xC0, 0x80]));
    assert_eq!(r, Err(EncodeError::Mismatch));
    let ok = codec.append(&mut buf, 0, &Value::Str(vec![0xC3, 0xA9]));
    assert!(ok.is_ok());
}

#[test]
fn alignment_padding_layout() {
    // A float64 payload at offset 1 is padded out to the next 8-byte
    // boundary before its length prefix.
    assert_eq!(wire::bytes_to_alignment(1, 8), 7);
    assert_eq!(wire::bytes_to_alignment(8, 8), 0);
    assert_eq!(wire::bytes_to_alignment(10, 4), 2);
    assert_eq!(wire::bytes_to_alignment(3, 1), 0);
}
