use pyany_serde::codec::Codec;
use pyany_serde::errors::{DecodeError, EncodeError};
use pyany_serde::init::InitStrategy;
use pyany_serde::value::{ArrayValue, ElementKind, Value};
use pyany_serde::wire;

#[test]
fn bool_two_slots() {
    let mut codec = Codec::Bool;
    let mut buf = vec![0u8; 2];
    let end1 = codec.append(&mut buf, 0, &Value::Bool(true)).unwrap();
    assert_eq!(end1, 1);
    let end2 = codec.append(&mut buf, 1, &Value::Bool(false)).unwrap();
    assert_eq!(end2, 2);
    assert_eq!(buf, vec![1u8, 0u8]);
    let (v1, o1) = codec.retrieve(&buf, 0).unwrap();
    assert!(matches!(v1, Value::Bool(true)));
    assert_eq!(o1, 1);
    let (v2, o2) = codec.retrieve(&buf, 1).unwrap();
    assert!(matches!(v2, Value::Bool(false)));
    assert_eq!(o2, 2);
}

#[test]
fn string_layout() {
    let mut codec = Codec::Str;
    let mut buf = vec![0u8; 10];
    let end = codec
        .append(&mut buf, 0, &Value::Str(b"ab".to_vec()))
        .unwrap();
    assert_eq!(end, 10);
    assert_eq!(buf, vec![2, 0, 0, 0, 0, 0, 0, 0, b'a', b'b']);
    let (v, o) = codec.retrieve(&buf, 0).unwrap();
    match v {
        Value::Str(s) => assert_eq!(s, b"ab".to_vec()),
        _ => panic!("wrong kind"),
    }
    assert_eq!(o, 10);
}

#[test]
fn int_advances_by_eight() {
    let mut buf = vec![0u8; 24];
    let end = wire::append_i64(&mut buf, 8, -5);
    assert_eq!(end, 16);
    let (x, o) = wire::retrieve_i64(&buf, 8).unwrap();
    assert_eq!(x, -5);
    assert_eq!(o, 16);
}

#[test]
fn int_codec_roundtrip() {
    let mut codec = Codec::Int;
    let mut buf = vec![0u8; 8];
    codec.append(&mut buf, 0, &Value::Int(-123456789)).unwrap();
    let (v, o) = codec.retrieve(&buf, 0).unwrap();
    assert!(matches!(v, Value::Int(-123456789)));
    assert_eq!(o, 8);
}

#[test]
fn complex_roundtrip() {
    let mut codec = Codec::Complex;
    let mut buf = vec![0u8; 16];
    codec
        .append(&mut buf, 0, &Value::Complex(7, 11))
        .unwrap();
    let (v, o) = codec.retrieve(&buf, 0).unwrap();
    assert!(matches!(v, Value::Complex(7, 11)));
    assert_eq!(o, 16);
}

#[test]
fn list_of_int_roundtrip() {
    let mut codec = Codec::List(Box::new(Codec::Int));
    let mut buf = vec![0u8; 64];
    let items = Value::List(vec![Value::Int(1), Value::Int(2), Value::Int(3)]);
    let end = codec.append(&mut buf, 0, &items).unwrap();
    assert_eq!(end, 8 + 24);
    let (v, o) = codec.retrieve(&buf, 0).unwrap();
    assert_eq!(o, end);
    match v {
        Value::List(vs) => {
            assert_eq!(vs.len(), 3);
            assert!(matches!(vs[0], Value::Int(1)));
            assert!(matches!(vs[1], Value::Int(2)));
            assert!(matches!(vs[2], Value::Int(3)));
        }
        _ => panic!("wrong kind"),
    }
}

#[test]
fn tuple_has_no_count_prefix() {
    let mut codec = Codec::Tuple(vec![Codec::Bool, Codec::Int]);
    let mut buf = vec![0u8; 9];
    let end = codec
        .append(
            &mut buf,
            0,
            &Value::Tuple(vec![Value::Bool(true), Value::Int(4)]),
        )
        .unwrap();
    assert_eq!(end, 9);
    assert_eq!(buf[0], 1);
    let (v, _) = codec.retrieve(&buf, 0).unwrap();
    match v {
        Value::Tuple(vs) => {
            assert!(matches!(vs[0], Value::Bool(true)));
            assert!(matches!(vs[1], Value::Int(4)));
        }
        _ => panic!("wrong kind"),
    }
}

#[test]
fn optional_roundtrip() {
    let mut codec = Codec::Optional(Box::new(Codec::Int));
    let mut buf = vec![0u8; 16];
    let end = codec.append(&mut buf, 0, &Value::Null).unwrap();
    assert_eq!(end, 1);
    assert_eq!(buf[0], 0);
    let (v, o) = codec.retrieve(&buf, 0).unwrap();
    assert!(matches!(v, Value::Null));
    assert_eq!(o, 1);
    let end2 = codec.append(&mut buf, 0, &Value::Int(9)).unwrap();
    assert_eq!(end2, 9);
    let (v2, _) = codec.retrieve(&buf, 0).unwrap();
    assert!(matches!(v2, Value::Int(9)));
}

#[test]
fn dict_roundtrip() {
    let mut codec = Codec::Dict(Box::new(Codec::Str), Box::new(Codec::Int));
    let mut buf = vec![0u8; 128];
    let value = Value::Dict(vec![
        (Value::Str(b"k1".to_vec()), Value::Int(10)),
        (Value::Str(b"k2".to_vec()), Value::Int(20)),
    ]);
    let end = codec.append(&mut buf, 0, &value).unwrap();
    let (v, o) = codec.retrieve(&buf, 0).unwrap();
    assert_eq!(o, end);
    match v {
        Value::Dict(ps) => {
            assert_eq!(ps.len(), 2);
            match (&ps[0].0, &ps[0].1) {
                (Value::Str(k), Value::Int(10)) => assert_eq!(k, &b"k1".to_vec()),
                _ => panic!("wrong entry"),
            }
            match (&ps[1].0, &ps[1].1) {
                (Value::Str(k), Value::Int(20)) => assert_eq!(k, &b"k2".to_vec()),
                _ => panic!("wrong entry"),
            }
        }
        _ => panic!("wrong kind"),
    }
}

#[test]
fn record_roundtrip() {
    let mut codec = Codec::Record {
        strategy: InitStrategy::All,
        fields: vec![(b"x".to_vec(), Codec::Int), (b"y".to_vec(), Codec::Bool)],
    };
    let mut buf = vec![0u8; 16];
    let value = Value::Record(vec![
        (b"x".to_vec(), Value::Int(3)),
        (b"y".to_vec(), Value::Bool(true)),
    ]);
    let end = codec.append(&mut buf, 0, &value).unwrap();
    assert_eq!(end, 9);
    let (v, _) = codec.retrieve(&buf, 0).unwrap();
    match v {
        Value::Record(fs) => {
            assert_eq!(fs[0].0, b"x".to_vec());
            assert!(matches!(fs[0].1, Value::Int(3)));
            assert_eq!(fs[1].0, b"y".to_vec());
            assert!(matches!(fs[1].1, Value::Bool(true)));
        }
        _ => panic!("wrong kind"),
    }
}

#[test]
fn init_strategy_partition_some() {
    let strategy = InitStrategy::Named(vec![b"x".to_vec()]);
    let names = vec![b"x".to_vec(), b"y".to_vec()];
    let (ctor, attr) = strategy.partition(&names).unwrap();
    // The constructor receives exactly the picked field; the other is set
    // by attribute assignment afterwards.
    assert_eq!(ctor, vec![0usize]);
    assert_eq!(attr, vec![1usize]);
}

#[test]
fn union_selector_out_of_range() {
    let codec = Codec::Union(vec![Codec::Int, Codec::Bool]);
    let mut buf = vec![0u8; 32];
    let r = codec.append_with_index(&mut buf, 0, &Value::Int(1), 2);
    assert_eq!(r, Err(EncodeError::BadIndex(2)));
    // Nothing was written before the rejection.
    assert_eq!(buf, vec![0u8; 32]);
}

#[test]
fn union_retrieve_bad_index() {
    let mut codec = Codec::Union(vec![Codec::Int, Codec::Bool]);
    let mut buf = vec![0u8; 16];
    wire::append_u64(&mut buf, 0, 5);
    let r = codec.retrieve(&buf, 0);
    assert_eq!(r.err(), Some(DecodeError::BadIndex(5)));
}

#[test]
fn union_first_match_roundtrip() {
    let mut codec = Codec::Union(vec![Codec::Int, Codec::Bool]);
    let mut buf = vec![0u8; 32];
    let end = codec.append(&mut buf, 0, &Value::Bool(true)).unwrap();
    // Index 1 is the first option accepting a boolean.
    let (idx, _) = wire::retrieve_u64(&buf, 0).unwrap();
    assert_eq!(idx, 1);
    let (v, o) = codec.retrieve(&buf, 0).unwrap();
    assert!(matches!(v, Value::Bool(true)));
    assert_eq!(o, end);
}

#[test]
fn dynamic_nested_roundtrip() {
    let mut codec = Codec::Dynamic;
    let mut buf = vec![0u8; 256];
    let value = Value::List(vec![
        Value::Int(1),
        Value::Str(b"hi".to_vec()),
        Value::List(vec![Value::Bool(true)]),
        Value::Opaque(vec![9, 9]),
    ]);
    let end = codec.append(&mut buf, 0, &value).unwrap();
    let (v, o) = codec.retrieve(&buf, 0).unwrap();
    assert_eq!(o, end);
    match v {
        Value::List(vs) => {
            assert_eq!(vs.len(), 4);
            assert!(matches!(vs[0], Value::Int(1)));
            match &vs[1] {
                Value::Str(s) => assert_eq!(s, &b"hi".to_vec()),
                _ => panic!("wrong kind"),
            }
            match &vs[2] {
                Value::List(inner) => assert!(matches!(inner[0], Value::Bool(true))),
                _ => panic!("wrong kind"),
            }
            match &vs[3] {
                Value::Opaque(p) => assert_eq!(p, &vec![9, 9]),
                _ => panic!("wrong kind"),
            }
        }
        _ => panic!("wrong kind"),
    }
}

#[test]
fn dynamic_rejects_record() {
    let codec = Codec::Dynamic;
    let mut buf = vec![0u8; 64];
    let r = codec.append(&mut buf, 0, &Value::Record(vec![]));
    assert_eq!(r, Err(EncodeError::Mismatch));
}

#[test]
fn array_dynamic_shape_roundtrip() {
    let mut codec = Codec::ArrayDyn(ElementKind::Float32);
    let mut buf = vec![0u8; 128];
    let value = Value::Array(ArrayValue {
        kind: ElementKind::Float32,
        shape: vec![2],
        data: vec![1, 2, 3, 4, 5, 6, 7, 8],
    });
    let end = codec.append(&mut buf, 0, &value).unwrap();
    let (v, o) = codec.retrieve(&buf, 0).unwrap();
    assert_eq!(o, end);
    match v {
        Value::Array(a) => {
            assert_eq!(a.kind, ElementKind::Float32);
            assert_eq!(a.shape, vec![2]);
            assert_eq!(a.data, vec![1, 2, 3, 4, 5, 6, 7, 8]);
        }
        _ => panic!("wrong kind"),
    }
}

#[test]
fn growable_append_matches_in_place_append() {
    let codec = Codec::List(Box::new(Codec::Str));
    let value = Value::List(vec![
        Value::Str(b"one".to_vec()),
        Value::Str(b"two".to_vec()),
    ]);
    let mut grown: Vec<u8> = Vec::new();
    codec.append_vec(&mut grown, &value).unwrap();
    let mut fixed = vec![0u8; grown.len()];
    let end = codec.append(&mut fixed, 0, &value).unwrap();
    assert_eq!(end, grown.len());
    assert_eq!(fixed, grown);
}

#[test]
fn growable_append_rejects_mismatch() {
    let codec = Codec::Int;
    let mut grown: Vec<u8> = vec![9, 9];
    let r = codec.append_vec(&mut grown, &Value::Bool(true));
    assert_eq!(r, Err(EncodeError::Mismatch));
    assert_eq!(grown, vec![9, 9]);
}

#[test]
fn empty_containers_roundtrip() {
    let mut list_codec = Codec::List(Box::new(Codec::Int));
    let mut buf = vec![0u8; 16];
    let end = list_codec.append(&mut buf, 0, &Value::List(vec![])).unwrap();
    assert_eq!(end, 8);
    let (v, o) = list_codec.retrieve(&buf, 0).unwrap();
    assert!(matches!(v, Value::List(vs) if vs.is_empty()));
    assert_eq!(o, 8);

    let mut dict_codec = Codec::Dict(Box::new(Codec::Str), Box::new(Codec::Int));
    let end2 = dict_codec.append(&mut buf, 0, &Value::Dict(vec![])).unwrap();
    assert_eq!(end2, 8);
    let (v2, _) = dict_codec.retrieve(&buf, 0).unwrap();
    assert!(matches!(v2, Value::Dict(ps) if ps.is_empty()));

    let mut tuple_codec = Codec::Tuple(vec![]);
    let end3 = tuple_codec.append(&mut buf, 3, &Value::Tuple(vec![])).unwrap();
    assert_eq!(end3, 3);
    let (v3, o3) = tuple_codec.retrieve(&buf, 3).unwrap();
    assert!(matches!(v3, Value::Tuple(vs) if vs.is_empty()));
    assert_eq!(o3, 3);
}

#[test]
fn set_codec_roundtrip() {
    let mut codec = Codec::SetOf(Box::new(Codec::Int));
    let mut buf = vec![0u8; 32];
    let end = codec
        .append(
            &mut buf,
            0,
            &Value::SetOf(vec![Value::Int(5), Value::Int(6)]),
        )
        .unwrap();
    let (v, o) = codec.retrieve(&buf, 0).unwrap();
    assert_eq!(o, end);
    match v {
        Value::SetOf(vs) => {
            assert_eq!(vs.len(), 2);
            assert!(matches!(vs[0], Value::Int(5)));
            assert!(matches!(vs[1], Value::Int(6)));
        }
        _ => panic!("wrong kind"),
    }
}

#[test]
fn typed_dict_roundtrip() {
    let mut codec = Codec::TypedDict(vec![
        (b"a".to_vec(), Codec::Int),
        (b"b".to_vec(), Codec::Bool),
    ]);
    let mut buf = vec![0u8; 16];
    let value = Value::Dict(vec![
        (Value::Str(b"a".to_vec()), Value::Int(1)),
        (Value::Str(b"b".to_vec()), Value::Bool(false)),
    ]);
    // Only the values travel: eight bytes of integer plus one flag byte.
    let end = codec.append(&mut buf, 0, &value).unwrap();
    assert_eq!(end, 9);
    let (v, _) = codec.retrieve(&buf, 0).unwrap();
    match v {
        Value::Dict(ps) => {
            assert!(matches!(&ps[0].0, Value::Str(k) if k == &b"a".to_vec()));
            assert!(matches!(ps[0].1, Value::Int(1)));
            assert!(matches!(&ps[1].0, Value::Str(k) if k == &b"b".to_vec()));
            assert!(matches!(ps[1].1, Value::Bool(false)));
        }
        _ => panic!("wrong kind"),
    }
}

#[test]
fn typed_dict_rejects_wrong_key() {
    let codec = Codec::TypedDict(vec![(b"a".to_vec(), Codec::Int)]);
    let mut buf = vec![0u8; 16];
    let value = Value::Dict(vec![(Value::Str(b"zzz".to_vec()), Value::Int(1))]);
    assert_eq!(codec.append(&mut buf, 0, &value), Err(EncodeError::Mismatch));
}

#[test]
fn bytes_and_pickle_roundtrip() {
    let mut bytes_codec = Codec::Bytes;
    let mut buf = vec![0u8; 32];
    let end = bytes_codec
        .append(&mut buf, 0, &Value::Bytes(vec![0, 255, 7]))
        .unwrap();
    let (v, _) = bytes_codec.retrieve(&buf, 0).unwrap();
    assert!(matches!(v, Value::Bytes(b) if b == vec![0, 255, 7]));
    assert_eq!(end, 11);

    let mut pickle_codec = Codec::Pickle;
    pickle_codec
        .append(&mut buf, 0, &Value::Opaque(vec![128, 4]))
        .unwrap();
    let (p, _) = pickle_codec.retrieve(&buf, 0).unwrap();
    assert!(matches!(p, Value::Opaque(b) if b == vec![128, 4]));
}

#[test]
fn float_codec_carries_bits_exactly() {
    let mut codec = Codec::Float;
    let mut buf = vec![0u8; 8];
    let bits: u64 = 0x400921FB54442D18;
    codec.append(&mut buf, 0, &Value::Float(bits)).unwrap();
    let (v, _) = codec.retrieve(&buf, 0).unwrap();
    assert!(matches!(v, Value::Float(b) if b == bits));
}

#[test]
fn dynamic_covers_every_container_kind() {
    let mut codec = Codec::Dynamic;
    let mut buf = vec![0u8; 512];
    let value = Value::Dict(vec![
        (
            Value::Str(b"k".to_vec()),
            Value::Tuple(vec![Value::SetOf(vec![Value::Int(1)]), Value::Float(3)]),
        ),
        (
            Value::Int(2),
            Value::Array(ArrayValue {
                kind: ElementKind::Uint16,
                shape: vec![1, 2],
                data: vec![1, 0, 2, 0],
            }),
        ),
    ]);
    let end = codec.append(&mut buf, 0, &value).unwrap();
    let (v, o) = codec.retrieve(&buf, 0).unwrap();
    assert_eq!(o, end);
    match v {
        Value::Dict(ps) => {
            assert_eq!(ps.len(), 2);
            match &ps[0].1 {
                Value::Tuple(ts) => {
                    assert!(matches!(&ts[0], Value::SetOf(ss) if ss.len() == 1));
                    assert!(matches!(ts[1], Value::Float(3)));
                }
                _ => panic!("wrong kind"),
            }
            match &ps[1].1 {
                Value::Array(a) => {
                    assert_eq!(a.kind, ElementKind::Uint16);
                    assert_eq!(a.shape, vec![1, 2]);
                    assert_eq!(a.data, vec![1, 0, 2, 0]);
                }
                _ => panic!("wrong kind"),
            }
        }
        _ => panic!("wrong kind"),
    }
}
