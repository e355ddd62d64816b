use pyany_serde::codec::Codec;
use pyany_serde::descriptor::{check_for_unpickling, ArrayConfig, CodecDescriptor};
use pyany_serde::errors::{ConstructionError, DecodeError, SecurityAbort};
use pyany_serde::init::InitStrategy;
use pyany_serde::value::{ElementKind, Value};

#[test]
fn descriptor_roundtrip_composite() {
    let d = CodecDescriptor::Dict(
        Box::new(CodecDescriptor::Str),
        Box::new(CodecDescriptor::Optional(Box::new(CodecDescriptor::Int))),
    );
    let state = d.serialize();
    let back = CodecDescriptor::deserialize(&state).unwrap();
    match back {
        CodecDescriptor::Dict(k, v) => {
            assert!(matches!(*k, CodecDescriptor::Str));
            match *v {
                CodecDescriptor::Optional(inner) => {
                    assert!(matches!(*inner, CodecDescriptor::Int))
                }
                _ => panic!("wrong value descriptor"),
            }
        }
        _ => panic!("wrong descriptor"),
    }
}

#[test]
fn descriptor_roundtrip_builds_identical_codec() {
    let d = CodecDescriptor::Tuple(vec![
        CodecDescriptor::Bool,
        CodecDescriptor::List(Box::new(CodecDescriptor::Int)),
    ]);
    let state = d.serialize();
    let back = CodecDescriptor::deserialize(&state).unwrap();
    let mut c1 = d.build().unwrap();
    let mut c2 = back.build().unwrap();
    // Behavioral identity: the same value encodes to the same bytes and
    // decodes back under either codec.
    let value = Value::Tuple(vec![
        Value::Bool(true),
        Value::List(vec![Value::Int(6), Value::Int(7)]),
    ]);
    let mut b1 = vec![0u8; 64];
    let mut b2 = vec![0u8; 64];
    let e1 = c1.append(&mut b1, 0, &value).unwrap();
    let e2 = c2.append(&mut b2, 0, &value).unwrap();
    assert_eq!(e1, e2);
    assert_eq!(b1, b2);
    let (v1, _) = c1.retrieve(&b2, 0).unwrap();
    let (v2, _) = c2.retrieve(&b1, 0).unwrap();
    assert!(matches!(v1, Value::Tuple(_)));
    assert!(matches!(v2, Value::Tuple(_)));
}

#[test]
fn descriptor_roundtrip_with_embedded() {
    let d = CodecDescriptor::Union {
        options: vec![CodecDescriptor::Int, CodecDescriptor::Str],
        selector_pkl: vec![0xAA, 0xBB],
    };
    let state = d.serialize();
    let back = CodecDescriptor::deserialize(&state).unwrap();
    match back {
        CodecDescriptor::Union {
            options,
            selector_pkl,
        } => {
            assert_eq!(options.len(), 2);
            assert!(matches!(options[0], CodecDescriptor::Int));
            assert!(matches!(options[1], CodecDescriptor::Str));
            assert_eq!(selector_pkl, vec![0xAA, 0xBB]);
        }
        _ => panic!("wrong descriptor"),
    }
}

#[test]
fn descriptor_roundtrip_array_fixed() {
    let d = CodecDescriptor::Array {
        kind: ElementKind::Float64,
        config: ArrayConfig::Fixed {
            pre_pkl: None,
            post_pkl: Some(vec![1, 2, 3]),
            shape: vec![2, 3],
            pool_min: 1,
            pool_max: Some(4),
        },
    };
    let state = d.serialize();
    let back = CodecDescriptor::deserialize(&state).unwrap();
    match back {
        CodecDescriptor::Array { kind, config } => {
            assert_eq!(kind, ElementKind::Float64);
            match config {
                ArrayConfig::Fixed {
                    pre_pkl,
                    post_pkl,
                    shape,
                    pool_min,
                    pool_max,
                } => {
                    assert_eq!(pre_pkl, None);
                    assert_eq!(post_pkl, Some(vec![1, 2, 3]));
                    assert_eq!(shape, vec![2, 3]);
                    assert_eq!(pool_min, 1);
                    assert_eq!(pool_max, Some(4));
                }
                _ => panic!("wrong config"),
            }
        }
        _ => panic!("wrong descriptor"),
    }
}

#[test]
fn descriptor_roundtrip_dataclass() {
    let d = CodecDescriptor::Dataclass {
        class_pkl: vec![7, 7, 7],
        strategy: InitStrategy::Named(vec![b"x".to_vec()]),
        fields: vec![
            (b"x".to_vec(), CodecDescriptor::Int),
            (b"y".to_vec(), CodecDescriptor::Bool),
        ],
    };
    let state = d.serialize();
    let back = CodecDescriptor::deserialize(&state).unwrap();
    match back {
        CodecDescriptor::Dataclass {
            class_pkl,
            strategy,
            fields,
        } => {
            assert_eq!(class_pkl, vec![7, 7, 7]);
            match strategy {
                InitStrategy::Named(kwargs) => assert_eq!(kwargs, vec![b"x".to_vec()]),
                _ => panic!("wrong strategy"),
            }
            assert_eq!(fields.len(), 2);
            assert_eq!(fields[0].0, b"x".to_vec());
            assert!(matches!(fields[0].1, CodecDescriptor::Int));
            assert_eq!(fields[1].0, b"y".to_vec());
            assert!(matches!(fields[1].1, CodecDescriptor::Bool));
        }
        _ => panic!("wrong descriptor"),
    }
}

#[test]
fn deserialize_rejects_unknown_tag() {
    let state = vec![42u8];
    let r = CodecDescriptor::deserialize(&state);
    assert_eq!(r.err(), Some(DecodeError::BadTag(42)));
}

#[test]
fn build_rejects_unknown_strategy_field() {
    let d = CodecDescriptor::Dataclass {
        class_pkl: vec![],
        strategy: InitStrategy::Named(vec![b"missing".to_vec()]),
        fields: vec![(b"x".to_vec(), CodecDescriptor::Int)],
    };
    assert_eq!(d.build().err(), Some(ConstructionError::UnknownField));
}

#[test]
fn build_rejects_pool_minimum_above_maximum() {
    let d = CodecDescriptor::Array {
        kind: ElementKind::Int8,
        config: ArrayConfig::Fixed {
            pre_pkl: None,
            post_pkl: None,
            shape: vec![2],
            pool_min: 3,
            pool_max: Some(1),
        },
    };
    assert_eq!(d.build().err(), Some(ConstructionError::PoolBounds));
}

#[test]
fn build_refuses_external_delegate() {
    let d = CodecDescriptor::External {
        serde_pkl: vec![1, 2],
    };
    assert_eq!(d.build().err(), Some(ConstructionError::HostOnly));
}

#[test]
fn built_dynamic_codec_works() {
    let d = CodecDescriptor::Dynamic;
    let mut c = d.build().unwrap();
    assert!(matches!(c, Codec::Dynamic));
    let mut buf = vec![0u8; 32];
    let end = c.append(&mut buf, 0, &Value::Int(5)).unwrap();
    let (v, o) = c.retrieve(&buf, 0).unwrap();
    assert!(matches!(v, Value::Int(5)));
    assert_eq!(o, end);
}

#[test]
fn security_gate_blocks_embedded() {
    let with_closure = CodecDescriptor::Union {
        options: vec![CodecDescriptor::Int],
        selector_pkl: vec![1],
    };
    let plain = CodecDescriptor::List(Box::new(CodecDescriptor::Int));
    assert!(with_closure.contains_embedded());
    assert!(!plain.contains_embedded());
    assert_eq!(
        check_for_unpickling(&with_closure, false, false),
        Err(SecurityAbort::Declined)
    );
    assert_eq!(check_for_unpickling(&with_closure, true, false), Ok(()));
    assert_eq!(check_for_unpickling(&with_closure, false, true), Ok(()));
    assert_eq!(check_for_unpickling(&plain, false, false), Ok(()));
}

#[test]
fn embedded_scan_reaches_nested_processors() {
    let d = CodecDescriptor::List(Box::new(CodecDescriptor::Array {
        kind: ElementKind::Int32,
        config: ArrayConfig::Dynamic {
            pre_pkl: Some(vec![5]),
            post_pkl: None,
        },
    }));
    assert!(d.contains_embedded());
}

#[test]
fn build_rejects_oversized_frame() {
    let d = CodecDescriptor::Array {
        kind: ElementKind::Float64,
        config: ArrayConfig::Fixed {
            pre_pkl: None,
            post_pkl: None,
            shape: vec![usize::MAX, 2],
            pool_min: 0,
            pool_max: None,
        },
    };
    assert_eq!(d.build().err(), Some(ConstructionError::FrameOverflow));
}
