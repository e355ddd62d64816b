use pyany_serde::codec::Codec;
use pyany_serde::errors::DecodeError;
use pyany_serde::pool::AllocationPool;
use pyany_serde::tag::{detect_type, TypeTag};
use pyany_serde::value::{ArrayValue, ElementKind, Value};
use pyany_serde::wire;

#[test]
fn pool_max_is_a_hard_cap() {
    // Pool max 1: a decode while the first buffer is still held must hand
    // out fresh storage and skip the push that would exceed the cap.
    let mut pool = AllocationPool::new(4, 1, Some(1)).unwrap();
    assert_eq!(pool.size(), 1);
    let first = pool.acquire_at(0, 0, &vec![1, 2, 3, 4]);
    assert_eq!(first, vec![1, 2, 3, 4]);
    assert!(pool.is_held(0));
    // Neither candidate is free now; the pool already stands at its max.
    let second = pool.acquire_at(0, 0, &vec![5, 6, 7, 8]);
    assert_eq!(second, vec![5, 6, 7, 8]);
    assert_eq!(pool.size(), 1);
}

#[test]
fn pool_reuses_released_buffer() {
    let mut pool = AllocationPool::new(2, 1, Some(2)).unwrap();
    let _a = pool.acquire_at(0, 0, &vec![1, 1]);
    assert!(pool.is_held(0));
    pool.release(0);
    assert!(!pool.is_held(0));
    let b = pool.acquire_at(0, 0, &vec![2, 2]);
    assert_eq!(b, vec![2, 2]);
    assert_eq!(pool.size(), 1);
}

#[test]
fn pool_grows_up_to_max() {
    let mut pool = AllocationPool::new(2, 1, Some(3)).unwrap();
    let _a = pool.acquire_at(0, 0, &vec![1, 1]);
    let _b = pool.acquire_at(0, 0, &vec![2, 2]);
    assert_eq!(pool.size(), 2);
    let _c = pool.acquire_at(0, 1, &vec![3, 3]);
    assert_eq!(pool.size(), 3);
    let _d = pool.acquire_at(1, 2, &vec![4, 4]);
    assert_eq!(pool.size(), 3);
}

#[test]
fn pool_evicts_above_minimum() {
    let mut pool = AllocationPool::new(2, 1, None).unwrap();
    let _a = pool.acquire_at(0, 0, &vec![1, 1]);
    let _b = pool.acquire_at(0, 0, &vec![2, 2]);
    assert_eq!(pool.size(), 2);
    pool.release(0);
    pool.release(1);
    // Both candidates free and the pool stands above its minimum: one is
    // reused and the other evicted.
    let c = pool.acquire_at(0, 1, &vec![3, 3]);
    assert_eq!(c, vec![3, 3]);
    assert_eq!(pool.size(), 1);
}

#[test]
fn fixed_array_codec_roundtrip() {
    let pool = AllocationPool::new(8, 2, Some(4)).unwrap();
    let mut codec = Codec::ArrayFixed {
        kind: ElementKind::Float32,
        shape: vec![2],
        pool,
    };
    let mut buf = vec![0u8; 64];
    let value = Value::Array(ArrayValue {
        kind: ElementKind::Float32,
        shape: vec![2],
        data: vec![8, 7, 6, 5, 4, 3, 2, 1],
    });
    let end = codec.append(&mut buf, 0, &value).unwrap();
    let (v, o) = codec.retrieve(&buf, 0).unwrap();
    assert_eq!(o, end);
    match v {
        Value::Array(a) => {
            assert_eq!(a.kind, ElementKind::Float32);
            assert_eq!(a.shape, vec![2]);
            assert_eq!(a.data, vec![8, 7, 6, 5, 4, 3, 2, 1]);
        }
        _ => panic!("wrong kind"),
    }
}

#[test]
fn fixed_array_codec_rejects_bad_payload() {
    let pool = AllocationPool::new(8, 1, None).unwrap();
    let mut codec = Codec::ArrayFixed {
        kind: ElementKind::Float32,
        shape: vec![2],
        pool,
    };
    // A four-byte payload cannot fill a two-element float32 frame.
    let mut buf = vec![0u8; 32];
    wire::append_bytes(&mut buf, 0, &[1, 2, 3, 4]);
    let r = codec.retrieve(&buf, 0);
    assert_eq!(r.err(), Some(DecodeError::BadShape));
}

#[test]
fn python_test_detect_python_type_numpy() {
    let arr = |kind: ElementKind, data: Vec<u8>| {
        Value::Array(ArrayValue {
            kind,
            shape: vec![2],
            data,
        })
    };
    let arr_i8 = arr(ElementKind::Int8, vec![1, 2]);
    let arr_u8 = arr(ElementKind::Uint8, vec![1, 2]);
    let arr_i16 = arr(ElementKind::Int16, vec![1, 0, 2, 0]);
    let arr_f32 = arr(ElementKind::Float32, vec![0; 8]);
    let arr_f64 = arr(ElementKind::Float64, vec![0; 16]);
    assert_eq!(TypeTag::Array(ElementKind::Int8), detect_type(&arr_i8));
    assert_eq!(TypeTag::Array(ElementKind::Uint8), detect_type(&arr_u8));
    assert_eq!(TypeTag::Array(ElementKind::Int16), detect_type(&arr_i16));
    assert_eq!(TypeTag::Array(ElementKind::Float32), detect_type(&arr_f32));
    assert_eq!(TypeTag::Array(ElementKind::Float64), detect_type(&arr_f64));
}

#[test]
fn detect_catch_all() {
    assert_eq!(TypeTag::Other, detect_type(&Value::Null));
    assert_eq!(TypeTag::Other, detect_type(&Value::Record(vec![])));
    assert_eq!(TypeTag::Other, detect_type(&Value::Opaque(vec![1])));
    assert_eq!(TypeTag::Bool, detect_type(&Value::Bool(false)));
    assert_eq!(TypeTag::Dict, detect_type(&Value::Dict(vec![])));
}
