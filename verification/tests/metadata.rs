use rsllm::gguf::error::Error;
use rsllm::gguf::metadata::{Array, Metadata, Value, ValueType};
use rsllm::gguf::reader::Reader;

/// Build a length-prefixed string blob: 8-byte LE length + raw bytes.
fn pack_str(s: &str) -> Vec<u8> {
    let mut out = (s.len() as u64).to_le_bytes().to_vec();
    out.extend_from_slice(s.as_bytes());
    out
}

/// Encode a single KV entry: key string + value type u32 + value bytes.
fn pack_kv(key: &str, value_type: u32, value_bytes: &[u8]) -> Vec<u8> {
    let mut out = pack_str(key);
    out.extend_from_slice(&value_type.to_le_bytes());
    out.extend_from_slice(value_bytes);
    out
}

#[test]
fn value_type_roundtrip() {
    for raw in 0u32..=12 {
        let ty = ValueType::from_u32(raw).unwrap();
        assert_eq!(ty as u32, raw);
    }
}

#[test]
fn unknown_value_type_errors() {
    assert!(matches!(
        ValueType::from_u32(99),
        Err(Error::UnknownValueType(99))
    ));
}

#[test]
fn scalar_size_lookup() {
    assert_eq!(ValueType::U8.scalar_size(), Some(1));
    assert_eq!(ValueType::Bool.scalar_size(), Some(1));
    assert_eq!(ValueType::U32.scalar_size(), Some(4));
    assert_eq!(ValueType::F32.scalar_size(), Some(4));
    assert_eq!(ValueType::U64.scalar_size(), Some(8));
    assert_eq!(ValueType::F64.scalar_size(), Some(8));
    assert_eq!(ValueType::String.scalar_size(), None);
    assert_eq!(ValueType::Array.scalar_size(), None);
}

#[test]
fn parse_single_u32_kv() {
    // 1 entry: key "answer", type u32 (=4), value 42
    let mut data = pack_kv("answer", 4, &42u32.to_le_bytes());
    // n_kv read separately by caller, so we just exercise Metadata::parse
    // directly. Prepend nothing.
    let mut reader = Reader::new(&data);
    let md = Metadata::parse(&mut reader, 1).unwrap();
    assert_eq!(md.len(), 1);
    assert_eq!(md.get_u32("answer"), Some(42));
    // Force `data` to live long enough for the borrow.
    let _ = &mut data;
}

#[test]
fn parse_string_kv() {
    let mut data = pack_kv("general.name", 8, &pack_str("Llama 3.1"));
    let mut reader = Reader::new(&data);
    let md = Metadata::parse(&mut reader, 1).unwrap();
    assert_eq!(md.get_str("general.name"), Some("Llama 3.1"));
    let _ = &mut data;
}

#[test]
fn parse_bool_kv() {
    let data = pack_kv("tokenizer.add_bos", 7, &[1u8]);
    let mut reader = Reader::new(&data);
    let md = Metadata::parse(&mut reader, 1).unwrap();
    assert_eq!(md.get_bool("tokenizer.add_bos"), Some(true));
}

#[test]
fn parse_f32_kv() {
    let data = pack_kv("rope.freq_base", 6, &500_000.0f32.to_le_bytes());
    let mut reader = Reader::new(&data);
    let md = Metadata::parse(&mut reader, 1).unwrap();
    assert_eq!(md.get_f32("rope.freq_base").map(f32::from_bits), Some(500_000.0));
}

#[test]
fn parse_array_of_u32() {
    // value_type = Array (9); inner_type = U32 (4); len = 3; [1, 2, 3]
    let mut value_bytes = 4u32.to_le_bytes().to_vec(); // inner type U32
    value_bytes.extend_from_slice(&3u64.to_le_bytes()); // length 3
    value_bytes.extend_from_slice(&1u32.to_le_bytes());
    value_bytes.extend_from_slice(&2u32.to_le_bytes());
    value_bytes.extend_from_slice(&3u32.to_le_bytes());
    let data = pack_kv("test.arr", 9, &value_bytes);

    let mut reader = Reader::new(&data);
    let md = Metadata::parse(&mut reader, 1).unwrap();
    match md.get("test.arr").unwrap() {
        Value::Array(Array::U32(v)) => assert_eq!(v, &[1, 2, 3]),
        other => panic!("expected U32 array, got {other:?}"),
    }
}

#[test]
fn parse_array_of_strings_for_tokenizer() {
    // Three vocab entries, like a tokenizer vocabulary fragment.
    // value_type = Array (9); inner_type = String (8); len = 3
    let mut value_bytes = 8u32.to_le_bytes().to_vec();
    value_bytes.extend_from_slice(&3u64.to_le_bytes());
    value_bytes.extend(pack_str("<|begin_of_text|>"));
    value_bytes.extend(pack_str("hello"));
    value_bytes.extend(pack_str("world"));
    let data = pack_kv("tokenizer.ggml.tokens", 9, &value_bytes);

    let mut reader = Reader::new(&data);
    let md = Metadata::parse(&mut reader, 1).unwrap();
    match md.get("tokenizer.ggml.tokens").unwrap() {
        Value::Array(Array::String(v)) => {
            assert_eq!(v.len(), 3);
            assert_eq!(v[0], "<|begin_of_text|>");
            assert_eq!(v[1], "hello");
            assert_eq!(v[2], "world");
        }
        other => panic!("expected String array, got {other:?}"),
    }
}

#[test]
fn unknown_value_type_in_kv_errors() {
    // value_type = 99 (unknown)
    let mut data = pack_str("bad.key");
    data.extend_from_slice(&99u32.to_le_bytes());
    let mut reader = Reader::new(&data);
    match Metadata::parse(&mut reader, 1) {
        Err(Error::UnknownValueType(99)) => {}
        other => panic!("expected UnknownValueType(99), got {other:?}"),
    }
}

#[test]
fn deeply_nested_arrays_rejected() {
    // Build an array nested 10 deep — exceeds MAX_ARRAY_DEPTH = 8.
    // Each level: u32 inner_type=Array (9), u64 length=1.
    let mut value_bytes: Vec<u8> = Vec::new();
    for _ in 0..10 {
        value_bytes.extend_from_slice(&9u32.to_le_bytes()); // inner = Array
        value_bytes.extend_from_slice(&1u64.to_le_bytes()); // length 1
    }
    // Innermost: an empty U32 array
    value_bytes.extend_from_slice(&4u32.to_le_bytes());
    value_bytes.extend_from_slice(&0u64.to_le_bytes());

    let data = pack_kv("deep.array", 9, &value_bytes);
    let mut reader = Reader::new(&data);
    match Metadata::parse(&mut reader, 1) {
        Err(Error::NestingTooDeep) => {}
        other => panic!("expected NestingTooDeep, got {other:?}"),
    }
}

#[test]
fn convenience_getters_widen_unsigned() {
    // Stored as u16, asked as u32 — should widen.
    let data = pack_kv("small.value", 2, &(7u16).to_le_bytes());
    let mut reader = Reader::new(&data);
    let md = Metadata::parse(&mut reader, 1).unwrap();
    assert_eq!(md.get_u32("small.value"), Some(7));
    assert_eq!(md.get_u64("small.value"), Some(7));
}

#[test]
fn missing_key_returns_none() {
    let md = Metadata::new();
    assert!(md.get("nonexistent").is_none());
    assert_eq!(md.get_u32("nonexistent"), None);
}

fn nested(levels: usize) -> Vec<u8> {
    let mut value_bytes: Vec<u8> = Vec::new();
    for _ in 1..levels {
        value_bytes.extend_from_slice(&9u32.to_le_bytes());
        value_bytes.extend_from_slice(&1u64.to_le_bytes());
    }
    value_bytes.extend_from_slice(&4u32.to_le_bytes());
    value_bytes.extend_from_slice(&0u64.to_le_bytes());
    pack_kv("deep.array", 9, &value_bytes)
}

#[test]
fn eight_levels_of_arrays_are_accepted() {
    let data = nested(8);
    let mut reader = Reader::new(&data);
    assert!(Metadata::parse(&mut reader, 1).is_ok());
    let data = nested(9);
    let mut reader = Reader::new(&data);
    assert_eq!(Metadata::parse(&mut reader, 1), Err(Error::NestingTooDeep));
}

#[test]
fn a_length_that_does_not_fit_is_refused() {
    let mut value_bytes = 10u32.to_le_bytes().to_vec();
    value_bytes.extend_from_slice(&u64::MAX.to_le_bytes());
    let data = pack_kv("k", 9, &value_bytes);
    let mut reader = Reader::new(&data);
    assert!(matches!(
        Metadata::parse(&mut reader, 1),
        Err(Error::ArrayTooLarge { .. })
    ));
}

#[test]
fn a_later_value_replaces_an_earlier_one() {
    let mut data = pack_kv("b", 4, &1u32.to_le_bytes());
    data.extend(pack_kv("a", 4, &2u32.to_le_bytes()));
    data.extend(pack_kv("b", 4, &3u32.to_le_bytes()));
    let mut reader = Reader::new(&data);
    let md = Metadata::parse(&mut reader, 3).unwrap();
    assert_eq!(md.keys(), vec!["a", "b"]);
    assert_eq!(md.get_u32("b"), Some(3));
    assert_eq!(md.iter().len(), 2);
    assert!(!md.is_empty());
}

#[test]
fn getters_refuse_other_types() {
    let mut data = pack_kv("neg", 5, &(-1i32).to_le_bytes());
    data.extend(pack_kv("big", 10, &u64::MAX.to_le_bytes()));
    data.extend(pack_kv("text", 8, &pack_str("x")));
    data.extend(pack_kv("flag", 7, &[0]));
    let mut reader = Reader::new(&data);
    let md = Metadata::parse(&mut reader, 4).unwrap();
    assert_eq!(md.get_u32("neg"), None);
    assert_eq!(md.get_u32("big"), None);
    assert_eq!(md.get_u64("big"), Some(u64::MAX));
    assert_eq!(md.get_str("flag"), None);
    assert_eq!(md.get_bool("flag"), Some(false));
    assert_eq!(md.get_f32("text"), None);
    assert_eq!(md.get("text").unwrap().ty(), ValueType::String);
}

#[test]
fn arrays_tell_their_type_and_length() {
    let mut value_bytes = 7u32.to_le_bytes().to_vec();
    value_bytes.extend_from_slice(&2u64.to_le_bytes());
    value_bytes.extend_from_slice(&[1, 0]);
    let data = pack_kv("k", 9, &value_bytes);
    let mut reader = Reader::new(&data);
    let md = Metadata::parse(&mut reader, 1).unwrap();
    match md.get("k").unwrap() {
        Value::Array(a) => {
            assert_eq!(a.item_type(), ValueType::Bool);
            assert_eq!(a.len(), 2);
            assert!(!a.is_empty());
        }
        other => panic!("expected an array, got {other:?}"),
    }
}

#[test]
fn fractions_are_equal_by_value() {
    let single = |x: f32| Value::F32(x.to_bits());
    let double = |x: f64| Value::F64(x.to_bits());
    assert_eq!(single(0.0), single(-0.0));
    assert_eq!(double(0.0), double(-0.0));
    assert_eq!(double(1.5), double(1.5));
    assert!(single(f32::NAN) != single(f32::NAN));
    assert!(double(f64::NAN) != double(f64::NAN));
    assert!(double(f64::INFINITY) == double(f64::INFINITY));
    assert!(single(1.0) != Value::U32(1.0f32.to_bits()));
    let list = |x: f32| Value::Array(Array::Array(vec![Array::F32(vec![x.to_bits(), 0])]));
    assert_eq!(list(0.0), list(-0.0));
    assert!(list(f32::NAN) != list(f32::NAN) && list(1.0) != list(2.0));
    assert!(Array::U8(vec![]) != Array::I8(vec![]));
    assert_eq!(Value::String("a".to_string()), Value::String("a".to_string()));
    assert!(Array::U8(vec![1]) != Array::U8(vec![1, 2]));
    assert_eq!(Metadata::default(), Metadata::new());
}
