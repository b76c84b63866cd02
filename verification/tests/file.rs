use rsllm::gguf::error::Error;
use rsllm::gguf::file::{align_up, GgufFile};
use rsllm::gguf::metadata::ValueType;
use rsllm::text::hex;

/// Build a minimal valid GGUF v3 byte sequence with the given metadata
/// and tensor entries. Layout:
///
/// ```text
/// magic "GGUF" | version u32 | n_tensors u64 | n_kv u64
/// kv entries: { key str | type u32 | value bytes }*
/// tensor entries: { name str | ndim u32 | dims u64* | type u32 | rel_offset u64 }*
/// alignment padding
/// tensor payloads
/// ```
struct GgufBuilder {
    kv: Vec<(String, u32, Vec<u8>)>, // (key, value_type_id, value_bytes)
    tensors: Vec<(String, u32, Vec<u64>, Vec<u8>)>, // (name, ttype, dims, payload)
    alignment: u64,
}

impl GgufBuilder {
    fn new() -> Self {
        Self {
            kv: Vec::new(),
            tensors: Vec::new(),
            alignment: 32,
        }
    }

    fn kv_str(mut self, key: &str, value: &str) -> Self {
        let mut value_bytes = (value.len() as u64).to_le_bytes().to_vec();
        value_bytes.extend_from_slice(value.as_bytes());
        self.kv
            .push((key.to_owned(), ValueType::String as u32, value_bytes));
        self
    }

    fn kv_u32(mut self, key: &str, value: u32) -> Self {
        self.kv.push((
            key.to_owned(),
            ValueType::U32 as u32,
            value.to_le_bytes().to_vec(),
        ));
        self
    }

    fn alignment(mut self, alignment: u64) -> Self {
        self.alignment = alignment;
        self
    }

    fn tensor(mut self, name: &str, ttype: u32, dims: Vec<u64>, payload: Vec<u8>) -> Self {
        self.tensors.push((name.to_owned(), ttype, dims, payload));
        self
    }

    fn build(self) -> Vec<u8> {
        let mut out = Vec::new();
        out.extend_from_slice(b"GGUF");
        out.extend_from_slice(&3u32.to_le_bytes()); // version
        out.extend_from_slice(&(self.tensors.len() as u64).to_le_bytes());
        out.extend_from_slice(&(self.kv.len() as u64).to_le_bytes());

        for (key, ttype, value_bytes) in &self.kv {
            out.extend_from_slice(&(key.len() as u64).to_le_bytes());
            out.extend_from_slice(key.as_bytes());
            out.extend_from_slice(&ttype.to_le_bytes());
            out.extend_from_slice(value_bytes);
        }

        // First pass: emit tensor directory entries with relative offsets
        // computed assuming payloads are concatenated in declaration order.
        let mut payload_offsets = Vec::with_capacity(self.tensors.len());
        let mut cursor = 0u64;
        for (_, _, _, payload) in &self.tensors {
            payload_offsets.push(cursor);
            cursor += payload.len() as u64;
        }

        for (idx, (name, ttype, dims, _payload)) in self.tensors.iter().enumerate() {
            out.extend_from_slice(&(name.len() as u64).to_le_bytes());
            out.extend_from_slice(name.as_bytes());
            out.extend_from_slice(&(dims.len() as u32).to_le_bytes());
            for &d in dims {
                out.extend_from_slice(&d.to_le_bytes());
            }
            out.extend_from_slice(&ttype.to_le_bytes());
            out.extend_from_slice(&payload_offsets[idx].to_le_bytes());
        }

        // Alignment padding.
        let pad = (self.alignment - (out.len() as u64 % self.alignment)) % self.alignment;
        out.extend(std::iter::repeat_n(0u8, pad as usize));

        // Tensor payloads.
        for (_, _, _, payload) in &self.tensors {
            out.extend_from_slice(payload);
        }

        out
    }
}

#[test]
fn open_minimal_empty_file() {
    let bytes = GgufBuilder::new()
        .kv_str("general.name", "test-model")
        .build();
    let file = GgufFile::from_bytes(bytes).unwrap();
    assert_eq!(file.version(), 3);
    assert_eq!(file.alignment(), 32);
    assert_eq!(file.metadata().len(), 1);
    assert_eq!(file.metadata().get_str("general.name"), Some("test-model"));
    assert_eq!(file.tensors().len(), 0);
}

#[test]
fn open_with_two_tensors_zero_copy_payload() {
    let payload_a = vec![1u8, 2, 3, 4, 5, 6, 7, 8]; // 2 f32 elements
    let payload_b = vec![9u8, 10, 11, 12]; // 1 f32 element
    let bytes = GgufBuilder::new()
        .kv_str("general.name", "two-tensor-test")
        .tensor("t_a", 0 /* F32 */, vec![2], payload_a.clone())
        .tensor("t_b", 0 /* F32 */, vec![1], payload_b.clone())
        .build();

    let file = GgufFile::from_bytes(bytes).unwrap();
    assert_eq!(file.tensors().len(), 2);

    let info_a = file.tensor("t_a").expect("t_a present");
    assert_eq!(info_a.elements, 2);
    let bytes_a = file.tensor_bytes(info_a).expect("payload present");
    assert_eq!(bytes_a, payload_a.as_slice());

    let info_b = file.tensor("t_b").expect("t_b present");
    let bytes_b = file.tensor_bytes(info_b).expect("payload present");
    assert_eq!(bytes_b, payload_b.as_slice());
}

#[test]
fn bad_magic_rejected() {
    let mut bytes = b"XXXX".to_vec();
    bytes.extend_from_slice(&3u32.to_le_bytes());
    bytes.extend_from_slice(&0u64.to_le_bytes()); // n_tensors
    bytes.extend_from_slice(&0u64.to_le_bytes()); // n_kv
    bytes.resize(64, 0);
    match GgufFile::from_bytes(bytes) {
        Err(Error::BadMagic { found }) => assert_eq!(&found, b"XXXX"),
        other => panic!("expected BadMagic, got {other:?}"),
    }
}

#[test]
fn unsupported_version_rejected() {
    let mut bytes = b"GGUF".to_vec();
    bytes.extend_from_slice(&2u32.to_le_bytes()); // v2, unsupported
    bytes.extend_from_slice(&0u64.to_le_bytes());
    bytes.extend_from_slice(&0u64.to_le_bytes());
    bytes.resize(64, 0);
    match GgufFile::from_bytes(bytes) {
        Err(Error::UnsupportedVersion(2)) => {}
        other => panic!("expected UnsupportedVersion(2), got {other:?}"),
    }
}

#[test]
fn too_small_rejected() {
    let bytes = vec![0u8; 10];
    match GgufFile::from_bytes(bytes) {
        Err(Error::TooSmall(10)) => {}
        other => panic!("expected TooSmall(10), got {other:?}"),
    }
}

#[test]
fn alignment_override_via_metadata() {
    // Force alignment = 64 instead of default 32.
    let bytes = GgufBuilder::new()
        .alignment(64)
        .kv_u32("general.alignment", 64)
        .tensor("t", 0, vec![1], vec![1u8, 2, 3, 4])
        .build();

    let file = GgufFile::from_bytes(bytes).unwrap();
    assert_eq!(file.alignment(), 64);
    // tensor_data_offset must be 64-aligned.
    assert_eq!(file.tensor_data_offset() % 64, 0);
}

#[test]
fn fingerprint_is_stable_and_layout_sensitive() {
    let bytes1 = GgufBuilder::new()
        .tensor("a", 0, vec![4], vec![0; 16])
        .tensor("b", 1, vec![2, 2], vec![0; 8])
        .build();
    let bytes2 = GgufBuilder::new()
        // Different declaration order, same tensors.
        .tensor("b", 1, vec![2, 2], vec![0; 8])
        .tensor("a", 0, vec![4], vec![0; 16])
        .build();
    let bytes3 = GgufBuilder::new()
        // Different shape: should produce a different fingerprint.
        .tensor("a", 0, vec![8], vec![0; 32])
        .tensor("b", 1, vec![2, 2], vec![0; 8])
        .build();

    let f1 = *GgufFile::from_bytes(bytes1).unwrap().fingerprint();
    let f2 = *GgufFile::from_bytes(bytes2).unwrap().fingerprint();
    let f3 = *GgufFile::from_bytes(bytes3).unwrap().fingerprint();

    assert_eq!(f1, f2, "fingerprint must be order-independent");
    assert_ne!(f1, f3, "fingerprint must change when shapes differ");
}

#[test]
fn debug_format_includes_fingerprint() {
    let bytes = GgufBuilder::new()
        .tensor("a", 0, vec![4], vec![0; 16])
        .build();
    let file = GgufFile::from_bytes(bytes).unwrap();
    let dbg = format!("{file:?}");
    assert!(dbg.contains("GgufFile"));
    assert!(dbg.contains("version: 3"));
    assert!(dbg.contains("fingerprint"));
}

#[test]
fn align_up_helper() {
    assert_eq!(align_up(0, 32), Some(0));
    assert_eq!(align_up(1, 32), Some(32));
    assert_eq!(align_up(32, 32), Some(32));
    assert_eq!(align_up(33, 32), Some(64));
    assert_eq!(align_up(100, 64), Some(128));
}

#[test]
fn align_up_overflow_returns_none() {
    // u64::MAX - 1 rounded up to a 32-aligned boundary overflows.
    assert_eq!(align_up(u64::MAX - 1, 32), None);
}

#[test]
fn pathological_alignment_rejected() {
    // alignment > MAX_ALIGNMENT must be rejected. The builder embeds
    // general.alignment in metadata.
    let bytes = GgufBuilder::new()
        .kv_u32("general.alignment", 131_072) // 128 KiB > MAX_ALIGNMENT 64 KiB
        .build();
    match GgufFile::from_bytes(bytes) {
        Err(Error::InvalidAlignment(131_072)) => {}
        other => panic!("expected InvalidAlignment(131072), got {other:?}"),
    }
}

#[test]
fn zero_alignment_rejected() {
    let bytes = GgufBuilder::new().kv_u32("general.alignment", 0).build();
    match GgufFile::from_bytes(bytes) {
        Err(Error::InvalidAlignment(0)) => {}
        other => panic!("expected InvalidAlignment(0), got {other:?}"),
    }
}

#[test]
fn data_beyond_the_end_is_refused() {
    let mut bytes = GgufBuilder::new()
        .tensor("t", 0, vec![4], vec![0; 16])
        .build();
    bytes.pop();
    assert!(matches!(
        GgufFile::from_bytes(bytes),
        Err(Error::Truncated { .. })
    ));
}

#[test]
fn unknown_types_have_no_data() {
    let bytes = GgufBuilder::new()
        .tensor("t", 999, vec![4], vec![0; 16])
        .build();
    let file = GgufFile::from_bytes(bytes).unwrap();
    assert!(file.tensor_bytes(file.tensor("t").unwrap()).is_none());
    assert!(file.tensor("u").is_none());
}

#[test]
fn fingerprint_is_the_digest_of_the_layout() {
    let bytes = GgufBuilder::new()
        .tensor("b", 1, vec![2, 2], vec![0; 8])
        .tensor("a", 0, vec![4], vec![0; 16])
        .build();
    let file = GgufFile::from_bytes(bytes).unwrap();
    let mut expected = vec![b'a', 0];
    expected.extend_from_slice(&0u32.to_le_bytes());
    expected.extend_from_slice(&1u32.to_le_bytes());
    expected.extend_from_slice(&4u64.to_le_bytes());
    expected.extend_from_slice(&[0, b'b', 0]);
    expected.extend_from_slice(&1u32.to_le_bytes());
    expected.extend_from_slice(&2u32.to_le_bytes());
    expected.extend_from_slice(&2u64.to_le_bytes());
    expected.extend_from_slice(&2u64.to_le_bytes());
    expected.push(0);
    let digest: [u8; 32] = <sha2::Sha256 as sha2::Digest>::digest(&expected).into();
    assert_eq!(file.fingerprint(), &digest);
    let empty = GgufFile::from_bytes(GgufBuilder::new().kv_u32("k", 0).build()).unwrap();
    assert_eq!(
        hex(empty.fingerprint()),
        "e3b0c44298fc1c149afbf4c8996fb92427ae41e4649b934ca495991b7852b855"
    );
}

#[test]
fn errors_tell_what_is_wrong() {
    assert_eq!(
        Error::BadMagic { found: [88, 89, 0, 255] }.message(),
        "not a GGUF file (expected magic 'GGUF', found [88, 89, 0, 255])"
    );
    assert_eq!(
        Error::UnsupportedVersion(2).message(),
        "unsupported GGUF version 2 (this build supports v3)"
    );
    assert_eq!(
        Error::Truncated { pos: 10, need: 4, have: 2 }.message(),
        "truncated read at offset 10: need 4 bytes, only 2 remaining"
    );
    assert_eq!(
        Error::TooSmall(7).message(),
        "file too small to be GGUF (size 7 bytes, need at least 32)"
    );
    assert_eq!(Error::UnknownValueType(99).message(), "unknown metadata value type 99");
    assert_eq!(Error::NestingTooDeep.message(), "metadata array nesting too deep (max 8)");
    assert_eq!(Error::InvalidUtf8(3).message(), "invalid UTF-8 in string at offset 3");
    assert_eq!(
        Error::ArrayTooLarge { len: 5, item_size: 8 }.message(),
        "metadata array too large: 5 × 8 bytes overflows"
    );
    assert_eq!(
        Error::DequantSizeMismatch { src_bytes: 1, expected_bytes: 2 }.message(),
        "dequant size mismatch: src has 1 bytes, expected 2"
    );
    assert_eq!(
        Error::UnsupportedDequant("q3_k").message(),
        "dtype `q3_k` is not yet supported for dequantization in this build"
    );
    assert_eq!(
        Error::InvalidTensorDims { name: "t".to_string(), ndim: 9, max: 4 }.message(),
        "tensor `t` has invalid dimension count 9 (must be 1..=4)"
    );
    assert_eq!(
        Error::InvalidAlignment(0).message(),
        "invalid tensor data alignment 0 (must be 1..=65536, power of two recommended)"
    );
    assert_eq!(
        Error::InvalidBool(2).message(),
        "invalid boolean byte 2 (must be 0 or 1)"
    );
}
