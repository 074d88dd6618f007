use bebelm::reader::{read_container, ReadError};
use bebelm::tensor::GgmlType;

fn text(s: &str) -> Vec<u8> {
    let mut v = (s.len() as u64).to_le_bytes().to_vec();
    v.extend_from_slice(s.as_bytes());
    v
}

fn entry(key: &str, ty: u32, value: &[u8]) -> Vec<u8> {
    let mut v = text(key);
    v.extend_from_slice(&ty.to_le_bytes());
    v.extend_from_slice(value);
    v
}

fn tensor(name: &str, dims: &[u64], kind: u32, offset: u64) -> Vec<u8> {
    let mut v = text(name);
    v.extend_from_slice(&(dims.len() as u32).to_le_bytes());
    for d in dims {
        v.extend_from_slice(&d.to_le_bytes());
    }
    v.extend_from_slice(&kind.to_le_bytes());
    v.extend_from_slice(&offset.to_le_bytes());
    v
}

/// A container with the given metadata and tensors, padded to `align`, then `data`.
fn file(version: u32, meta: &[Vec<u8>], tensors: &[Vec<u8>], align: usize, data: &[u8]) -> Vec<u8> {
    let mut v = b"GGUF".to_vec();
    v.extend_from_slice(&version.to_le_bytes());
    v.extend_from_slice(&(tensors.len() as u64).to_le_bytes());
    v.extend_from_slice(&(meta.len() as u64).to_le_bytes());
    for m in meta.iter().chain(tensors) {
        v.extend_from_slice(m);
    }
    while v.len() % align != 0 {
        v.push(0xee);
    }
    v.extend_from_slice(data);
    v
}

fn failure(b: &[u8]) -> Option<ReadError> {
    read_container(b).err()
}

#[test]
fn table_and_data_are_found() {
    let strings = [&8u32.to_le_bytes()[..], &2u64.to_le_bytes()[..], &text("a"), &text("bcd")].concat();
    let numbers = [&5u32.to_le_bytes()[..], &3u64.to_le_bytes()[..], &[7u8; 12]].concat();
    let meta = [
        entry("general.architecture", 8, &text("lfm2moe")),
        entry("x.flag", 7, &[1]),
        entry("x.half", 2, &[1, 2]),
        entry("x.wide", 12, &[9; 8]),
        entry("tokens", 9, &strings),
        entry("kinds", 9, &numbers),
    ];
    let tensors = [
        tensor("token_embd.weight", &[2048, 128000], 14, 0),
        tensor("blk.0.größe", &[3], 0, 96),
        tensor("q", &[256], 12, 128),
        tensor("h", &[2, 2], 1, 160),
        tensor("other", &[], 8, 192),
    ];
    let b = file(3, &meta, &tensors, 32, &[1, 2, 3, 4]);
    let f = match read_container(&b) {
        Ok(f) => f,
        Err(e) => panic!("{e:?}"),
    };
    assert_eq!(f.data, [1, 2, 3, 4]);
    assert_eq!(f.tensors.len(), 5);
    assert_eq!(f.tensors[0].name, "token_embd.weight");
    assert_eq!(f.tensors[0].dims, [2048, 128000]);
    assert_eq!(f.tensors[0].ggml_type, GgmlType::Q6_K);
    assert_eq!(f.tensors[1].name, "blk.0.größe");
    assert_eq!((f.tensors[1].ggml_type, f.tensors[1].offset), (GgmlType::F32, 96));
    assert_eq!(f.tensors[2].ggml_type, GgmlType::Q4_K);
    assert_eq!(f.tensors[3].ggml_type, GgmlType::F16);
    assert_eq!(f.tensors[4].ggml_type, GgmlType::Other(8));
    assert!(f.tensors[4].dims.is_empty());
}

#[test]
fn alignment_can_be_set() {
    let meta = [entry("general.alignment", 4, &128u32.to_le_bytes())];
    let b = file(2, &meta, &[], 128, &[5]);
    assert_eq!(read_container(&b).map(|f| f.data.to_vec()), Ok(vec![5]));
    // Only an unsigned 32-bit entry of that very name sets it.
    let meta = [
        entry("general.alignment", 5, &128u32.to_le_bytes()),
        entry("general.alignmenu", 4, &128u32.to_le_bytes()),
    ];
    let b = file(2, &meta, &[], 32, &[6]);
    assert_eq!(read_container(&b).map(|f| f.data.to_vec()), Ok(vec![6]));
}

#[test]
fn model_metadata_are_kept() {
    let counts = |ty: u32| [&ty.to_le_bytes()[..], &3u64.to_le_bytes()[..], &[0, 0, 0, 0, 8, 0, 0, 0, 1, 1, 0, 0]].concat();
    let heads = "lfm2moe.attention.head_count_kv";
    let arch = |s: &str| entry("general.architecture", 8, &text(s));
    let read = |meta: &[Vec<u8>]| match read_container(&file(3, meta, &[], 32, &[])) {
        Ok(f) => (f.architecture, f.head_count_kv),
        Err(e) => panic!("{e:?}"),
    };
    assert_eq!(read(&[]), (None, None));
    for ty in [4, 5] {
        let meta = [arch("lfm2moe"), entry(heads, 9, &counts(ty))];
        assert_eq!(read(&meta), (Some(b"lfm2moe".to_vec()), Some(vec![0, 8, 257])));
    }
    // Other types do not count, and the later of two entries does.
    let meta = [entry(heads, 9, &counts(6)), arch("a"), arch("b"), entry("general.architecture", 4, &[0; 4])];
    assert_eq!(read(&meta), (Some(b"b".to_vec()), None));
}

#[test]
fn every_failure_has_its_error() {
    assert_eq!(failure(b""), Some(ReadError::Magic));
    assert_eq!(failure(b"GGML0000000000000000000000"), Some(ReadError::Magic));
    assert_eq!(failure(b"GGUF"), Some(ReadError::Truncated));
    assert_eq!(failure(&file(1, &[], &[], 1, &[])), Some(ReadError::Version(1)));
    assert_eq!(failure(&file(4, &[], &[], 32, &[])), Some(ReadError::Version(4)));
    let meta = [entry("k", 13, &[0; 8])];
    assert_eq!(failure(&file(3, &meta, &[], 32, &[])), Some(ReadError::Type(13)));
    let nested = [&9u32.to_le_bytes()[..], &1u64.to_le_bytes()[..]].concat();
    let meta = [entry("k", 9, &nested)];
    assert_eq!(failure(&file(3, &meta, &[], 32, &[])), Some(ReadError::Type(9)));
    let meta = [entry("general.alignment", 4, &0u32.to_le_bytes())];
    assert_eq!(failure(&file(3, &meta, &[], 32, &[])), Some(ReadError::Alignment));
    let mut bad = tensor("ab", &[1], 0, 0);
    bad[8] = 0xff;
    assert_eq!(failure(&file(3, &[], &[bad], 32, &[])), Some(ReadError::Name));
}

#[test]
fn every_cut_is_noticed() {
    let meta = [
        entry("general.architecture", 8, &text("lfm2moe")),
        entry("n", 10, &[0; 8]),
        entry("l", 9, &[&8u32.to_le_bytes()[..], &1u64.to_le_bytes()[..], &text("t")].concat()),
    ];
    let b = file(3, &meta, &[tensor("t", &[4, 4], 0, 0)], 32, &[]);
    assert!(read_container(&b).is_ok());
    for n in 4..b.len() {
        assert_eq!(failure(&b[..n]), Some(ReadError::Truncated), "cut at {n}");
    }
}

#[test]
fn huge_counts_do_not_overflow() {
    let huge = [&12u32.to_le_bytes()[..], &u64::MAX.to_le_bytes()[..]].concat();
    assert_eq!(failure(&file(3, &[entry("k", 9, &huge)], &[], 32, &[])), Some(ReadError::Truncated));
    let strings = [&8u32.to_le_bytes()[..], &u64::MAX.to_le_bytes()[..]].concat();
    assert_eq!(failure(&file(3, &[entry("k", 9, &strings)], &[], 1, &[])), Some(ReadError::Truncated));
    let mut t = text("t");
    t.extend_from_slice(&u32::MAX.to_le_bytes());
    assert_eq!(failure(&file(3, &[], &[t], 32, &[])), Some(ReadError::Truncated));
    let mut b = file(3, &[], &[], 32, &[]);
    b[8..16].copy_from_slice(&u64::MAX.to_le_bytes());
    assert_eq!(failure(&b), Some(ReadError::Truncated));
}
