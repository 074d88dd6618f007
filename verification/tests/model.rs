use bebelm::cache::Cache;
use bebelm::config::{is_attention, is_dense_ffn, validate, ConfigError, HIDDEN, N_LAYERS, VOCAB};
use bebelm::fixed::Fixed;
use bebelm::gguf::{GgufFile, TensorInfo};
use bebelm::model::moe::expert_bytes;
use bebelm::model::tensors::name;
use bebelm::model::{expected_tensors, LoadError, Model};
use bebelm::sampler::Sampler;
use bebelm::scalar::Scalar;
use bebelm::tensor::GgmlType;

type X = Fixed<16>;

/// A table with every expected tensor at offset zero: vectors and small matrices as F32,
/// large matrices as Q4_K.
fn table() -> Vec<TensorInfo> {
    expected_tensors()
        .into_iter()
        .map(|(name, dims)| {
            let ggml_type = if dims[0] % 256 == 0 && dims.len() > 1 { GgmlType::Q4_K } else { GgmlType::F32 };
            TensorInfo { name, dims, ggml_type, offset: 0 }
        })
        .collect()
}

/// A weights file with the metadata of the model.
fn file(tensors: Vec<TensorInfo>, data: &[u8]) -> GgufFile<'_> {
    let heads = (0..N_LAYERS).map(|l| if is_attention(l) { 8 } else { 0 }).collect();
    GgufFile { architecture: Some(b"lfm2moe".to_vec()), head_count_kv: Some(heads), tensors, data }
}

#[test]
fn expected_tensor_count_matches_file() {
    // The Q4_K_M file has exactly 256 tensors; the derived list must match.
    assert_eq!(expected_tensors().len(), 256);
}

#[test]
fn expected_tensors_have_unique_names() {
    let mut names: Vec<&String> = Vec::new();
    let list = expected_tensors();
    for (n, _) in &list {
        names.push(n);
    }
    names.sort();
    let before = names.len();
    names.dedup();
    assert_eq!(before, names.len(), "duplicate tensor names generated");
}

#[test]
fn expected_tensors_follow_the_schedule() {
    let list = expected_tensors();
    let dims = |n: &str| list.iter().find(|e| e.0 == n).map(|e| e.1.clone());
    assert_eq!(list[0], ("token_embd.weight".to_string(), vec![2048, 128000]));
    assert_eq!(list[1], ("token_embd_norm.weight".to_string(), vec![2048]));
    assert_eq!(dims("blk.0.shortconv.in_proj.weight"), Some(vec![2048, 6144]));
    assert_eq!(dims("blk.0.shortconv.conv.weight"), Some(vec![3, 2048]));
    assert_eq!(dims("blk.1.ffn_down.weight"), Some(vec![7168, 2048]));
    assert_eq!(dims("blk.2.attn_k.weight"), Some(vec![2048, 512]));
    assert_eq!(dims("blk.21.attn_q_norm.weight"), Some(vec![64]));
    assert_eq!(dims("blk.23.ffn_down_exps.weight"), Some(vec![1792, 2048, 32]));
    assert_eq!(dims("blk.23.exp_probs_b.bias"), Some(vec![32]));
    assert_eq!(dims("blk.2.shortconv.conv.weight"), None);
    assert_eq!(dims("blk.24.attn_norm.weight"), None);
}

#[test]
fn layer_schedule() {
    let attention: Vec<usize> = (0..N_LAYERS).filter(|&l| is_attention(l)).collect();
    assert_eq!(attention, [2, 6, 10, 14, 18, 21]);
    let dense: Vec<usize> = (0..N_LAYERS).filter(|&l| is_dense_ffn(l)).collect();
    assert_eq!(dense, [0, 1]);
}

#[test]
fn names_have_the_layer_number() {
    assert_eq!(name(7, "attn_norm.weight"), "blk.7.attn_norm.weight");
    assert_eq!(name(23, "x"), "blk.23.x");
    assert_ne!(name(1, "2.x"), name(12, "x"));
}

#[test]
fn complete_table_loads() {
    let model = Model::load(file(table(), &[]));
    assert!(model.is_ok());
}

fn refusal(f: GgufFile) -> String {
    match Model::load(f) {
        Ok(_) => "loaded".to_string(),
        Err(e) => e.message(),
    }
}

#[test]
fn other_models_are_refused() {
    let arch = "the architecture is not lfm2moe";
    let layers = "the layers are not those of LFM2.5-8B-A1B";
    let mut f = file(table(), &[]);
    f.architecture = Some(b"lfm2".to_vec());
    assert_eq!(validate(&f), Err(ConfigError::Architecture));
    assert_eq!(refusal(f), arch);
    let mut f = file(table(), &[]);
    f.architecture = None;
    f.head_count_kv = None;
    assert_eq!(refusal(f), arch);
    let mut f = file(table(), &[]);
    f.head_count_kv = None;
    assert_eq!(validate(&f), Err(ConfigError::Schedule));
    assert_eq!(refusal(f), layers);
    let mut f = file(table(), &[]);
    f.head_count_kv = Some(vec![8; 24]);
    assert_eq!(refusal(f), layers);
    let mut f = file(table(), &[]);
    f.head_count_kv = f.head_count_kv.map(|mut v| {
        v.pop();
        v
    });
    assert_eq!(refusal(f), layers);
    assert_eq!(validate(&file(table(), &[])), Ok(()));
    assert_eq!(refusal(file(table(), &[])), "loaded");
}

#[test]
fn metadata_are_checked_before_tensors() {
    let mut f = file(Vec::new(), &[]);
    f.architecture = None;
    assert_eq!(refusal(f), "the architecture is not lfm2moe");
    assert_eq!(refusal(file(Vec::new(), &[])), "missing tensor token_embd.weight");
}

#[test]
fn missing_tensor_is_reported() {
    let mut tensors = table();
    tensors.remove(40);
    tensors.remove(17);
    let gone = expected_tensors()[17].0.clone();
    match Model::load(file(tensors, &[])) {
        Err(e) => {
            assert_eq!(e.message(), format!("missing tensor {gone}"));
            assert!(matches!(e, LoadError::Missing { name } if name == gone));
        }
        Ok(_) => panic!("loaded without {gone}"),
    }
}

#[test]
fn wrong_shape_is_reported() {
    let mut tensors = table();
    tensors[0].dims = vec![2048, 7];
    tensors[9].dims = Vec::new();
    match Model::load(file(tensors, &[])) {
        Err(e) => {
            let text = "tensor token_embd.weight: shape [2048, 7] != expected [2048, 128000]";
            assert_eq!(e.message(), text);
            assert!(matches!(e, LoadError::Shape { found, .. } if found == [2048, 7]));
        }
        Ok(_) => panic!("loaded with a wrong shape"),
    }
}

#[test]
fn shape_lists_print_like_lists() {
    let e = LoadError::Shape { name: "t".to_string(), found: vec![], expected: vec![0] };
    assert_eq!(e.message(), "tensor t: shape [] != expected [0]");
}

#[test]
fn lookup_takes_the_later_of_two_entries() {
    let mut tensors = table();
    let first = &tensors[3];
    let name = first.name.clone();
    let again = TensorInfo {
        name: name.clone(),
        dims: first.dims.clone(),
        ggml_type: GgmlType::F16,
        offset: 77,
    };
    tensors.push(again);
    let model = match Model::load(file(tensors, &[])) {
        Ok(m) => m,
        Err(e) => panic!("{}", e.message()),
    };
    assert_eq!(model.tensor(&name).map(|t| t.offset), Some(77));
    assert!(model.tensor("blk.0.nothing").is_none());
}

#[test]
fn data_is_the_bytes_of_the_tensor() {
    let mut tensors = table();
    // token_embd_norm.weight: 2048 F32 values from byte 5 on.
    tensors[1].offset = 5;
    let data: Vec<u8> = (0..10_000).map(|i| (i % 251) as u8).collect();
    let model = match Model::load(file(tensors, &data)) {
        Ok(m) => m,
        Err(e) => panic!("{}", e.message()),
    };
    let t = match model.tensor("token_embd_norm.weight") {
        Some(t) => t,
        None => panic!("no norm"),
    };
    assert_eq!(model.data(t), &data[5..5 + 8192]);
    // The embedding matrix does not fit.
    assert!(!model.is_runnable());
    // Without a token to generate, the weights are not looked at.
    let mut sampler: Sampler<X> = Sampler::greedy();
    assert!(model.generate(&[5], &mut sampler, 0, 9).is_empty());
}

#[test]
fn sizes_of_tensors() {
    let t = |dims: Vec<u64>, ggml_type| TensorInfo { name: "t".to_string(), dims, ggml_type, offset: 0 };
    assert_eq!(t(vec![3, 2048], GgmlType::F32).byte_len(), Some(24576));
    assert_eq!(t(vec![3, 2048], GgmlType::F32).n_elements(), Some(6144));
    assert_eq!(t(vec![2048, 1792, 32], GgmlType::Q4_K).byte_len(), Some(66_060_288));
    assert_eq!(t(vec![512], GgmlType::Q6_K).byte_len(), Some(420));
    assert_eq!(t(vec![7], GgmlType::F16).byte_len(), Some(14));
    // Not whole blocks, no dims, an unknown storage type, too large.
    assert_eq!(t(vec![3, 2048], GgmlType::Q4_K).byte_len(), None);
    assert_eq!(t(vec![], GgmlType::F32).byte_len(), None);
    assert_eq!(t(vec![32], GgmlType::Other(8)).byte_len(), None);
    assert_eq!(t(vec![u64::MAX, 2], GgmlType::F32).byte_len(), None);
    assert_eq!(t(vec![u64::MAX, 2], GgmlType::F32).n_elements(), None);
    assert_eq!(t(vec![u64::MAX, u64::MAX, 0], GgmlType::F32).byte_len(), Some(0));
    assert_eq!(expert_bytes(GgmlType::Q4_K, 2048, 1792), 2_064_384);
    assert_eq!(expert_bytes(GgmlType::F32, 3, 5), 60);
    // The experts of a stack tile it.
    assert_eq!(32 * expert_bytes(GgmlType::Q4_K, 2048, 1792), 66_060_288);
}

#[test]
fn new_cache_is_empty() {
    let c: Cache<X> = Cache::new();
    assert_eq!((c.k.len(), c.v.len(), c.conv.len(), c.pos), (24, 24, 24, 0));
    for l in 0..N_LAYERS {
        assert!(c.k[l].is_empty() && c.v[l].is_empty());
        assert_eq!(c.conv[l], vec![X::zero(); 4096]);
    }
    let d: Cache<X> = Cache::default();
    assert_eq!(d.conv, c.conv);
}

/// Where the embedding matrix of [`small_model`] starts: after the largest other tensor.
const EMBEDDING: usize = 66_060_288;

/// Where the gain of the last norm of [`small_model`] starts.
const GAIN: usize = EMBEDDING + VOCAB * HIDDEN / 256 * 144;

/// A weights file in which every layer adds nothing, tokens 5 and 9 have the embeddings
/// `(7, 0, …)` and `(14, 0, …)`, all other tokens zero, and the last norm has gain one.
fn small_model() -> (Vec<TensorInfo>, Vec<u8>) {
    let mut tensors = table();
    tensors[0].offset = EMBEDDING as u64;
    tensors[1].offset = GAIN as u64;
    let mut data = vec![0u8; GAIN + 4 * HIDDEN];
    for (token, nibble) in [(5, 7), (9, 14)] {
        let row = EMBEDDING + token * (HIDDEN / 256 * 144);
        data[row..row + 2].copy_from_slice(&0x3c00u16.to_le_bytes()); // d = 1
        data[row + 4] = 1; // scale of the first sub-block
        data[row + 16] = nibble;
    }
    for i in 0..HIDDEN {
        data[GAIN + 4 * i..GAIN + 4 * i + 4].copy_from_slice(&1.0f32.to_le_bytes());
    }
    (tensors, data)
}

#[test]
fn logits_are_the_normed_stream_times_the_embeddings() {
    let (tensors, data) = small_model();
    let model = match Model::load(file(tensors, &data)) {
        Ok(m) => m,
        Err(e) => panic!("{}", e.message()),
    };
    assert!(model.is_runnable());
    let logits = model.forward::<X>(&[5]);
    // The norm of (7, 0, …) is (√2048, 0, …), up to rounding.
    let mean = X::from_i32(49).div(X::from_i32(2048));
    let eps = X::from_i32(1).div(X::from_i32(100_000));
    let normed = X::from_i32(7).mul(X::from_i32(1).div(mean.add(eps).sqrt()));
    let mut expected = vec![X::zero(); VOCAB];
    expected[5] = normed.mul(X::from_i32(7));
    expected[9] = normed.mul(X::from_i32(14));
    assert_eq!(logits.len(), VOCAB);
    assert!(logits == expected);
    assert_eq!(normed.raw >> 16, 45);
}

#[test]
fn generation_stops_at_eos() {
    let (tensors, data) = small_model();
    let model = match Model::load(file(tensors, &data)) {
        Ok(m) => m,
        Err(e) => panic!("{}", e.message()),
    };
    let mut sampler: Sampler<X> = Sampler::greedy();
    assert!(model.generate(&[5], &mut sampler, 0, 9).is_empty());
    // Without a token to generate, the prompt is not looked at.
    assert!(model.generate(&[u32::MAX], &mut sampler, 0, 9).is_empty());
    assert!(model.generate(&[], &mut sampler, 0, 9).is_empty());
    // Token 9 has the largest logit, and ends the text.
    assert_eq!(model.generate(&[5], &mut sampler, 5, 9), [9]);
}

#[test]
fn generation_stops_at_the_limit() {
    let (tensors, data) = small_model();
    let model = match Model::load(file(tensors, &data)) {
        Ok(m) => m,
        Err(e) => panic!("{}", e.message()),
    };
    let mut sampler: Sampler<X> = Sampler::greedy();
    assert_eq!(model.generate(&[5], &mut sampler, 1, 0), [9]);
}
