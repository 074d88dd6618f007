//! The architecture of LFM2.5-8B-A1B, as compile-time constants.
//!
//! The model is fixed, so its dimensions and its layer schedule are constants rather than
//! values read from the weights file.
use crate::gguf::GgufFile;
use crate::scalar::Scalar;
use crate::text::{ascii, spells};
use vstd::prelude::*;

verus! {

/// Width of the residual stream.
pub const HIDDEN: usize = 2048;

/// Number of decoder layers.
pub const N_LAYERS: usize = 24;

/// Number of token ids.
pub const VOCAB: usize = 128000;

/// Query heads of an attention layer.
pub const N_HEADS: usize = 32;

/// Key/value heads of an attention layer.
pub const N_KV_HEADS: usize = 8;

/// Width of one head.
pub const HEAD_DIM: usize = 64;

/// Width of the keys (and of the values) of one position.
pub const KV_DIM: usize = 512;

/// Taps of the short convolution.
pub const CONV_L_CACHE: usize = 3;

/// Experts of a mixture layer.
pub const N_EXPERTS: usize = 32;

/// Experts that each token is routed to.
pub const N_EXPERTS_USED: usize = 4;

/// Inner width of one expert.
pub const MOE_FF: usize = 1792;

/// Inner width of a dense feed-forward layer.
pub const DENSE_FF: usize = 7168;

/// The attention layers are 2, 6, 10, 14, 18 and 21; all others are short convolutions.
pub open spec fn attention_layer(layer: int) -> bool {
    layer == 2 || layer == 6 || layer == 10 || layer == 14 || layer == 18 || layer == 21
}

/// The first two layers have a dense feed-forward part; all others route to experts.
pub open spec fn dense_layer(layer: int) -> bool {
    layer < 2
}

/// Whether the operator of a layer is attention.
pub fn is_attention(layer: usize) -> (r: bool)
    ensures
        r == attention_layer(layer as int),
{
    layer == 2 || layer == 6 || layer == 10 || layer == 14 || layer == 18 || layer == 21
}

/// Whether the feed-forward part of a layer is dense.
pub fn is_dense_ffn(layer: usize) -> (r: bool)
    ensures
        r == dense_layer(layer as int),
{
    layer < 2
}

/// Why a weights file is not one of this model.
#[derive(Clone, Copy, Debug, PartialEq, Eq, Structural)]
pub enum ConfigError {
    /// The architecture is missing or another one.
    Architecture,
    /// The key/value heads per layer are missing, or do not follow the layer schedule.
    Schedule,
}

/// The architecture is `lfm2moe`.
pub open spec fn architecture_fits(file: GgufFile) -> bool {
    file.architecture is Some && file.architecture.unwrap()@ == ascii("lfm2moe"@)
}

/// The key/value heads of a layer.
pub open spec fn kv_heads(layer: int) -> u32 {
    if attention_layer(layer) {
        8
    } else {
        0
    }
}

/// Every layer has the key/value heads of the schedule.
pub open spec fn schedule_fits(file: GgufFile) -> bool {
    file.head_count_kv is Some && file.head_count_kv.unwrap()@ == Seq::new(
        N_LAYERS as nat,
        |l: int| kv_heads(l),
    )
}

/// The file's metadata match the constants.
pub open spec fn matches_constants(file: GgufFile) -> bool {
    architecture_fits(file) && schedule_fits(file)
}

/// What is wrong with the metadata of a file that does not match the constants.
pub open spec fn mismatch(file: GgufFile) -> ConfigError {
    if architecture_fits(file) {
        ConfigError::Schedule
    } else {
        ConfigError::Architecture
    }
}

/// Checks that the file's metadata match the constants.
pub fn validate(gguf: &GgufFile) -> (r: Result<(), ConfigError>)
    ensures
        r is Ok <==> matches_constants(*gguf),
        r matches Err(e) ==> e == mismatch(*gguf),
{
    match &gguf.architecture {
        None => {
            return Err(ConfigError::Architecture);
        },
        Some(name) => {
            if !spells(name.as_slice(), "lfm2moe") {
                return Err(ConfigError::Architecture);
            }
        },
    }
    match &gguf.head_count_kv {
        None => Err(ConfigError::Schedule),
        Some(heads) => {
            let ghost want = Seq::new(N_LAYERS as nat, |l: int| kv_heads(l));
            if heads.len() != N_LAYERS {
                return Err(ConfigError::Schedule);
            }
            let mut l: usize = 0;
            while l < N_LAYERS
                invariant
                    heads@.len() == N_LAYERS,
                    *heads == gguf.head_count_kv.unwrap(),
                    gguf.head_count_kv is Some,
                    architecture_fits(*gguf),
                    want == Seq::new(N_LAYERS as nat, |l: int| kv_heads(l)),
                    l <= N_LAYERS,
                    forall|j: int| 0 <= j < l ==> heads@[j] == want[j],
                decreases N_LAYERS - l,
            {
                let kv: u32 = if is_attention(l) {
                    8
                } else {
                    0
                };
                if heads[l] != kv {
                    assert(heads@[l as int] != want[l as int]);
                    return Err(ConfigError::Schedule);
                }
                l += 1;
            }
            assert(heads@ =~= want);
            Ok(())
        },
    }
}

impl ConfigError {
    /// The error in words.
    pub open spec fn text(&self) -> Seq<char> {
        match self {
            ConfigError::Architecture => "the architecture is not lfm2moe"@,
            ConfigError::Schedule => "the layers are not those of LFM2.5-8B-A1B"@,
        }
    }

    /// The error in words.
    pub fn message(&self) -> (r: String)
        ensures
            r@ == self.text(),
    {
        match self {
            ConfigError::Architecture => "the architecture is not lfm2moe".to_owned(),
            ConfigError::Schedule => "the layers are not those of LFM2.5-8B-A1B".to_owned(),
        }
    }
}

/// The quotient of two integers, as a scalar.
pub open spec fn ratio_spec<T: Scalar>(num: i32, den: i32) -> T {
    T::from_i32_spec(num).div_spec(T::from_i32_spec(den))
}

/// The quotient of two integers, as a scalar.
pub fn ratio<T: Scalar>(num: i32, den: i32) -> (r: T)
    ensures
        r == ratio_spec::<T>(num, den),
{
    T::from_i32(num).div(T::from_i32(den))
}

/// The base of the rotary embedding's frequencies, 5,000,000.
pub open spec fn rope_theta_spec<T: Scalar>() -> T {
    T::from_i32_spec(5_000_000)
}

/// The base of the rotary embedding's frequencies, 5,000,000.
pub fn rope_theta<T: Scalar>() -> (r: T)
    ensures
        r == rope_theta_spec::<T>(),
{
    T::from_i32(5_000_000)
}

/// The epsilon of every RMS norm, `1e-5`.
pub open spec fn rms_eps_spec<T: Scalar>() -> T {
    ratio_spec(1, 100_000)
}

/// The epsilon of every RMS norm, `1e-5`.
pub fn rms_eps<T: Scalar>() -> (r: T)
    ensures
        r == rms_eps_spec::<T>(),
{
    ratio(1, 100_000)
}

/// The epsilon that keeps the routing weights' normalisation away from zero, `1e-6`.
pub open spec fn route_eps_spec<T: Scalar>() -> T {
    ratio_spec(1, 1_000_000)
}

/// The epsilon that keeps the routing weights' normalisation away from zero, `1e-6`.
pub fn route_eps<T: Scalar>() -> (r: T)
    ensures
        r == route_eps_spec::<T>(),
{
    ratio(1, 1_000_000)
}

/// The attention layers among the first `n`.
pub open spec fn attention_count(n: nat) -> nat
    decreases n,
{
    if n == 0 {
        0
    } else {
        attention_count((n - 1) as nat) + if attention_layer(n - 1) {
            1nat
        } else {
            0nat
        }
    }
}

/// Six layers attend, and the other eighteen convolve.
pub proof fn six_layers_attend()
    ensures
        attention_count(N_LAYERS as nat) == 6,
        N_LAYERS - attention_count(N_LAYERS as nat) == 18,
{
    reveal_with_fuel(attention_count, 25);
}

/// The heads fill the residual stream, and query heads share key/value heads in groups of
/// four.
pub proof fn heads_fit()
    ensures
        N_HEADS * HEAD_DIM == HIDDEN,
        N_KV_HEADS * HEAD_DIM == KV_DIM,
        N_HEADS == 4 * N_KV_HEADS,
{
}

/// The sizes of LFM2.5-8B-A1B.
pub proof fn sizes_of_the_model()
    ensures
        HIDDEN == 2048,
        N_LAYERS == 24,
        VOCAB == 128_000,
        N_HEADS == 32,
        N_KV_HEADS == 8,
        HEAD_DIM == 64,
        KV_DIM == 512,
        CONV_L_CACHE == 3,
        N_EXPERTS == 32,
        N_EXPERTS_USED == 4,
        MOE_FF == 1792,
        DENSE_FF == 7168,
{
}

/// The numbers of LFM2.5-8B-A1B that are not sizes: the rotary base is 5,000,000, the epsilon
/// of the norms `1e-5`, and that of the routing weights `1e-6`.
pub proof fn numbers_of_the_model<T: Scalar>()
    ensures
        rope_theta_spec::<T>() == T::from_i32_spec(5_000_000),
        rms_eps_spec::<T>() == T::from_i32_spec(1).div_spec(T::from_i32_spec(100_000)),
        route_eps_spec::<T>() == T::from_i32_spec(1).div_spec(T::from_i32_spec(1_000_000)),
{
}

} // verus!
