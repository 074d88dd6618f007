//! Storage types of tensors and the size of their blocks.
use vstd::prelude::*;

verus! {

/// How the weights of a tensor are stored.
#[allow(non_camel_case_types)]
#[derive(Clone, Copy, Debug, PartialEq, Eq, Structural)]
pub enum GgmlType {
    /// One single-precision number per weight.
    F32,
    /// One half-precision number per weight.
    F16,
    /// 256 weights of four bits, in eight sub-blocks with a scale and a minimum each.
    Q4_K,
    /// 256 weights of six bits, in sixteen sub-blocks with a scale each.
    Q6_K,
    /// Any other storage type, by its number.
    Other(u32),
}

/// Weights and bytes of one block of a storage type, where its layout is known.
pub open spec fn block_spec(dtype: GgmlType) -> Option<(u64, u64)> {
    match dtype {
        GgmlType::F32 => Some((1, 4)),
        GgmlType::F16 => Some((1, 2)),
        GgmlType::Q4_K => Some((256, 144)),
        GgmlType::Q6_K => Some((256, 210)),
        GgmlType::Other(_) => None,
    }
}

/// Weights per block of a supported storage type.
pub open spec fn block_elems(dtype: GgmlType) -> int {
    block_spec(dtype).unwrap().0 as int
}

/// Bytes per block of a supported storage type.
pub open spec fn block_bytes(dtype: GgmlType) -> int {
    block_spec(dtype).unwrap().1 as int
}

/// The storage type can be dequantized.
pub open spec fn supported(dtype: GgmlType) -> bool {
    block_spec(dtype) is Some
}

/// Bytes of one row of `n_in` weights.
pub open spec fn row_bytes(dtype: GgmlType, n_in: int) -> int {
    (n_in / block_elems(dtype)) * block_bytes(dtype)
}

/// The bytes of a row, and what divides its weights, type by type.
pub proof fn lemma_row_bytes(dtype: GgmlType, n: int)
    requires
        supported(dtype),
        0 <= n,
    ensures
        dtype is F32 ==> row_bytes(dtype, n) == 4 * n && n % block_elems(dtype) == 0,
        dtype is F16 ==> row_bytes(dtype, n) == 2 * n && n % block_elems(dtype) == 0,
        dtype is Q4_K ==> row_bytes(dtype, n) == (n / 256) * 144 && n % block_elems(dtype) == n
            % 256,
        dtype is Q6_K ==> row_bytes(dtype, n) == (n / 256) * 210 && n % block_elems(dtype) == n
            % 256,
{
    assert(n / 1 == n && n % 1 == 0);
    match dtype {
        GgmlType::F32 => {
            assert(block_elems(dtype) == 1 && block_bytes(dtype) == 4);
        },
        GgmlType::F16 => {
            assert(block_elems(dtype) == 1 && block_bytes(dtype) == 2);
        },
        GgmlType::Q4_K => {
            assert(block_elems(dtype) == 256 && block_bytes(dtype) == 144);
        },
        GgmlType::Q6_K => {
            assert(block_elems(dtype) == 256 && block_bytes(dtype) == 210);
        },
        GgmlType::Other(_) => {},
    }
}

impl GgmlType {
    /// Weights and bytes of one block, where the layout of the type is known.
    pub fn block(&self) -> (r: Option<(u64, u64)>)
        ensures
            r == block_spec(*self),
    {
        match *self {
            GgmlType::F32 => Some((1, 4)),
            GgmlType::F16 => Some((1, 2)),
            GgmlType::Q4_K => Some((256, 144)),
            GgmlType::Q6_K => Some((256, 210)),
            GgmlType::Other(_) => None,
        }
    }
}

} // verus!
