//! Compute kernels, generic over the scalar they compute in.
pub mod activation;
pub mod attending;
pub mod attention;
pub mod conv;
pub mod dequant;
pub mod elementwise;
pub mod exact;
pub mod matmul;
pub mod packing;
pub mod pointwise;
pub mod rmsnorm;
pub mod rope;
pub mod rounding;
pub mod small;
pub mod softmax;
