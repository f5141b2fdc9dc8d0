//! Linear algebra primitives, permutation codes and bit-mask hash indexes,
//! with their behaviour stated and proved.

pub mod blas;
pub mod blas_laws;
pub mod permutation;
pub mod point_set;
pub mod buckets;
pub mod indexes;
pub mod bit_tricks;
pub mod hasher;
pub mod query;
pub mod sublists;
pub mod random_mask;
pub mod slot_map;
pub mod hashers;
pub mod try_hasher;
pub mod select_index;
pub mod gemm_params;
pub mod packing;
pub mod encoding;
pub mod nearest;
pub mod sorting;
mod blocking;
pub mod wrapping_laws;
