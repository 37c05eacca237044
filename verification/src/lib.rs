//! Dense linear-algebra kernels in the BLAS calling convention, over any
//! scalar: the vector kernels, the fused combines that a matrix-vector
//! product is made of, and the blocked, packed matrix multiply with its
//! packing routines and its register-tile kernel.
//!
//! Vectors and matrices are slices. A vector is a buffer and an increment;
//! a matrix is a column-major buffer and a leading dimension. Where the
//! convention hands over a pointer into a larger array, the caller hands
//! over the slice that starts there.
//!
//! Every contract gives the buffer after the call as a function of the
//! buffers before it, element by element, with the order of the additions
//! fixed. The element type is a [`Scalar`]; the crate verifies the kernels
//! for every scalar and the scalar's own operations for the integers
//! modulo 2^32 and 2^64.

use vstd::prelude::*;

pub mod generic;
pub mod layout;
pub mod level3;
pub mod scalar;

pub use generic::kernel::{
    combine_panel, d_pack_a, dcombine_1, dcombine_4, dgemm_8x4_packed, pack_a_panel, pack_b_panel,
    packed_tile, s_pack_a, scombine_1, scombine_4, sgemm_16x4_packed,
};
pub use generic::l1s::{isamax, sasum, saxpy, scopy, sdot, sdsdot, srot, sscal, sswap};
pub use level3::{gemm_unpacked, sgemm};
pub use scalar::{Extended, Scalar};
