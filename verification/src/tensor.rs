//! Tensor shapes and the on-disk layouts of tensor data: plain little-endian
//! `f32` values, and Q8_0 blocks of one `f16` scale followed by 32 signed
//! 8-bit quants.
use vstd::prelude::*;

use crate::gguf::{le_u16, le_u32};

verus! {

/// The product of a sequence of dimensions, as a mathematical integer.
pub open spec fn dims_product(dims: Seq<u64>) -> int
    decreases dims.len(),
{
    if dims.len() == 0 {
        1
    } else {
        dims_product(dims.drop_last()) * dims.last()
    }
}

/// Number of elements of a tensor with the given shape: the product of its dimensions.
pub fn total_elements(dims: &[u64]) -> (n: usize)
    requires
        forall|k: int| 0 <= k <= dims@.len() ==> #[trigger] dims_product(dims@.subrange(0, k)) <= u64::MAX,
    ensures
        n == dims_product(dims@) as u64 as usize,
{
    let mut prod: u64 = 1;
    let mut i: usize = 0;
    while i < dims.len()
        invariant
            i <= dims.len(),
            prod == dims_product(dims@.subrange(0, i as int)),
            forall|k: int| 0 <= k <= dims@.len() ==> #[trigger] dims_product(dims@.subrange(0, k)) <= u64::MAX,
        decreases dims.len() - i,
    {
        proof {
            assert(dims@.subrange(0, i + 1).drop_last() =~= dims@.subrange(0, i as int));
            assert(dims_product(dims@.subrange(0, i + 1)) <= u64::MAX);
        }
        prod = prod * dims[i];
        i = i + 1;
    }
    proof {
        assert(dims@.subrange(0, dims@.len() as int) =~= dims@);
    }
    prod as usize
}


/// GGML type id of plain `f32` tensors.
pub const GGML_TYPE_F32: u32 = 0;

/// GGML type id of Q8_0 tensors.
pub const GGML_TYPE_Q8_0: u32 = 8;

/// Weights per Q8_0 block.
pub const Q8_0_BLOCK_SIZE: usize = 32;

/// Bytes per Q8_0 block: a 2-byte `f16` scale and 32 one-byte quants.
pub const Q8_0_BLOCK_BYTES: usize = 34;

/// The quantization name of a GGML type id, `"unknown"` for the ids this
/// engine does not name.
pub fn dtype_name(dtype: u32) -> (r: &'static str)
    ensures
        r@ == (if dtype == 0 {
            "F32"@
        } else if dtype == 1 {
            "F16"@
        } else if dtype == 8 {
            "Q8_0"@
        } else {
            "unknown"@
        }),
{
    match dtype {
        0 => "F32",
        1 => "F16",
        8 => "Q8_0",
        _ => "unknown",
    }
}

/// The number of bytes a tensor of `n_elements` elements of type `dtype`
/// occupies on disk: 4 per element for F32, 34 per 32 elements for Q8_0.
/// Only F32 and Q8_0 tensors can be read, and a Q8_0 tensor must consist of
/// whole blocks.
pub fn tensor_byte_len(dtype: u32, n_elements: usize) -> (r: usize)
    requires
        dtype == GGML_TYPE_F32 || dtype == GGML_TYPE_Q8_0,
        dtype == GGML_TYPE_Q8_0 ==> n_elements % 32 == 0,
        dtype == GGML_TYPE_F32 ==> n_elements * 4 <= usize::MAX,
        dtype == GGML_TYPE_Q8_0 ==> n_elements / 32 * 34 <= usize::MAX,
    ensures
        dtype == GGML_TYPE_F32 ==> r == n_elements * 4,
        dtype == GGML_TYPE_Q8_0 ==> r == n_elements / 32 * 34,
{
    if dtype == GGML_TYPE_F32 {
        n_elements * 4
    } else {
        n_elements / Q8_0_BLOCK_SIZE * Q8_0_BLOCK_BYTES
    }
}

/// The bit patterns of the little-endian `f32` values in `bytes`, one per
/// whole group of 4 bytes.
pub fn decode_f32_bits(bytes: &[u8]) -> (r: Vec<u32>)
    ensures
        r@.len() == bytes@.len() / 4,
        forall|i: int| 0 <= i < r@.len() ==> #[trigger] r@[i] == le_u32(bytes@, 4 * i),
{
    let n = bytes.len() / 4;
    let mut out: Vec<u32> = Vec::new();
    let mut i: usize = 0;
    while i < n
        invariant
            n == bytes.len() / 4,
            i <= n,
            out@.len() == i,
            forall|j: int| 0 <= j < i ==> #[trigger] out@[j] == le_u32(bytes@, 4 * j),
        decreases n - i,
    {
        proof {
            assert(4 * i + 4 <= bytes.len()) by (nonlinear_arith)
                requires
                    i < n,
                    n == bytes.len() / 4,
            ;
        }
        let p = 4 * i;
        let x: u32 = bytes[p] as u32 + (bytes[p + 1] as u32) * 0x100 + (bytes[p + 2] as u32)
            * 0x1_0000 + (bytes[p + 3] as u32) * 0x100_0000;
        out.push(x);
        i = i + 1;
    }
    out
}

/// One Q8_0 block: the `f16` bit pattern of its scale and its 32 quants.
pub struct Q8Block {
    pub scale_bits: u16,
    pub quants: Vec<i8>,
}

/// The Q8_0 blocks in `bytes`, one per whole group of 34 bytes: a
/// little-endian `f16` scale, then 32 quants, each byte read as signed.
pub fn decode_q8_0_blocks(bytes: &[u8]) -> (r: Vec<Q8Block>)
    ensures
        r@.len() == bytes@.len() / 34,
        forall|b: int|
            0 <= b < r@.len() ==> {
                &&& (#[trigger] r@[b]).scale_bits == le_u16(bytes@, 34 * b)
                &&& r@[b].quants@.len() == 32
                &&& forall|j: int|
                    0 <= j < 32 ==> #[trigger] r@[b].quants@[j] == bytes@[34 * b + 2 + j] as i8
            },
{
    let n = bytes.len() / Q8_0_BLOCK_BYTES;
    let mut out: Vec<Q8Block> = Vec::new();
    let mut b: usize = 0;
    while b < n
        invariant
            n == bytes.len() / 34,
            b <= n,
            out@.len() == b,
            forall|k: int|
                0 <= k < b ==> {
                    &&& (#[trigger] out@[k]).scale_bits == le_u16(bytes@, 34 * k)
                    &&& out@[k].quants@.len() == 32
                    &&& forall|j: int|
                        0 <= j < 32 ==> #[trigger] out@[k].quants@[j] == bytes@[34 * k + 2 + j]
                            as i8
                },
        decreases n - b,
    {
        proof {
            assert(34 * b + 34 <= bytes.len()) by (nonlinear_arith)
                requires
                    b < n,
                    n == bytes.len() / 34,
            ;
        }
        let p = Q8_0_BLOCK_BYTES * b;
        let scale_bits: u16 = bytes[p] as u16 + (bytes[p + 1] as u16) * 0x100;
        let mut quants: Vec<i8> = Vec::new();
        let mut j: usize = 0;
        while j < Q8_0_BLOCK_SIZE
            invariant
                p == 34 * b,
                p + 34 <= bytes.len(),
                j <= 32,
                quants@.len() == j,
                forall|t: int| 0 <= t < j ==> #[trigger] quants@[t] == bytes@[p + 2 + t] as i8,
            decreases 32 - j,
        {
            quants.push(bytes[p + 2 + j] as i8);
            j = j + 1;
        }
        out.push(Q8Block { scale_bits, quants });
        b = b + 1;
    }
    out
}
} // verus!
