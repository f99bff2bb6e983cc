//! How much smaller a quantized vector is.

use vstd::prelude::*;

verus! {

/// A ratio of two sizes, kept exact.
#[derive(Debug, Clone, Copy, PartialEq, Eq, Structural)]
pub struct Ratio {
    pub original: u128,
    pub compressed: u128,
}

impl Ratio {
    /// The whole part of the ratio.
    pub fn whole(self) -> (times: u128)
        requires
            self.compressed > 0,
        ensures
            times == self.original / self.compressed,
    {
        self.original / self.compressed
    }
}

/// The ratio of a vector of 32-bit coordinates to its quantized form, both
/// measured in bits.
pub fn compression_ratio(dim: usize, bits: usize) -> (ratio: Ratio)
    requires
        dim * 4 <= usize::MAX,
        dim * bits <= usize::MAX,
    ensures
        ratio.original == dim * 32,
        ratio.compressed == dim * bits,
{
    let original: usize = dim * 4;
    let compressed: usize = dim * bits;
    Ratio { original: (original as u128) * 8, compressed: compressed as u128 }
}

/// The ratio does not depend on the dimension: it is 32 to the bits kept.
pub proof fn law_ratio_is_bits(dim: int, bits: int)
    requires
        dim > 0,
        bits > 0,
    ensures
        (dim * 32) * bits == 32 * (dim * bits),
        (dim * 32) / (dim * bits) == 32int / bits,
{
    assert((dim * 32) * bits == 32 * (dim * bits)) by (nonlinear_arith);
    vstd::arithmetic::div_mod::lemma_div_multiples_vanish_quotient(dim, 32, bits);
}

/// What quantizing does to vectors of one dimension.
#[derive(Debug, Clone, Copy, PartialEq, Eq, Structural)]
pub struct CompressionInfo {
    pub dim: usize,
    pub bits: usize,
    pub ratio: Ratio,
    pub original_bytes_per_vec: usize,
    pub compressed_bytes_per_vec: usize,
}

/// The bytes that hold `n` bits.
pub open spec fn bytes_for_bits(n: int) -> int {
    (n + 7) / 8
}

impl CompressionInfo {
    /// The sizes of a vector with 32-bit coordinates and of its quantized form.
    pub open spec fn describes(self, dim: int, bits: int) -> bool {
        &&& self.dim == dim
        &&& self.bits == bits
        &&& self.original_bytes_per_vec == dim * 4
        &&& self.compressed_bytes_per_vec == bytes_for_bits(dim * bits)
        &&& self.ratio.original == self.original_bytes_per_vec
        &&& self.ratio.compressed == self.compressed_bytes_per_vec
    }

    /// The sizes for one dimension and width.
    pub fn compute(dim: usize, bits: usize) -> (info: CompressionInfo)
        requires
            dim * 4 <= usize::MAX,
            dim * bits <= usize::MAX,
        ensures
            info.describes(dim as int, bits as int),
    {
        let original: usize = dim * 4;
        let packed: usize = dim * bits;
        let compressed: usize = if packed % 8 == 0 {
            packed / 8
        } else {
            packed / 8 + 1
        };
        CompressionInfo {
            dim,
            bits,
            ratio: Ratio { original: original as u128, compressed: compressed as u128 },
            original_bytes_per_vec: original,
            compressed_bytes_per_vec: compressed,
        }
    }

    /// The sizes for the usual dimensions, each at two and at four bits.
    pub fn table() -> (rows: Vec<CompressionInfo>)
        ensures
            rows@.len() == 8,
            forall|i: int|
                0 <= i < 8 ==> (#[trigger] rows@[i]).describes(
                    seq![384int, 768, 1024, 1536][i / 2],
                    if i % 2 == 0 {
                        2
                    } else {
                        4
                    },
                ),
    {
        let mut rows: Vec<CompressionInfo> = Vec::new();
        rows.push(CompressionInfo::compute(384, 2));
        rows.push(CompressionInfo::compute(384, 4));
        rows.push(CompressionInfo::compute(768, 2));
        rows.push(CompressionInfo::compute(768, 4));
        rows.push(CompressionInfo::compute(1024, 2));
        rows.push(CompressionInfo::compute(1024, 4));
        rows.push(CompressionInfo::compute(1536, 2));
        rows.push(CompressionInfo::compute(1536, 4));
        rows
    }
}

/// Where the quantized vector fills whole bytes, the ratio of the sizes in bytes
/// is 32 to the bits kept.
pub proof fn law_info_ratio(info: CompressionInfo, dim: int, bits: int)
    requires
        dim > 0,
        bits > 0,
        (dim * bits) % 8 == 0,
        info.describes(dim, bits),
    ensures
        info.ratio.original * bits == 32 * info.ratio.compressed,
{
    let n = dim * bits;
    assert(bytes_for_bits(n) * 8 == n);
    assert((dim * 4) * bits == 4 * n) by (nonlinear_arith)
        requires
            n == dim * bits,
    ;
}

/// The sizes are those of the vectors: the original takes 32 bits for each coordinate, and
/// the quantized one is as many bytes as its bits need, with less than a byte to spare. The
/// ratio is that of the two sizes.
pub proof fn law_info_sizes(info: CompressionInfo, dim: int, bits: int)
    requires
        dim >= 0,
        bits >= 0,
        info.describes(dim, bits),
    ensures
        info.original_bytes_per_vec * 8 == dim * 32,
        dim * bits <= info.compressed_bytes_per_vec * 8 < dim * bits + 8,
        info.ratio.original == info.original_bytes_per_vec,
        info.ratio.compressed == info.compressed_bytes_per_vec,
{
    assert(dim * bits >= 0) by (nonlinear_arith)
        requires
            dim >= 0,
            bits >= 0,
    ;
}

} // verus!
