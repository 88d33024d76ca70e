//! Subframes: one channel's worth of one frame.  The types, the bit-level
//! subframe parser, and the signal reconstruction by fixed or FIR linear
//! prediction.

use vstd::prelude::*;

verus! {

use vstd::arithmetic::power2::pow2;
use crate::bits::{
    bits_value, leading_zeros, read_bits, read_signed_bits, signed_bits_value, stream_bit,
    BitCursor,
};
use crate::error::ErrorKind;
use crate::utility::{sat_add, sat_usize, zigzag_value};

/// Maximum order of the fixed predictors permitted by the format.
pub const MAX_FIXED_ORDER: usize = 4;

/// Maximum LPC order permitted by the format.
pub const MAX_LPC_ORDER: usize = 32;

/// Contents of a Rice partitioned residual: one Rice parameter and one
/// raw-bit width per partition.
#[derive(Debug, PartialEq, Eq)]
pub struct PartitionedRiceContents {
    /// The Rice parameter of each partition.
    pub parameters: Vec<u32>,
    /// The raw-bit width of each escaped partition, zero elsewhere.
    pub raw_bits: Vec<u32>,
}

/// The available entropy coding methods.
#[derive(Debug, PartialEq, Eq, Clone, Copy, Structural)]
pub enum CodingMethod {
    /// Coding partition with a 4-bit Rice parameter.
    PartitionedRice,
    /// Coding partition with a 5-bit Rice parameter.
    PartitionedRice2,
}

/// Header for a Rice partitioned residual.
#[derive(Debug, PartialEq, Eq)]
pub struct PartitionedRice {
    /// Partition order.
    pub order: u32,
    /// Rice parameters and raw bits for each partition.
    pub contents: PartitionedRiceContents,
}

/// Header for the entropy coding method.
#[derive(Debug, PartialEq, Eq)]
pub struct EntropyCodingMethod {
    /// The type of coding method being used.
    pub method_type: CodingMethod,
    /// Data for each entropy coding method partition.
    pub data: PartitionedRice,
}

/// Fixed linear prediction subframe.
#[derive(Debug, PartialEq, Eq)]
pub struct Fixed {
    /// Residual coding method.
    pub entropy_coding_method: EntropyCodingMethod,
    /// Polynomial order.
    pub order: u8,
    /// Samples used to warm up, or prime, the predictor.
    pub warmup: Vec<i64>,
    /// Remaining samples after the warm up samples.
    pub residual: Vec<i64>,
}

/// Finite Impulse Response (FIR) linear prediction subframe.
#[derive(Debug, PartialEq, Eq)]
pub struct LPC {
    /// Residual coding method.
    pub entropy_coding_method: EntropyCodingMethod,
    /// FIR order.
    pub order: u8,
    /// Quantized FIR filter coefficient precision in bits.
    pub qlp_coeff_precision: u8,
    /// Quantized linear predictor coefficient shift needed in bits.
    pub quantization_level: i8,
    /// FIR filter coefficients.
    pub qlp_coefficients: Vec<i32>,
    /// Samples used to warm up, or prime, the predictor.
    pub warmup: Vec<i64>,
    /// Remaining samples after the warm up samples.
    pub residual: Vec<i64>,
}

/// General enum that holds all the different subframe data types.
#[derive(Debug, PartialEq, Eq)]
pub enum Data {
    /// A single value that represents a constant subframe.
    Constant(i64),
    /// An uncompressed subframe.
    Verbatim(Vec<i64>),
    /// Fixed linear prediction subframe.
    Fixed(Fixed),
    /// FIR linear prediction subframe.
    LPC(LPC),
}

/// A single channel of audio data.
#[derive(Debug, PartialEq, Eq)]
pub struct Subframe {
    /// Data containing one of the four different types of subframes.
    pub data: Data,
    /// Number of wasted bits within each sample.
    pub wasted_bits: u32,
}

impl PartitionedRiceContents {
    /// Parameter and raw-bit storage for `capacity` partitions, zeroed.
    pub fn new(capacity: usize) -> (r: PartitionedRiceContents)
        ensures
            r.parameters@ == Seq::new(capacity as nat, |i: int| 0u32),
            r.raw_bits@ == Seq::new(capacity as nat, |i: int| 0u32),
    {
        let mut parameters: Vec<u32> = Vec::new();
        let mut raw_bits: Vec<u32> = Vec::new();
        let mut i: usize = 0;
        while i < capacity
            invariant
                i <= capacity,
                parameters@ == Seq::new(i as nat, |k: int| 0u32),
                raw_bits@ == Seq::new(i as nat, |k: int| 0u32),
            decreases capacity - i,
        {
            parameters.push(0);
            raw_bits.push(0);
            proof {
                assert(Seq::new((i + 1) as nat, |k: int| 0u32) =~= Seq::new(
                    i as nat,
                    |k: int| 0u32,
                ).push(0u32));
            }
            i += 1;
        }
        PartitionedRiceContents { parameters, raw_bits }
    }
}

// ---------------------------------------------------------------------
// Mathematical views
// ---------------------------------------------------------------------

/// The mathematical shape of the per-partition residual contents.
pub struct PartitionedRiceContentsView {
    pub parameters: Seq<u32>,
    pub raw_bits: Seq<u32>,
}

impl View for PartitionedRiceContents {
    type V = PartitionedRiceContentsView;

    open spec fn view(&self) -> PartitionedRiceContentsView {
        PartitionedRiceContentsView { parameters: self.parameters@, raw_bits: self.raw_bits@ }
    }
}

/// The mathematical shape of a partitioned Rice header.
pub struct PartitionedRiceView {
    pub order: u32,
    pub contents: PartitionedRiceContentsView,
}

impl View for PartitionedRice {
    type V = PartitionedRiceView;

    open spec fn view(&self) -> PartitionedRiceView {
        PartitionedRiceView { order: self.order, contents: self.contents@ }
    }
}

/// The mathematical shape of an entropy coding method.
pub struct EntropyCodingMethodView {
    pub method_type: CodingMethod,
    pub data: PartitionedRiceView,
}

impl View for EntropyCodingMethod {
    type V = EntropyCodingMethodView;

    open spec fn view(&self) -> EntropyCodingMethodView {
        EntropyCodingMethodView { method_type: self.method_type, data: self.data@ }
    }
}

/// The mathematical shape of a fixed-prediction subframe.
pub struct FixedView {
    pub entropy_coding_method: EntropyCodingMethodView,
    pub order: u8,
    pub warmup: Seq<i64>,
    pub residual: Seq<i64>,
}

impl View for Fixed {
    type V = FixedView;

    open spec fn view(&self) -> FixedView {
        FixedView {
            entropy_coding_method: self.entropy_coding_method@,
            order: self.order,
            warmup: self.warmup@,
            residual: self.residual@,
        }
    }
}

/// The mathematical shape of an LPC subframe.
pub struct LpcView {
    pub entropy_coding_method: EntropyCodingMethodView,
    pub order: u8,
    pub qlp_coeff_precision: u8,
    pub quantization_level: i8,
    pub qlp_coefficients: Seq<i32>,
    pub warmup: Seq<i64>,
    pub residual: Seq<i64>,
}

impl View for LPC {
    type V = LpcView;

    open spec fn view(&self) -> LpcView {
        LpcView {
            entropy_coding_method: self.entropy_coding_method@,
            order: self.order,
            qlp_coeff_precision: self.qlp_coeff_precision,
            quantization_level: self.quantization_level,
            qlp_coefficients: self.qlp_coefficients@,
            warmup: self.warmup@,
            residual: self.residual@,
        }
    }
}

/// The mathematical shape of any subframe body.
pub enum SubframeDataView {
    Constant(i64),
    Verbatim(Seq<i64>),
    Fixed(FixedView),
    LPC(LpcView),
}

impl View for Data {
    type V = SubframeDataView;

    open spec fn view(&self) -> SubframeDataView {
        match self {
            Data::Constant(c) => SubframeDataView::Constant(*c),
            Data::Verbatim(v) => SubframeDataView::Verbatim(v@),
            Data::Fixed(f) => SubframeDataView::Fixed(f@),
            Data::LPC(l) => SubframeDataView::LPC(l@),
        }
    }
}

/// The mathematical shape of a subframe.
pub struct SubframeView {
    pub data: SubframeDataView,
    pub wasted_bits: u32,
}

impl View for Subframe {
    type V = SubframeView;

    open spec fn view(&self) -> SubframeView {
        SubframeView { data: self.data@, wasted_bits: self.wasted_bits }
    }
}

// ---------------------------------------------------------------------
// Signal reconstruction, specified
// ---------------------------------------------------------------------

/// The signal that a fixed-prediction subframe denotes at index `i`: the
/// warm-up samples first, then each sample is its residual plus the fixed
/// polynomial extrapolation of the previous `order` samples.
pub open spec fn fixed_signal(warmup: Seq<i64>, residual: Seq<i64>, order: int, i: int) -> int
    decreases i,
{
    if i < order {
        warmup[i] as int
    } else if i < 0 || order < 0 || order > 4 {
        0
    } else if order == 0 {
        residual[i] as int
    } else if order == 1 {
        residual[i - 1] + fixed_signal(warmup, residual, order, i - 1)
    } else if order == 2 {
        residual[i - 2] + 2 * fixed_signal(warmup, residual, order, i - 1) - fixed_signal(
            warmup,
            residual,
            order,
            i - 2,
        )
    } else if order == 3 {
        residual[i - 3] + 3 * fixed_signal(warmup, residual, order, i - 1) - 3 * fixed_signal(
            warmup,
            residual,
            order,
            i - 2,
        ) + fixed_signal(warmup, residual, order, i - 3)
    } else {
        residual[i - 4] + 4 * fixed_signal(warmup, residual, order, i - 1) - 6 * fixed_signal(
            warmup,
            residual,
            order,
            i - 2,
        ) + 4 * fixed_signal(warmup, residual, order, i - 3) - fixed_signal(
            warmup,
            residual,
            order,
            i - 4,
        )
    }
}

/// The FIR prediction sum over the first `j` taps: coefficients in reverse
/// order against the window of previous outputs starting at `base`.
pub open spec fn lpc_dot(coefs: Seq<i32>, out: Seq<int>, base: int, j: int) -> int
    decreases j,
{
    if j <= 0 {
        0
    } else {
        lpc_dot(coefs, out, base, j - 1) + coefs[coefs.len() - j] * out[base + j - 1]
    }
}

/// The first `n` output samples of an LPC subframe: the warm-up samples,
/// then each sample is its residual plus the shifted prediction from the
/// previous `order` samples.
pub open spec fn lpc_out_seq(
    warmup: Seq<i64>,
    residual: Seq<i64>,
    coefs: Seq<i32>,
    shift: nat,
    n: nat,
) -> Seq<int>
    decreases n,
{
    if n == 0 {
        Seq::empty()
    } else {
        let prev = lpc_out_seq(warmup, residual, coefs, shift, (n - 1) as nat);
        let i = n - 1;
        prev.push(
            if i < coefs.len() {
                warmup[i] as int
            } else {
                residual[i - coefs.len()] + lpc_dot(
                    coefs,
                    prev,
                    i - coefs.len(),
                    coefs.len() as int,
                ) / (pow2(shift) as int)
            },
        )
    }
}

/// The unshifted signal value of a subframe body at index `i`, for a block
/// of `bs` samples.
pub open spec fn sp_signal(d: SubframeDataView, bs: int, i: int) -> int {
    match d {
        SubframeDataView::Constant(c) => c as int,
        SubframeDataView::Verbatim(v) => v[i] as int,
        SubframeDataView::Fixed(f) => fixed_signal(f.warmup, f.residual, f.order as int, i),
        SubframeDataView::LPC(l) => lpc_out_seq(
            l.warmup,
            l.residual,
            l.qlp_coefficients,
            l.quantization_level as nat,
            bs as nat,
        )[i],
    }
}

/// The decoded output of a subframe at index `i`: the signal with the
/// wasted bits restored by a left shift.
pub open spec fn sp_subframe_output(sf: SubframeView, bs: int, i: int) -> int {
    sp_signal(sf.data, bs, i) * pow2(sf.wasted_bits as nat) as int
}

/// The structural conditions under which a subframe body describes a block
/// of `bs` samples: warm-up length equals the predictor order, the
/// residual covers the rest of the block, and the quantization shift is
/// non-negative.
pub open spec fn well_formed_data(d: SubframeDataView, bs: int) -> bool {
    match d {
        SubframeDataView::Constant(_) => true,
        SubframeDataView::Verbatim(v) => v.len() == bs,
        SubframeDataView::Fixed(f) => {
            &&& f.order <= 4
            &&& f.order <= bs
            &&& f.warmup.len() == f.order
            &&& f.residual.len() == bs - f.order
        },
        SubframeDataView::LPC(l) => {
            &&& 1 <= l.order <= 32
            &&& l.order <= bs
            &&& l.qlp_coefficients.len() == l.order
            &&& l.warmup.len() == l.order
            &&& l.residual.len() == bs - l.order
            &&& 0 <= l.quantization_level <= 31
        },
    }
}

/// Whether every reconstructed value of the subframe, before and after the
/// wasted-bits shift, stays within a 64-bit signed accumulator.
pub open spec fn decodable(sf: SubframeView, bs: int) -> bool {
    &&& well_formed_data(sf.data, bs)
    &&& sf.wasted_bits < 64
    &&& forall|i: int|
        0 <= i < bs ==> -0x8000_0000_0000_0000 <= #[trigger] sp_signal(sf.data, bs, i)
            < 0x8000_0000_0000_0000
    &&& forall|i: int|
        0 <= i < bs ==> -0x8000_0000_0000_0000 <= #[trigger] sp_subframe_output(sf, bs, i)
            < 0x8000_0000_0000_0000
}

/// The error kind that reports a failure in a body of this type.
pub open spec fn body_error(d: SubframeDataView) -> ErrorKind {
    match d {
        SubframeDataView::Constant(_) => ErrorKind::ConstantParser,
        SubframeDataView::Verbatim(_) => ErrorKind::VerbatimParser,
        SubframeDataView::Fixed(_) => ErrorKind::FixedParser,
        SubframeDataView::LPC(_) => ErrorKind::LPCParser,
    }
}

// ---------------------------------------------------------------------
// Signal reconstruction, executed
// ---------------------------------------------------------------------

/// Two to the given power as a 128-bit integer.
fn pow2_i128(e: u32) -> (r: i128)
    requires
        e < 126,
    ensures
        r == pow2(e as nat),
        r >= 1,
{
    proof {
        vstd::arithmetic::power2::lemma2_to64();
    }
    let mut r: i128 = 1;
    let mut k: u32 = 0;
    while k < e
        invariant
            k <= e < 126,
            r == pow2(k as nat),
            1 <= r,
        decreases e - k,
    {
        proof {
            vstd::arithmetic::power2::lemma_pow2_unfold((k + 1) as nat);
            if k + 1 < 127 {
                vstd::arithmetic::power2::lemma_pow2_strictly_increases((k + 1) as nat, 127);
            }
            assert(pow2(127) == 0x8000_0000_0000_0000_0000_0000_0000_0000) by {
                vstd::arithmetic::power2::lemma_pow2_adds(64, 63);
                vstd::arithmetic::power2::lemma2_to64();
                vstd::arithmetic::power2::lemma2_to64_rest();
            }
        }
        r = r * 2;
        k += 1;
    }
    r
}

/// Restore the original signal from a fixed linear prediction.
///
/// `output` holds the warm-up samples followed by the residual; each
/// residual entry is replaced by its reconstructed sample.  Returns false,
/// leaving the buffer in a partly-updated state, when a reconstructed
/// value would overflow the 64-bit accumulator.
pub fn fixed_restore_signal(order: usize, block_size: usize, output: &mut Vec<i64>) -> (r: bool)
    requires
        order <= 4,
        order <= block_size,
        old(output)@.len() == block_size,
    ensures
        r ==> forall|i: int|
            0 <= i < block_size ==> final(output)@[i] == fixed_signal(
                old(output)@.take(order as int),
                old(output)@.skip(order as int),
                order as int,
                i,
            ),
        r ==> final(output)@.len() == block_size,
        !r ==> exists|i: int|
            0 <= i < block_size && !(-0x8000_0000_0000_0000 <= #[trigger] fixed_signal(
                old(output)@.take(order as int),
                old(output)@.skip(order as int),
                order as int,
                i,
            ) < 0x8000_0000_0000_0000),
{
    let ghost warmup: Seq<i64> = output@.take(order as int);
    let ghost residual: Seq<i64> = output@.skip(order as int);
    let mut result: Vec<i64> = Vec::new();
    let mut i: usize = 0;
    while i < order
        invariant
            i <= order <= block_size,
            order <= 4,
            output@.len() == block_size,
            warmup == output@.take(order as int),
            residual == output@.skip(order as int),
            result@.len() == i,
            forall|k: int|
                0 <= k < i ==> result@[k] == fixed_signal(warmup, residual, order as int, k),
        decreases order - i,
    {
        result.push(output[i]);
        i += 1;
    }
    while i < block_size
        invariant
            order <= i <= block_size,
            order <= 4,
            output@.len() == block_size,
            warmup == output@.take(order as int),
            residual == output@.skip(order as int),
            result@.len() == i,
            forall|k: int|
                0 <= k < i ==> result@[k] == fixed_signal(warmup, residual, order as int, k),
        decreases block_size - i,
    {
        let res: i128 = output[i] as i128;
        proof {
            assert(residual[i - order] == output@[i as int]);
        }
        let prediction: i128 = if order == 0 {
            0
        } else if order == 1 {
            result[i - 1] as i128
        } else if order == 2 {
            2 * (result[i - 1] as i128) - (result[i - 2] as i128)
        } else if order == 3 {
            3 * (result[i - 1] as i128) - 3 * (result[i - 2] as i128) + (result[i - 3] as i128)
        } else {
            4 * (result[i - 1] as i128) - 6 * (result[i - 2] as i128) + 4 * (result[i
                - 3] as i128) - (result[i - 4] as i128)
        };
        let value: i128 = res + prediction;
        proof {
            assert(value == fixed_signal(warmup, residual, order as int, i as int));
        }
        if value < i64::MIN as i128 || value > i64::MAX as i128 {
            return false;
        }
        result.push(value as i64);
        i += 1;
    }
    *output = result;
    true
}

/// Restore the original signal from a FIR linear prediction.
///
/// `output` holds the warm-up samples followed by the residual; each
/// residual entry is replaced by its residual plus the coefficient dot
/// product over the previous samples, arithmetically shifted down by the
/// quantization level.  Returns false when a value would overflow the
/// 64-bit accumulator.
pub fn lpc_restore_signal(
    quantization_level: i8,
    block_size: usize,
    coefficients: &Vec<i32>,
    output: &mut Vec<i64>,
) -> (r: bool)
    requires
        0 <= quantization_level <= 31,
        1 <= coefficients@.len() <= 32,
        coefficients@.len() <= block_size,
        old(output)@.len() == block_size,
    ensures
        r ==> final(output)@.len() == block_size,
        r ==> forall|i: int|
            0 <= i < block_size ==> final(output)@[i] == lpc_out_seq(
                old(output)@.take(coefficients@.len() as int),
                old(output)@.skip(coefficients@.len() as int),
                coefficients@,
                quantization_level as nat,
                block_size as nat,
            )[i],
        !r ==> exists|i: int|
            0 <= i < block_size && !(-0x8000_0000_0000_0000 <= #[trigger] lpc_out_seq(
                old(output)@.take(coefficients@.len() as int),
                old(output)@.skip(coefficients@.len() as int),
                coefficients@,
                quantization_level as nat,
                block_size as nat,
            )[i] < 0x8000_0000_0000_0000),
{
    let order: usize = coefficients.len();
    let ghost warmup: Seq<i64> = output@.take(order as int);
    let ghost residual: Seq<i64> = output@.skip(order as int);
    let ghost shift: nat = quantization_level as nat;
    let ghost full: Seq<int> = lpc_out_seq(warmup, residual, coefficients@, shift, block_size as nat);
    proof {
        lemma_lpc_out_seq_len(warmup, residual, coefficients@, shift, block_size as nat);
        lemma_lpc_out_seq_prefix_all(warmup, residual, coefficients@, shift, block_size as nat);
    }
    let divisor: i128 = pow2_i128(quantization_level as u32);
    let mut result: Vec<i64> = Vec::new();
    let mut i: usize = 0;
    while i < order
        invariant
            i <= order <= block_size,
            1 <= order <= 32,
            order == coefficients@.len(),
            output@.len() == block_size,
            warmup == output@.take(order as int),
            residual == output@.skip(order as int),
            full == lpc_out_seq(warmup, residual, coefficients@, shift, block_size as nat),
            full.len() == block_size,
            forall|n: nat|
                n <= block_size ==> #[trigger] lpc_out_seq(
                    warmup,
                    residual,
                    coefficients@,
                    shift,
                    n,
                ) == full.take(n as int),
            result@.len() == i,
            forall|k: int| 0 <= k < i ==> result@[k] == full[k],
        decreases order - i,
    {
        proof {
            assert(full[i as int] == warmup[i as int]) by {
                assert(lpc_out_seq(warmup, residual, coefficients@, shift, (i + 1) as nat)
                    == full.take(i + 1 as int));
            }
        }
        result.push(output[i]);
        i += 1;
    }
    while i < block_size
        invariant
            order <= i <= block_size,
            1 <= order <= 32,
            order == coefficients@.len(),
            output@.len() == block_size,
            divisor == pow2(shift),
            divisor >= 1,
            shift == quantization_level as nat,
            warmup == output@.take(order as int),
            residual == output@.skip(order as int),
            full == lpc_out_seq(warmup, residual, coefficients@, shift, block_size as nat),
            full.len() == block_size,
            forall|n: nat|
                n <= block_size ==> #[trigger] lpc_out_seq(
                    warmup,
                    residual,
                    coefficients@,
                    shift,
                    n,
                ) == full.take(n as int),
            result@.len() == i,
            forall|k: int| 0 <= k < i ==> result@[k] == full[k],
        decreases block_size - i,
    {
        let ghost prev: Seq<int> = full.take(i as int);
        let mut sum: i128 = 0;
        let mut t: usize = 0;
        while t < order
            invariant
                t <= order <= i <= block_size,
                1 <= order <= 32,
                order == coefficients@.len(),
                result@.len() == i,
                forall|k: int| 0 <= k < i ==> result@[k] == full[k],
                prev == full.take(i as int),
                full.len() == block_size,
                sum == lpc_dot(coefficients@, prev, i - order as int, t as int),
                -((t as int) * 0x8000_0000_0000_0000_0000_0000) <= sum <= (t as int)
                    * 0x8000_0000_0000_0000_0000_0000,
            decreases order - t,
        {
            let c: i32 = coefficients[order - 1 - t];
            let s: i64 = result[i - order + t];
            proof {
                assert(result@[i - order + t] == prev[i - order + t]);
                assert((c as i128) * (s as i128) <= 0x8000_0000_0000_0000_0000_0000
                    && (c as i128) * (s as i128) >= -0x8000_0000_0000_0000_0000_0000)
                    by (nonlinear_arith)
                    requires
                        -0x8000_0000 <= c <= 0x7fff_ffff,
                        -0x8000_0000_0000_0000 <= s <= 0x7fff_ffff_ffff_ffff,
                ;
                assert(coefficients@[coefficients@.len() - (t + 1)] == coefficients@[
                    order - 1 - t as int]);
                assert(((t + 1) as int) * 0x8000_0000_0000_0000_0000_0000 == (t as int)
                    * 0x8000_0000_0000_0000_0000_0000 + 0x8000_0000_0000_0000_0000_0000)
                    by (nonlinear_arith);
            }
            sum = sum + (c as i128) * (s as i128);
            t += 1;
        }
        proof {
            assert((order as int) * 0x8000_0000_0000_0000_0000_0000
                <= 32 * 0x8000_0000_0000_0000_0000_0000) by (nonlinear_arith)
                requires
                    order <= 32,
            ;
        }
        let shifted: i128 = match sum.checked_div_euclid(divisor) {
            Some(v) => v,
            None => {
                proof {
                    assert(i128::MIN <= (sum as int) / (divisor as int) <= i128::MAX)
                        by (nonlinear_arith)
                        requires
                            divisor >= 1,
                            -0x10_0000_0000_0000_0000_0000_0000 <= sum
                                <= 0x10_0000_0000_0000_0000_0000_0000,
                    ;
                    assert(false);
                }
                0
            },
        };
        proof {
            assert(-0x10_0000_0000_0000_0000_0000_0000 <= (sum as int) / (divisor as int)
                <= 0x10_0000_0000_0000_0000_0000_0000) by (nonlinear_arith)
                requires
                    divisor >= 1,
                    -0x10_0000_0000_0000_0000_0000_0000 <= sum
                        <= 0x10_0000_0000_0000_0000_0000_0000,
            ;
        }
        let res: i64 = output[i];
        proof {
            assert(residual[i - order] == output@[i as int]);
        }
        let value: i128 = (res as i128) + shifted;
        proof {
            lemma_lpc_out_step(warmup, residual, coefficients@, shift, i as nat);
            assert(lpc_out_seq(warmup, residual, coefficients@, shift, (i + 1) as nat)
                == full.take(i + 1 as int));
            assert(lpc_out_seq(warmup, residual, coefficients@, shift, i as nat)
                == full.take(i as int));
            assert(full.take(i + 1 as int).last() == full[i as int]);
            assert(value == full[i as int]);
        }
        if value < i64::MIN as i128 || value > i64::MAX as i128 {
            return false;
        }
        result.push(value as i64);
        i += 1;
    }
    *output = result;
    true
}

proof fn lemma_lpc_out_step(
    warmup: Seq<i64>,
    residual: Seq<i64>,
    coefs: Seq<i32>,
    shift: nat,
    i: nat,
)
    requires
        i >= coefs.len(),
    ensures
        lpc_out_seq(warmup, residual, coefs, shift, (i + 1) as nat) == lpc_out_seq(
            warmup,
            residual,
            coefs,
            shift,
            i,
        ).push(
            residual[i - coefs.len()] + lpc_dot(
                coefs,
                lpc_out_seq(warmup, residual, coefs, shift, i),
                i - coefs.len(),
                coefs.len() as int,
            ) / (pow2(shift) as int),
        ),
{
    assert(lpc_out_seq(warmup, residual, coefs, shift, (i + 1) as nat) == lpc_out_seq(
        warmup,
        residual,
        coefs,
        shift,
        ((i + 1) - 1) as nat,
    ).push(
        residual[(i + 1) - 1 - coefs.len()] + lpc_dot(
            coefs,
            lpc_out_seq(warmup, residual, coefs, shift, ((i + 1) - 1) as nat),
            (i + 1) - 1 - coefs.len(),
            coefs.len() as int,
        ) / (pow2(shift) as int),
    ));
}

proof fn lemma_lpc_out_seq_len(
    warmup: Seq<i64>,
    residual: Seq<i64>,
    coefs: Seq<i32>,
    shift: nat,
    n: nat,
)
    ensures
        lpc_out_seq(warmup, residual, coefs, shift, n).len() == n,
    decreases n,
{
    if n > 0 {
        lemma_lpc_out_seq_len(warmup, residual, coefs, shift, (n - 1) as nat);
    }
}

proof fn lemma_lpc_out_seq_prefix(
    warmup: Seq<i64>,
    residual: Seq<i64>,
    coefs: Seq<i32>,
    shift: nat,
    n: nat,
    m: nat,
)
    requires
        n <= m,
    ensures
        lpc_out_seq(warmup, residual, coefs, shift, n) == lpc_out_seq(
            warmup,
            residual,
            coefs,
            shift,
            m,
        ).take(n as int),
    decreases m,
{
    lemma_lpc_out_seq_len(warmup, residual, coefs, shift, n);
    lemma_lpc_out_seq_len(warmup, residual, coefs, shift, m);
    if n == m {
        assert(lpc_out_seq(warmup, residual, coefs, shift, m).take(n as int) =~= lpc_out_seq(
            warmup,
            residual,
            coefs,
            shift,
            m,
        ));
    } else {
        lemma_lpc_out_seq_prefix(warmup, residual, coefs, shift, n, (m - 1) as nat);
        lemma_lpc_out_seq_len(warmup, residual, coefs, shift, (m - 1) as nat);
        assert(lpc_out_seq(warmup, residual, coefs, shift, m).take(n as int) =~= lpc_out_seq(
            warmup,
            residual,
            coefs,
            shift,
            (m - 1) as nat,
        ).take(n as int));
    }
}

proof fn lemma_lpc_out_seq_prefix_all(
    warmup: Seq<i64>,
    residual: Seq<i64>,
    coefs: Seq<i32>,
    shift: nat,
    m: nat,
)
    ensures
        forall|n: nat|
            n <= m ==> #[trigger] lpc_out_seq(warmup, residual, coefs, shift, n) == lpc_out_seq(
                warmup,
                residual,
                coefs,
                shift,
                m,
            ).take(n as int),
{
    assert forall|n: nat| n <= m implies #[trigger] lpc_out_seq(warmup, residual, coefs, shift, n)
        == lpc_out_seq(warmup, residual, coefs, shift, m).take(n as int) by {
        lemma_lpc_out_seq_prefix(warmup, residual, coefs, shift, n, m);
    }
}

/// The error kind that reports a failure in this body.
fn body_error_of(d: &Data) -> (r: ErrorKind)
    ensures
        r == body_error(d@),
{
    match d {
        Data::Constant(_) => ErrorKind::ConstantParser,
        Data::Verbatim(_) => ErrorKind::VerbatimParser,
        Data::Fixed(_) => ErrorKind::FixedParser,
        Data::LPC(_) => ErrorKind::LPCParser,
    }
}

/// The warm-up samples followed by the residual, as one buffer.
fn assemble(warmup: &Vec<i64>, residual: &Vec<i64>) -> (r: Vec<i64>)
    ensures
        r@ == warmup@ + residual@,
{
    let mut r: Vec<i64> = Vec::new();
    let mut i: usize = 0;
    while i < warmup.len()
        invariant
            i <= warmup@.len(),
            r@ == warmup@.take(i as int),
        decreases warmup@.len() - i,
    {
        r.push(warmup[i]);
        proof {
            assert(warmup@.take(i + 1 as int) =~= warmup@.take(i as int).push(warmup@[i as int]));
        }
        i += 1;
    }
    proof {
        assert(warmup@.take(warmup@.len() as int) =~= warmup@);
    }
    let mut j: usize = 0;
    while j < residual.len()
        invariant
            j <= residual@.len(),
            r@ == warmup@ + residual@.take(j as int),
        decreases residual@.len() - j,
    {
        r.push(residual[j]);
        proof {
            assert(warmup@ + residual@.take(j + 1 as int) =~= (warmup@ + residual@.take(
                j as int,
            )).push(residual@[j as int]));
        }
        j += 1;
    }
    proof {
        assert(warmup@ + residual@.take(residual@.len() as int) =~= warmup@ + residual@);
    }
    r
}

/// Decodes the current subframe into one block of samples.
///
/// A constant subframe repeats its value; a verbatim subframe is copied; a
/// fixed or LPC subframe has its signal restored by prediction.  The
/// wasted bits are then put back by a left shift.  Fails, with the error
/// kind of the body, when the subframe does not describe `block_size`
/// samples or a value overflows the 64-bit accumulator.
pub fn decode(subframe: &Subframe, block_size: usize) -> (r: Result<Vec<i64>, ErrorKind>)
    ensures
        match r {
            Ok(out) => {
                &&& decodable(subframe@, block_size as int)
                &&& out@.len() == block_size
                &&& forall|i: int|
                    0 <= i < block_size ==> out@[i] == sp_subframe_output(
                        subframe@,
                        block_size as int,
                        i,
                    )
            },
            Err(e) => !decodable(subframe@, block_size as int) && e == body_error(
                subframe@.data,
            ),
        },
{
    let ghost sv: SubframeView = subframe@;
    let ghost bs: int = block_size as int;
    if subframe.wasted_bits >= 64 {
        return Err(body_error_of(&subframe.data));
    }
    let mut base: Vec<i64> = Vec::new();
    match &subframe.data {
        Data::Constant(c) => {
            let value: i64 = *c;
            let mut i: usize = 0;
            while i < block_size
                invariant
                    i <= block_size,
                    base@.len() == i,
                    sv.data == SubframeDataView::Constant(value),
                    forall|k: int| 0 <= k < i ==> base@[k] == sp_signal(sv.data, bs, k),
                decreases block_size - i,
            {
                base.push(value);
                i += 1;
            }
        },
        Data::Verbatim(v) => {
            if v.len() != block_size {
                return Err(ErrorKind::VerbatimParser);
            }
            let mut i: usize = 0;
            while i < block_size
                invariant
                    i <= block_size,
                    base@.len() == i,
                    sv.data == SubframeDataView::Verbatim(v@),
                    v@.len() == block_size,
                    forall|k: int| 0 <= k < i ==> base@[k] == sp_signal(sv.data, bs, k),
                decreases block_size - i,
            {
                base.push(v[i]);
                i += 1;
            }
        },
        Data::Fixed(f) => {
            let order: usize = f.order as usize;
            if order > 4 || order > block_size {
                return Err(ErrorKind::FixedParser);
            }
            if f.warmup.len() != order || f.residual.len() != block_size - order {
                return Err(ErrorKind::FixedParser);
            }
            base = assemble(&f.warmup, &f.residual);
            proof {
                assert(base@.take(order as int) =~= f.warmup@);
                assert(base@.skip(order as int) =~= f.residual@);
            }
            let ok: bool = fixed_restore_signal(order, block_size, &mut base);
            if !ok {
                proof {
                    let wi = choose|i: int|
                        0 <= i < block_size && !(-0x8000_0000_0000_0000 <= #[trigger] fixed_signal(
                            f.warmup@,
                            f.residual@,
                            order as int,
                            i,
                        ) < 0x8000_0000_0000_0000);
                    assert(sp_signal(sv.data, bs, wi) == fixed_signal(
                        f.warmup@,
                        f.residual@,
                        order as int,
                        wi,
                    ));
                    assert(!decodable(sv, bs));
                }
                return Err(ErrorKind::FixedParser);
            }
        },
        Data::LPC(l) => {
            let order: usize = l.order as usize;
            if order < 1 || order > 32 || order > block_size {
                return Err(ErrorKind::LPCParser);
            }
            if l.quantization_level < 0 || l.quantization_level > 31 {
                return Err(ErrorKind::LPCParser);
            }
            if l.qlp_coefficients.len() != order || l.warmup.len() != order
                || l.residual.len() != block_size - order {
                return Err(ErrorKind::LPCParser);
            }
            base = assemble(&l.warmup, &l.residual);
            proof {
                assert(base@.take(order as int) =~= l.warmup@);
                assert(base@.skip(order as int) =~= l.residual@);
                lemma_lpc_out_seq_len(
                    l.warmup@,
                    l.residual@,
                    l.qlp_coefficients@,
                    l.quantization_level as nat,
                    block_size as nat,
                );
            }
            let ok: bool = lpc_restore_signal(
                l.quantization_level,
                block_size,
                &l.qlp_coefficients,
                &mut base,
            );
            if !ok {
                proof {
                    let wi = choose|i: int|
                        0 <= i < block_size && !(-0x8000_0000_0000_0000 <= #[trigger] lpc_out_seq(
                            l.warmup@,
                            l.residual@,
                            l.qlp_coefficients@,
                            l.quantization_level as nat,
                            block_size as nat,
                        )[i] < 0x8000_0000_0000_0000);
                    assert(sp_signal(sv.data, bs, wi) == lpc_out_seq(
                        l.warmup@,
                        l.residual@,
                        l.qlp_coefficients@,
                        l.quantization_level as nat,
                        block_size as nat,
                    )[wi]);
                    assert(!decodable(sv, bs));
                }
                return Err(ErrorKind::LPCParser);
            }
        },
    }
    proof {
        assert(well_formed_data(sv.data, bs));
        assert(base@.len() == block_size);
        assert(forall|k: int| 0 <= k < block_size ==> base@[k] == sp_signal(sv.data, bs, k));
    }
    proof {
        assert forall|i: int|
            0 <= i < block_size implies -0x8000_0000_0000_0000 <= #[trigger] sp_signal(
            sv.data,
            bs,
            i,
        ) < 0x8000_0000_0000_0000 by {
            assert(base@[i] == sp_signal(sv.data, bs, i));
        }
    }
    let wasted: u32 = subframe.wasted_bits;
    if wasted == 0 {
        proof {
            vstd::arithmetic::power2::lemma2_to64();
            assert(pow2(sv.wasted_bits as nat) == 1);
            assert forall|i: int|
                0 <= i < block_size implies #[trigger] sp_subframe_output(sv, bs, i) == sp_signal(
                sv.data,
                bs,
                i,
            ) by {
                assert(sp_signal(sv.data, bs, i) * (pow2(sv.wasted_bits as nat) as int)
                    == sp_signal(sv.data, bs, i)) by (nonlinear_arith)
                    requires
                        pow2(sv.wasted_bits as nat) == 1,
                ;
            }
            assert(decodable(sv, bs));
        }
        return Ok(base);
    }
    let mult: i128 = pow2_i128(wasted);
    proof {
        vstd::arithmetic::power2::lemma2_to64();
        vstd::arithmetic::power2::lemma2_to64_rest();
        if (wasted as nat) < 63 {
            vstd::arithmetic::power2::lemma_pow2_strictly_increases(wasted as nat, 63);
        }
    }
    let mut out: Vec<i64> = Vec::new();
    let mut i: usize = 0;
    while i < block_size
        invariant
            i <= block_size,
            base@.len() == block_size,
            bs == block_size as int,
            sv == subframe@,
            mult == pow2(sv.wasted_bits as nat),
            1 <= mult <= 0x8000_0000_0000_0000,
            out@.len() == i,
            forall|k: int| 0 <= k < block_size ==> base@[k] == sp_signal(sv.data, bs, k),
            forall|k: int| 0 <= k < i ==> out@[k] == sp_subframe_output(sv, bs, k),
        decreases block_size - i,
    {
        let v: i64 = base[i];
        proof {
            assert((v as i128) * mult <= 0x4000_0000_0000_0000_0000_0000_0000_0000
                && (v as i128) * mult >= -0x4000_0000_0000_0000_0000_0000_0000_0000)
                by (nonlinear_arith)
                requires
                    -0x8000_0000_0000_0000 <= v <= 0x7fff_ffff_ffff_ffff,
                    1 <= mult <= 0x8000_0000_0000_0000,
            ;
        }
        let shifted: i128 = (v as i128) * mult;
        if shifted < i64::MIN as i128 || shifted > i64::MAX as i128 {
            proof {
                assert(sp_subframe_output(sv, bs, i as int) == shifted);
            }
            return Err(body_error_of(&subframe.data));
        }
        out.push(shifted as i64);
        i += 1;
    }
    proof {
        assert forall|i: int|
            0 <= i < block_size implies -0x8000_0000_0000_0000 <= #[trigger] sp_subframe_output(
            sv,
            bs,
            i,
        ) < 0x8000_0000_0000_0000 by {
            assert(out@[i] == sp_subframe_output(sv, bs, i));
        }
        assert(decodable(sv, bs));
    }
    Ok(out)
}

// ---------------------------------------------------------------------
// Bit-level subframe parsing, specified
// ---------------------------------------------------------------------

/// The least number of whole bytes that makes `count` bits available from
/// bit position `pos`.
pub open spec fn bits_needed(pos: int, count: int) -> usize {
    sat_usize((pos + count + 7) / 8)
}

proof fn lemma_bits_needed(c: BitCursor, count: int)
    requires
        c.wf(),
        0 <= count,
    ensures
        sat_usize(c.byte + (c.bit + count + 7) / 8) == bits_needed(c.pos(), count),
{
    assert((c.byte * 8 + c.bit + count + 7) / 8 == c.byte + (c.bit + count + 7) / 8)
        by (nonlinear_arith)
        requires
            c.bit < 8,
            0 <= count,
            c.byte >= 0,
    ;
}

/// The needed-byte count for `count` more bits at the cursor.
fn need(cur: BitCursor, count: usize) -> (r: usize)
    requires
        cur.wf(),
        count <= 64,
    ensures
        r == bits_needed(cur.pos(), count as int),
{
    proof {
        lemma_bits_needed(cur, count as int);
    }
    sat_add(cur.byte, (cur.bit + count + 7) / 8)
}

/// The position of the first one bit at or after `pos`, or the total bit
/// length when the rest of the buffer is all zeros.
pub open spec fn first_one(s: Seq<u8>, pos: int) -> int
    decreases 8 * s.len() - pos,
{
    if pos >= 8 * s.len() {
        8 * s.len() as int
    } else if stream_bit(s, pos) == 1 {
        pos
    } else {
        first_one(s, pos + 1)
    }
}

proof fn lemma_first_one_found(s: Seq<u8>, pos: int, n: int)
    requires
        0 <= pos,
        0 <= n,
        pos + n < 8 * s.len(),
        forall|i: int| pos <= i < pos + n ==> stream_bit(s, i) == 0,
        stream_bit(s, pos + n) == 1,
    ensures
        first_one(s, pos) == pos + n,
    decreases n,
{
    if n > 0 {
        lemma_first_one_found(s, pos + 1, n - 1);
    }
}

proof fn lemma_first_one_none(s: Seq<u8>, pos: int)
    requires
        0 <= pos,
        forall|i: int| pos <= i < 8 * s.len() ==> stream_bit(s, i) == 0,
    ensures
        first_one(s, pos) == 8 * s.len(),
    decreases 8 * s.len() - pos,
{
    if pos < 8 * s.len() {
        lemma_first_one_none(s, pos + 1);
    }
}

/// What the optional wasted-bits prefix denotes: a unary zero run whose
/// length plus one is the wasted-bit count.
pub open spec fn sp_wasted(s: Seq<u8>, pos: int, flag: bool) -> Result<(int, int), ErrorKind> {
    if !flag {
        Ok((0, pos))
    } else {
        let fo = first_one(s, pos);
        if fo == 8 * s.len() {
            Err(ErrorKind::Incomplete(sat_usize(s.len() as int + 1)))
        } else {
            Ok((fo - pos + 1, fo + 1))
        }
    }
}

/// The first `n` two's-complement samples of the given width.
pub open spec fn sp_signed_samples(s: Seq<u8>, pos: int, width: nat, n: nat) -> Result<
    (Seq<i64>, int),
    ErrorKind,
>
    decreases n,
{
    if n == 0 {
        Ok((Seq::empty(), pos))
    } else {
        match sp_signed_samples(s, pos, width, (n - 1) as nat) {
            Err(e) => Err(e),
            Ok((v, p)) => {
                if p + width > 8 * s.len() {
                    Err(ErrorKind::Incomplete(bits_needed(p, width as int)))
                } else {
                    Ok((v.push(signed_bits_value(s, p, width) as i64), p + width))
                }
            },
        }
    }
}

proof fn lemma_sp_signed_samples_err(s: Seq<u8>, pos: int, width: nat, k: nat, n: nat, e: ErrorKind)
    requires
        k < n,
        sp_signed_samples(s, pos, width, k) is Ok,
        ({
            let p = sp_signed_samples(s, pos, width, k)->Ok_0.1;
            p + width > 8 * s.len() && e == ErrorKind::Incomplete(bits_needed(p, width as int))
        }),
    ensures
        sp_signed_samples(s, pos, width, n) == Err::<(Seq<i64>, int), ErrorKind>(e),
    decreases n,
{
    if n != k + 1 {
        lemma_sp_signed_samples_err(s, pos, width, k, (n - 1) as nat, e);
    }
}

proof fn lemma_signed_bits_range(s: Seq<u8>, pos: int, count: nat)
    requires
        count >= 1,
    ensures
        -(pow2((count - 1) as nat) as int) <= signed_bits_value(s, pos, count) < pow2(
            (count - 1) as nat,
        ),
{
    crate::bits::lemma_bits_value_bound(s, pos, count);
    vstd::arithmetic::power2::lemma_pow2_adds((count - 1) as nat, 1);
    vstd::arithmetic::power2::lemma2_to64();
}

/// Reads `n` two's-complement samples of the given width.
fn read_signed_samples(bytes: &[u8], cur: BitCursor, width: usize, n: usize) -> (r: Result<
    (Vec<i64>, BitCursor),
    ErrorKind,
>)
    requires
        cur.wf(),
        cur.byte <= bytes@.len(),
        1 <= width <= 34,
        8 * bytes@.len() <= usize::MAX,
    ensures
        match r {
            Ok((v, c2)) => sp_signed_samples(bytes@, cur.pos(), width as nat, n as nat) == Ok::<
                (Seq<i64>, int),
                ErrorKind,
            >((v@, c2.pos())) && c2.wf() && c2.byte <= bytes@.len() && v@.len() == n,
            Err(e) => sp_signed_samples(bytes@, cur.pos(), width as nat, n as nat) == Err::<
                (Seq<i64>, int),
                ErrorKind,
            >(e),
        },
{
    let mut v: Vec<i64> = Vec::new();
    let mut c: BitCursor = cur;
    let mut k: usize = 0;
    while k < n
        invariant
            k <= n,
            c.wf(),
            c.byte <= bytes@.len(),
            1 <= width <= 34,
            8 * bytes@.len() <= usize::MAX,
            v@.len() == k,
            sp_signed_samples(bytes@, cur.pos(), width as nat, k as nat) == Ok::<
                (Seq<i64>, int),
                ErrorKind,
            >((v@, c.pos())),
        decreases n - k,
    {
        match read_signed_bits(bytes, c, width) {
            Some((x, c2)) => {
                v.push(x);
                c = c2;
            },
            None => {
                let needed: usize = need(c, width);
                proof {
                    lemma_sp_signed_samples_err(
                        bytes@,
                        cur.pos(),
                        width as nat,
                        k as nat,
                        n as nat,
                        ErrorKind::Incomplete(needed),
                    );
                }
                return Err(ErrorKind::Incomplete(needed));
            },
        }
        k += 1;
    }
    Ok((v, c))
}

/// One Rice-coded residual: a unary quotient, a fixed-width remainder, and
/// the zig-zag decoding of their combination.
pub open spec fn sp_rice_sample(s: Seq<u8>, pos: int, param: nat) -> Result<(i64, int), ErrorKind> {
    let fo = first_one(s, pos);
    if fo == 8 * s.len() {
        Err(ErrorKind::Incomplete(sat_usize(s.len() as int + 1)))
    } else {
        let q = fo - pos;
        let p2 = fo + 1;
        if p2 + param > 8 * s.len() {
            Err(ErrorKind::Incomplete(bits_needed(p2, param as int)))
        } else {
            let v = q * pow2(param) + bits_value(s, p2, param);
            if v > u64::MAX {
                Err(ErrorKind::LeadingZerosParser)
            } else {
                Ok((zigzag_value(v as u64) as i64, p2 + param))
            }
        }
    }
}

/// The first `n` Rice-coded residuals.
pub open spec fn sp_rice_samples(s: Seq<u8>, pos: int, param: nat, n: nat) -> Result<
    (Seq<i64>, int),
    ErrorKind,
>
    decreases n,
{
    if n == 0 {
        Ok((Seq::empty(), pos))
    } else {
        match sp_rice_samples(s, pos, param, (n - 1) as nat) {
            Err(e) => Err(e),
            Ok((v, p)) => match sp_rice_sample(s, p, param) {
                Err(e) => Err(e),
                Ok((x, p2)) => Ok((v.push(x), p2)),
            },
        }
    }
}

proof fn lemma_sp_rice_samples_err(s: Seq<u8>, pos: int, param: nat, k: nat, n: nat, e: ErrorKind)
    requires
        k < n,
        sp_rice_samples(s, pos, param, k) is Ok,
        sp_rice_sample(s, sp_rice_samples(s, pos, param, k)->Ok_0.1, param) == Err::<
            (i64, int),
            ErrorKind,
        >(e),
    ensures
        sp_rice_samples(s, pos, param, n) == Err::<(Seq<i64>, int), ErrorKind>(e),
    decreases n,
{
    if n != k + 1 {
        lemma_sp_rice_samples_err(s, pos, param, k, (n - 1) as nat, e);
    }
}

/// Reads one Rice-coded residual.
fn read_rice_sample(bytes: &[u8], cur: BitCursor, param: usize) -> (r: Result<
    (i64, BitCursor),
    ErrorKind,
>)
    requires
        cur.wf(),
        cur.byte <= bytes@.len(),
        param <= 31,
        8 * bytes@.len() <= usize::MAX,
    ensures
        match r {
            Ok((x, c2)) => sp_rice_sample(bytes@, cur.pos(), param as nat) == Ok::<
                (i64, int),
                ErrorKind,
            >((x, c2.pos())) && c2.wf() && c2.byte <= bytes@.len(),
            Err(e) => sp_rice_sample(bytes@, cur.pos(), param as nat) == Err::<
                (i64, int),
                ErrorKind,
            >(e),
        },
{
    let (q, c1) = match leading_zeros(bytes, cur) {
        Some(v) => v,
        None => {
            proof {
                lemma_first_one_none(bytes@, cur.pos());
            }
            return Err(ErrorKind::Incomplete(sat_add(bytes.len(), 1)));
        },
    };
    proof {
        lemma_first_one_found(bytes@, cur.pos(), q as int);
    }
    let (rem, c2) = match read_bits(bytes, c1, param) {
        Some(v) => v,
        None => {
            let needed: usize = need(c1, param);
            return Err(ErrorKind::Incomplete(needed));
        },
    };
    proof {
        vstd::arithmetic::power2::lemma2_to64();
        if (param as nat) < 32 {
            vstd::arithmetic::power2::lemma_pow2_strictly_increases(param as nat, 32);
        }
        vstd::bits::lemma_u64_shl_is_mul(1u64, param as u64);
    }
    let modulus: u64 = 1u64 << (param as u64);
    let scaled: u64 = match (q as u64).checked_mul(modulus) {
        Some(v) => v,
        None => {
            proof {
                assert((q as int) * (modulus as int) + bits_value(bytes@, c1.pos(), param as nat)
                    > u64::MAX) by (nonlinear_arith)
                    requires
                        (q as int) * (modulus as int) > u64::MAX,
                        bits_value(bytes@, c1.pos(), param as nat) >= 0,
                ;
            }
            return Err(ErrorKind::LeadingZerosParser);
        },
    };
    let value: u64 = match scaled.checked_add(rem) {
        Some(v) => v,
        None => {
            return Err(ErrorKind::LeadingZerosParser);
        },
    };
    let x: i64 = crate::utility::zigzag_decode(value);
    Ok((x, c2))
}

/// Reads `n` Rice-coded residuals.
fn read_rice_samples(bytes: &[u8], cur: BitCursor, param: usize, n: usize) -> (r: Result<
    (Vec<i64>, BitCursor),
    ErrorKind,
>)
    requires
        cur.wf(),
        cur.byte <= bytes@.len(),
        param <= 31,
        8 * bytes@.len() <= usize::MAX,
    ensures
        match r {
            Ok((v, c2)) => sp_rice_samples(bytes@, cur.pos(), param as nat, n as nat) == Ok::<
                (Seq<i64>, int),
                ErrorKind,
            >((v@, c2.pos())) && c2.wf() && c2.byte <= bytes@.len() && v@.len() == n,
            Err(e) => sp_rice_samples(bytes@, cur.pos(), param as nat, n as nat) == Err::<
                (Seq<i64>, int),
                ErrorKind,
            >(e),
        },
{
    let mut v: Vec<i64> = Vec::new();
    let mut c: BitCursor = cur;
    let mut k: usize = 0;
    while k < n
        invariant
            k <= n,
            c.wf(),
            c.byte <= bytes@.len(),
            param <= 31,
            8 * bytes@.len() <= usize::MAX,
            v@.len() == k,
            sp_rice_samples(bytes@, cur.pos(), param as nat, k as nat) == Ok::<
                (Seq<i64>, int),
                ErrorKind,
            >((v@, c.pos())),
        decreases n - k,
    {
        match read_rice_sample(bytes, c, param) {
            Ok((x, c2)) => {
                v.push(x);
                c = c2;
            },
            Err(e) => {
                proof {
                    lemma_sp_rice_samples_err(
                        bytes@,
                        cur.pos(),
                        param as nat,
                        k as nat,
                        n as nat,
                        e,
                    );
                }
                return Err(e);
            },
        }
        k += 1;
    }
    Ok((v, c))
}

/// What one residual partition denotes: its parameter, then either raw
/// fixed-width samples after an escape code or Rice-coded samples.
pub open spec fn sp_partition(s: Seq<u8>, pos: int, param_size: nat, count: nat) -> Result<
    ((u32, u32, Seq<i64>), int),
    ErrorKind,
> {
    if pos + param_size > 8 * s.len() {
        Err(ErrorKind::Incomplete(bits_needed(pos, param_size as int)))
    } else {
        let param = bits_value(s, pos, param_size);
        let p1 = pos + param_size;
        if param == pow2(param_size) - 1 {
            if p1 + 5 > 8 * s.len() {
                Err(ErrorKind::Incomplete(bits_needed(p1, 5)))
            } else {
                let rb = bits_value(s, p1, 5);
                let p2 = p1 + 5;
                if rb == 0 {
                    Ok(((param as u32, 0u32, Seq::new(count, |i: int| 0i64)), p2))
                } else {
                    match sp_signed_samples(s, p2, rb, count) {
                        Err(e) => Err(e),
                        Ok((v, p3)) => Ok(((param as u32, rb as u32, v), p3)),
                    }
                }
            }
        } else {
            match sp_rice_samples(s, p1, param, count) {
                Err(e) => Err(e),
                Ok((v, p2)) => Ok(((param as u32, 0u32, v), p2)),
            }
        }
    }
}

/// Reads one residual partition.
fn read_partition(bytes: &[u8], cur: BitCursor, param_size: usize, count: usize) -> (r: Result<
    ((u32, u32, Vec<i64>), BitCursor),
    ErrorKind,
>)
    requires
        cur.wf(),
        cur.byte <= bytes@.len(),
        param_size == 4 || param_size == 5,
        8 * bytes@.len() <= usize::MAX,
    ensures
        match r {
            Ok(((pr, rb, v), c2)) => sp_partition(bytes@, cur.pos(), param_size as nat, count as nat)
                == Ok::<((u32, u32, Seq<i64>), int), ErrorKind>(((pr, rb, v@), c2.pos()))
                && c2.wf() && c2.byte <= bytes@.len() && v@.len() == count,
            Err(e) => sp_partition(bytes@, cur.pos(), param_size as nat, count as nat) == Err::<
                ((u32, u32, Seq<i64>), int),
                ErrorKind,
            >(e),
        },
{
    proof {
        vstd::arithmetic::power2::lemma2_to64();
    }
    let (param, c1) = match read_bits(bytes, cur, param_size) {
        Some(v) => v,
        None => {
            let needed: usize = need(cur, param_size);
            return Err(ErrorKind::Incomplete(needed));
        },
    };
    let escape: u64 = if param_size == 4 {
        15
    } else {
        31
    };
    if param == escape {
        let (rb, c2) = match read_bits(bytes, c1, 5) {
            Some(v) => v,
            None => {
                let needed: usize = need(c1, 5);
                return Err(ErrorKind::Incomplete(needed));
            },
        };
        proof {
            crate::bits::lemma_bits_value_bound(bytes@, c1.pos(), 5);
        }
        if rb == 0 {
            let mut v: Vec<i64> = Vec::new();
            let mut k: usize = 0;
            while k < count
                invariant
                    k <= count,
                    v@ == Seq::new(k as nat, |i: int| 0i64),
                decreases count - k,
            {
                v.push(0);
                proof {
                    assert(Seq::new((k + 1) as nat, |i: int| 0i64) =~= Seq::new(
                        k as nat,
                        |i: int| 0i64,
                    ).push(0i64));
                }
                k += 1;
            }
            Ok(((param as u32, 0u32, v), c2))
        } else {
            match read_signed_samples(bytes, c2, rb as usize, count) {
                Ok((v, c3)) => Ok(((param as u32, rb as u32, v), c3)),
                Err(e) => Err(e),
            }
        }
    } else {
        proof {
            crate::bits::lemma_bits_value_bound(bytes@, cur.pos(), param_size as nat);
        }
        match read_rice_samples(bytes, c1, param as usize, count) {
            Ok((v, c2)) => Ok(((param as u32, 0u32, v), c2)),
            Err(e) => Err(e),
        }
    }
}

/// The first `k` residual partitions: the first partition holds the
/// predictor order fewer samples than the common chunk size.
pub open spec fn sp_partitions(
    s: Seq<u8>,
    pos: int,
    param_size: nat,
    chunk: nat,
    order: nat,
    k: nat,
) -> Result<((Seq<u32>, Seq<u32>, Seq<i64>), int), ErrorKind>
    decreases k,
{
    if k == 0 {
        Ok(((Seq::empty(), Seq::empty(), Seq::empty()), pos))
    } else {
        match sp_partitions(s, pos, param_size, chunk, order, (k - 1) as nat) {
            Err(e) => Err(e),
            Ok(((ps, rs, vs), p)) => {
                let count = if k - 1 == 0 {
                    (chunk - order) as nat
                } else {
                    chunk
                };
                match sp_partition(s, p, param_size, count) {
                    Err(e) => Err(e),
                    Ok(((pr, rb, v), p2)) => Ok(((ps.push(pr), rs.push(rb), vs + v), p2)),
                }
            },
        }
    }
}

proof fn lemma_sp_partitions_err(
    s: Seq<u8>,
    pos: int,
    param_size: nat,
    chunk: nat,
    order: nat,
    k: nat,
    n: nat,
    e: ErrorKind,
)
    requires
        k < n,
        sp_partitions(s, pos, param_size, chunk, order, k) is Ok,
        sp_partition(
            s,
            sp_partitions(s, pos, param_size, chunk, order, k)->Ok_0.1,
            param_size,
            if k == 0 {
                (chunk - order) as nat
            } else {
                chunk
            },
        ) == Err::<((u32, u32, Seq<i64>), int), ErrorKind>(e),
    ensures
        sp_partitions(s, pos, param_size, chunk, order, n) == Err::<
            ((Seq<u32>, Seq<u32>, Seq<i64>), int),
            ErrorKind,
        >(e),
    decreases n,
{
    if n != k + 1 {
        lemma_sp_partitions_err(s, pos, param_size, chunk, order, k, (n - 1) as nat, e);
    }
}

/// What the residual section denotes: a two-bit coding method, a four-bit
/// partition order, then the partitions.  The block must divide evenly
/// into the partitions and the first partition must have room for the
/// warm-up samples.
pub open spec fn sp_residual(
    s: Seq<u8>,
    pos: int,
    order: nat,
    block_size: nat,
    err: ErrorKind,
) -> Result<((CodingMethod, u32, Seq<u32>, Seq<u32>, Seq<i64>), int), ErrorKind> {
    if pos + 2 > 8 * s.len() {
        Err(ErrorKind::Incomplete(bits_needed(pos, 2)))
    } else {
        let m = bits_value(s, pos, 2);
        if m >= 2 {
            Err(err)
        } else {
            let method = if m == 0 {
                CodingMethod::PartitionedRice
            } else {
                CodingMethod::PartitionedRice2
            };
            let param_size: nat = if m == 0 {
                4
            } else {
                5
            };
            if pos + 6 > 8 * s.len() {
                Err(ErrorKind::Incomplete(bits_needed(pos + 2, 4)))
            } else {
                let k = bits_value(s, pos + 2, 4);
                let parts = pow2(k);
                if block_size % parts != 0 || block_size / parts < order {
                    Err(err)
                } else {
                    match sp_partitions(s, pos + 6, param_size, block_size / parts, order, parts) {
                        Err(e) => Err(e),
                        Ok(((ps, rs, vs), p)) => Ok(((method, k as u32, ps, rs, vs), p)),
                    }
                }
            }
        }
    }
}

/// Reads the residual section of a fixed or LPC subframe.
#[verifier::rlimit(60)]
fn read_residual(
    bytes: &[u8],
    cur: BitCursor,
    order: usize,
    block_size: usize,
    err: ErrorKind,
) -> (r: Result<((CodingMethod, u32, Vec<u32>, Vec<u32>, Vec<i64>), BitCursor), ErrorKind>)
    requires
        cur.wf(),
        cur.byte <= bytes@.len(),
        8 * bytes@.len() <= usize::MAX,
    ensures
        match r {
            Ok(((method, po, ps, rs, vs), c2)) => sp_residual(
                bytes@,
                cur.pos(),
                order as nat,
                block_size as nat,
                err,
            ) == Ok::<((CodingMethod, u32, Seq<u32>, Seq<u32>, Seq<i64>), int), ErrorKind>(
                ((method, po, ps@, rs@, vs@), c2.pos()),
            ) && c2.wf() && c2.byte <= bytes@.len(),
            Err(e) => sp_residual(bytes@, cur.pos(), order as nat, block_size as nat, err)
                == Err::<((CodingMethod, u32, Seq<u32>, Seq<u32>, Seq<i64>), int), ErrorKind>(e),
        },
{
    let (m, c1) = match read_bits(bytes, cur, 2) {
        Some(v) => v,
        None => {
            let needed: usize = need(cur, 2);
            return Err(ErrorKind::Incomplete(needed));
        },
    };
    if m >= 2 {
        return Err(err);
    }
    let method: CodingMethod = if m == 0 {
        CodingMethod::PartitionedRice
    } else {
        CodingMethod::PartitionedRice2
    };
    let param_size: usize = if m == 0 {
        4
    } else {
        5
    };
    let (k, c2) = match read_bits(bytes, c1, 4) {
        Some(v) => v,
        None => {
            let needed: usize = need(c1, 4);
            return Err(ErrorKind::Incomplete(needed));
        },
    };
    proof {
        crate::bits::lemma_bits_value_bound(bytes@, c1.pos(), 4);
        vstd::arithmetic::power2::lemma2_to64();
        if (k as nat) < 16 {
            vstd::arithmetic::power2::lemma_pow2_strictly_increases(k as nat, 16);
        }
        vstd::bits::lemma_u32_shl_is_mul(1u32, k as u32);
    }
    let parts: usize = (1u32 << (k as u32)) as usize;
    if block_size % parts != 0 || block_size / parts < order {
        return Err(err);
    }
    let chunk: usize = block_size / parts;
    let ghost start: int = c2.pos();
    let mut parameters: Vec<u32> = Vec::new();
    let mut raw_bits: Vec<u32> = Vec::new();
    let mut residual: Vec<i64> = Vec::new();
    let mut c: BitCursor = c2;
    let mut idx: usize = 0;
    while idx < parts
        invariant
            idx <= parts,
            c.wf(),
            c.byte <= bytes@.len(),
            8 * bytes@.len() <= usize::MAX,
            param_size == 4 || param_size == 5,
            order <= chunk,
            sp_residual(bytes@, cur.pos(), order as nat, block_size as nat, err) == (match
                sp_partitions(
                bytes@,
                start,
                param_size as nat,
                chunk as nat,
                order as nat,
                parts as nat,
            ) {
                Ok(((ps, rs, vs), p)) => Ok::<
                    ((CodingMethod, u32, Seq<u32>, Seq<u32>, Seq<i64>), int),
                    ErrorKind,
                >(((method, k as u32, ps, rs, vs), p)),
                Err(e) => Err::<
                    ((CodingMethod, u32, Seq<u32>, Seq<u32>, Seq<i64>), int),
                    ErrorKind,
                >(e),
            }),
            sp_partitions(
                bytes@,
                start,
                param_size as nat,
                chunk as nat,
                order as nat,
                idx as nat,
            ) == Ok::<((Seq<u32>, Seq<u32>, Seq<i64>), int), ErrorKind>(
                ((parameters@, raw_bits@, residual@), c.pos()),
            ),
        decreases parts - idx,
    {
        let count: usize = if idx == 0 {
            chunk - order
        } else {
            chunk
        };
        match read_partition(bytes, c, param_size, count) {
            Ok(((pr, rb, v), c3)) => {
                let ghost old_res: Seq<i64> = residual@;
                parameters.push(pr);
                raw_bits.push(rb);
                let mut t: usize = 0;
                while t < v.len()
                    invariant
                        t <= v@.len(),
                        residual@ == old_res + v@.take(t as int),
                    decreases v@.len() - t,
                {
                    residual.push(v[t]);
                    proof {
                        assert(old_res + v@.take(t + 1 as int) =~= (old_res + v@.take(
                            t as int,
                        )).push(v@[t as int]));
                    }
                    t += 1;
                }
                proof {
                    assert(v@.take(v@.len() as int) =~= v@);
                }
                c = c3;
            },
            Err(e) => {
                proof {
                    lemma_sp_partitions_err(
                        bytes@,
                        start,
                        param_size as nat,
                        chunk as nat,
                        order as nat,
                        idx as nat,
                        parts as nat,
                        e,
                    );
                }
                return Err(e);
            },
        }
        idx += 1;
    }
    Ok(((method, k as u32, parameters, raw_bits, residual), c))
}

// ---------------------------------------------------------------------
// The subframe parser
// ---------------------------------------------------------------------

/// What the subframe header byte denotes: the type code and the
/// wasted-bits flag.  The top bit must be zero.
pub open spec fn sp_subframe_header(s: Seq<u8>, pos: int) -> Result<((int, bool), int), ErrorKind> {
    if pos + 8 > 8 * s.len() {
        Err(ErrorKind::Incomplete(bits_needed(pos, 8)))
    } else {
        let b = bits_value(s, pos, 8);
        if b >= 128 {
            Err(ErrorKind::SubframeHeaderParser)
        } else {
            Ok(((b as int / 2, b % 2 == 1), pos + 8))
        }
    }
}

/// Parses the subframe header byte: a zero top bit, six type bits, and the
/// wasted-bits flag.
pub fn header(input: &[u8], cur: BitCursor) -> (r: Result<((usize, bool), BitCursor), ErrorKind>)
    requires
        cur.wf(),
        cur.byte <= input@.len(),
        8 * input@.len() <= usize::MAX,
    ensures
        match r {
            Ok(((ty, flag), c2)) => sp_subframe_header(input@, cur.pos()) == Ok::<
                ((int, bool), int),
                ErrorKind,
            >(((ty as int, flag), c2.pos())) && c2.wf() && c2.byte <= input@.len(),
            Err(e) => sp_subframe_header(input@, cur.pos()) == Err::<
                ((int, bool), int),
                ErrorKind,
            >(e),
        },
{
    let (b, c2) = match read_bits(input, cur, 8) {
        Some(v) => v,
        None => {
            let needed: usize = need(cur, 8);
            return Err(ErrorKind::Incomplete(needed));
        },
    };
    proof {
        crate::bits::lemma_bits_value_bound(input@, cur.pos(), 8);
        vstd::arithmetic::power2::lemma2_to64();
    }
    if b >= 128 {
        return Err(ErrorKind::SubframeHeaderParser);
    }
    let ty: usize = ((b >> 1u64) & 0x3f) as usize;
    let flag: bool = (b & 1) == 1;
    proof {
        assert(b < 128 ==> ((b >> 1u64) & 0x3f) == b / 2 && ((b & 1) == 1) == (b % 2 == 1))
            by (bit_vector);
    }
    Ok(((ty, flag), c2))
}

/// What a CONSTANT body denotes: one sample of the effective width.
pub open spec fn sp_constant(s: Seq<u8>, pos: int, eff: nat) -> Result<
    (SubframeDataView, int),
    ErrorKind,
> {
    if pos + eff > 8 * s.len() {
        Err(ErrorKind::Incomplete(bits_needed(pos, eff as int)))
    } else {
        Ok((SubframeDataView::Constant(signed_bits_value(s, pos, eff) as i64), pos + eff))
    }
}

/// Parses a CONSTANT subframe body.
pub fn constant(input: &[u8], cur: BitCursor, bits_per_sample: usize) -> (r: Result<
    (Data, BitCursor),
    ErrorKind,
>)
    requires
        cur.wf(),
        cur.byte <= input@.len(),
        1 <= bits_per_sample <= 34,
        8 * input@.len() <= usize::MAX,
    ensures
        match r {
            Ok((d, c2)) => sp_constant(input@, cur.pos(), bits_per_sample as nat) == Ok::<
                (SubframeDataView, int),
                ErrorKind,
            >((d@, c2.pos())) && c2.wf() && c2.byte <= input@.len(),
            Err(e) => sp_constant(input@, cur.pos(), bits_per_sample as nat) == Err::<
                (SubframeDataView, int),
                ErrorKind,
            >(e),
        },
{
    match read_signed_bits(input, cur, bits_per_sample) {
        Some((x, c2)) => Ok((Data::Constant(x), c2)),
        None => {
            let needed: usize = need(cur, bits_per_sample);
            Err(ErrorKind::Incomplete(needed))
        },
    }
}

/// What a VERBATIM body denotes: `block_size` samples of the effective
/// width.
pub open spec fn sp_verbatim(s: Seq<u8>, pos: int, eff: nat, bs: nat) -> Result<
    (SubframeDataView, int),
    ErrorKind,
> {
    match sp_signed_samples(s, pos, eff, bs) {
        Err(e) => Err(e),
        Ok((v, p)) => Ok((SubframeDataView::Verbatim(v), p)),
    }
}

/// Parses a VERBATIM subframe body.
pub fn verbatim(input: &[u8], cur: BitCursor, bits_per_sample: usize, block_size: usize) -> (r:
    Result<(Data, BitCursor), ErrorKind>)
    requires
        cur.wf(),
        cur.byte <= input@.len(),
        1 <= bits_per_sample <= 34,
        8 * input@.len() <= usize::MAX,
    ensures
        match r {
            Ok((d, c2)) => sp_verbatim(
                input@,
                cur.pos(),
                bits_per_sample as nat,
                block_size as nat,
            ) == Ok::<(SubframeDataView, int), ErrorKind>((d@, c2.pos())) && c2.wf()
                && c2.byte <= input@.len(),
            Err(e) => sp_verbatim(input@, cur.pos(), bits_per_sample as nat, block_size as nat)
                == Err::<(SubframeDataView, int), ErrorKind>(e),
        },
{
    match read_signed_samples(input, cur, bits_per_sample, block_size) {
        Ok((v, c2)) => Ok((Data::Verbatim(v), c2)),
        Err(e) => Err(e),
    }
}

/// What a FIXED body denotes: the warm-up samples, then the residual
/// partitions.
pub open spec fn sp_fixed(s: Seq<u8>, pos: int, order: nat, eff: nat, bs: nat) -> Result<
    (SubframeDataView, int),
    ErrorKind,
> {
    if order > bs {
        Err(ErrorKind::FixedParser)
    } else {
        match sp_signed_samples(s, pos, eff, order) {
            Err(e) => Err(e),
            Ok((w, p)) => match sp_residual(s, p, order, bs, ErrorKind::FixedParser) {
                Err(e) => Err(e),
                Ok(((method, k, ps, rs, vs), p2)) => Ok(
                    (
                        SubframeDataView::Fixed(
                            FixedView {
                                entropy_coding_method: EntropyCodingMethodView {
                                    method_type: method,
                                    data: PartitionedRiceView {
                                        order: k,
                                        contents: PartitionedRiceContentsView {
                                            parameters: ps,
                                            raw_bits: rs,
                                        },
                                    },
                                },
                                order: order as u8,
                                warmup: w,
                                residual: vs,
                            },
                        ),
                        p2,
                    ),
                ),
            },
        }
    }
}

/// Parses a FIXED subframe body of the given predictor order.
pub fn fixed(
    input: &[u8],
    cur: BitCursor,
    order: usize,
    bits_per_sample: usize,
    block_size: usize,
) -> (r: Result<(Data, BitCursor), ErrorKind>)
    requires
        cur.wf(),
        cur.byte <= input@.len(),
        1 <= bits_per_sample <= 34,
        order <= 255,
        8 * input@.len() <= usize::MAX,
    ensures
        match r {
            Ok((d, c2)) => sp_fixed(
                input@,
                cur.pos(),
                order as nat,
                bits_per_sample as nat,
                block_size as nat,
            ) == Ok::<(SubframeDataView, int), ErrorKind>((d@, c2.pos())) && c2.wf()
                && c2.byte <= input@.len(),
            Err(e) => sp_fixed(
                input@,
                cur.pos(),
                order as nat,
                bits_per_sample as nat,
                block_size as nat,
            ) == Err::<(SubframeDataView, int), ErrorKind>(e),
        },
{
    if order > block_size {
        return Err(ErrorKind::FixedParser);
    }
    let (warmup, c1) = match read_signed_samples(input, cur, bits_per_sample, order) {
        Ok(v) => v,
        Err(e) => {
            return Err(e);
        },
    };
    match read_residual(input, c1, order, block_size, ErrorKind::FixedParser) {
        Err(e) => Err(e),
        Ok(((method, k, parameters, raw_bits, residual), c2)) => Ok(
            (
                Data::Fixed(
                    Fixed {
                        entropy_coding_method: EntropyCodingMethod {
                            method_type: method,
                            data: PartitionedRice {
                                order: k,
                                contents: PartitionedRiceContents { parameters, raw_bits },
                            },
                        },
                        order: order as u8,
                        warmup,
                        residual,
                    },
                ),
                c2,
            ),
        ),
    }
}

/// What an LPC body denotes: the warm-up samples, the coefficient
/// precision (fifteen is reserved), the quantization shift, the
/// coefficients, then the residual partitions.
pub open spec fn sp_lpc(s: Seq<u8>, pos: int, order: nat, eff: nat, bs: nat) -> Result<
    (SubframeDataView, int),
    ErrorKind,
> {
    if order > bs {
        Err(ErrorKind::LPCParser)
    } else {
        match sp_signed_samples(s, pos, eff, order) {
            Err(e) => Err(e),
            Ok((w, p)) => {
                if p + 4 > 8 * s.len() {
                    Err(ErrorKind::Incomplete(bits_needed(p, 4)))
                } else {
                    let nib = bits_value(s, p, 4);
                    if nib == 15 {
                        Err(ErrorKind::LPCParser)
                    } else {
                        let precision = (nib + 1) as nat;
                        if p + 9 > 8 * s.len() {
                            Err(ErrorKind::Incomplete(bits_needed(p + 4, 5)))
                        } else {
                            let q = signed_bits_value(s, p + 4, 5);
                            match sp_signed_samples(s, p + 9, precision, order) {
                                Err(e) => Err(e),
                                Ok((coefs, p2)) => match sp_residual(
                                    s,
                                    p2,
                                    order,
                                    bs,
                                    ErrorKind::LPCParser,
                                ) {
                                    Err(e) => Err(e),
                                    Ok(((method, k, ps, rs, vs), p3)) => Ok(
                                        (
                                            SubframeDataView::LPC(
                                                LpcView {
                                                    entropy_coding_method: EntropyCodingMethodView {
                                                        method_type: method,
                                                        data: PartitionedRiceView {
                                                            order: k,
                                                            contents: PartitionedRiceContentsView {
                                                                parameters: ps,
                                                                raw_bits: rs,
                                                            },
                                                        },
                                                    },
                                                    order: order as u8,
                                                    qlp_coeff_precision: precision as u8,
                                                    quantization_level: q as i8,
                                                    qlp_coefficients: coefs.map_values(
                                                        |x: i64| x as i32,
                                                    ),
                                                    warmup: w,
                                                    residual: vs,
                                                },
                                            ),
                                            p3,
                                        ),
                                    ),
                                },
                            }
                        }
                    }
                }
            },
        }
    }
}


/// Reads the quantized predictor coefficients at the given precision.
fn read_coefficients(input: &[u8], cur: BitCursor, precision: usize, order: usize) -> (r: Result<
    (Vec<i32>, BitCursor),
    ErrorKind,
>)
    requires
        cur.wf(),
        cur.byte <= input@.len(),
        1 <= precision <= 15,
        8 * input@.len() <= usize::MAX,
    ensures
        match r {
            Ok((v, c2)) => {
                &&& sp_signed_samples(input@, cur.pos(), precision as nat, order as nat)
                    is Ok
                &&& ({
                    let (coefs, p2) = sp_signed_samples(
                        input@,
                        cur.pos(),
                        precision as nat,
                        order as nat,
                    )->Ok_0;
                    v@ == coefs.map_values(|x: i64| x as i32) && c2.pos() == p2
                })
                &&& c2.wf()
                &&& c2.byte <= input@.len()
            },
            Err(e) => sp_signed_samples(input@, cur.pos(), precision as nat, order as nat)
                == Err::<(Seq<i64>, int), ErrorKind>(e),
        },
{
    let ghost coef_start: int = cur.pos();
    let mut v: Vec<i32> = Vec::new();
    let mut c: BitCursor = cur;
    let mut k: usize = 0;
    proof {
        assert(v@.map_values(|x: i32| x as i64) =~= Seq::<i64>::empty());
    }
    while k < order
        invariant
            k <= order,
            c.wf(),
            c.byte <= input@.len(),
            1 <= precision <= 15,
            8 * input@.len() <= usize::MAX,
            coef_start == cur.pos(),
            v@.len() == k,
            sp_signed_samples(input@, coef_start, precision as nat, k as nat) == Ok::<
                (Seq<i64>, int),
                ErrorKind,
            >((v@.map_values(|x: i32| x as i64), c.pos())),
        decreases order - k,
    {
        match read_signed_bits(input, c, precision) {
            Some((x, c4)) => {
                proof {
                    lemma_signed_bits_range(input@, c.pos(), precision as nat);
                    vstd::arithmetic::power2::lemma2_to64();
                    if ((precision - 1) as nat) < 31 {
                        vstd::arithmetic::power2::lemma_pow2_strictly_increases(
                            (precision - 1) as nat,
                            31,
                        );
                    }
                    let ghost before: Seq<i64> = v@.map_values(|y: i32| y as i64);
                    assert(v@.push(x as i32).map_values(|y: i32| y as i64) =~= before.push(x));
                }
                v.push(x as i32);
                c = c4;
            },
            None => {
                let needed: usize = need(c, precision);
                proof {
                    lemma_sp_signed_samples_err(
                        input@,
                        coef_start,
                        precision as nat,
                        k as nat,
                        order as nat,
                        ErrorKind::Incomplete(needed),
                    );
                }
                return Err(ErrorKind::Incomplete(needed));
            },
        }
        k += 1;
    }
    proof {
        let spec_coefs = sp_signed_samples(
            input@,
            coef_start,
            precision as nat,
            order as nat,
        )->Ok_0.0;
        assert(spec_coefs.map_values(|x: i64| x as i32) =~= v@);
    }
    Ok((v, c))
}

/// Parses an LPC subframe body of the given predictor order.
pub fn lpc(
    input: &[u8],
    cur: BitCursor,
    order: usize,
    bits_per_sample: usize,
    block_size: usize,
) -> (r: Result<(Data, BitCursor), ErrorKind>)
    requires
        cur.wf(),
        cur.byte <= input@.len(),
        1 <= bits_per_sample <= 34,
        order <= 255,
        8 * input@.len() <= usize::MAX,
    ensures
        match r {
            Ok((d, c2)) => sp_lpc(
                input@,
                cur.pos(),
                order as nat,
                bits_per_sample as nat,
                block_size as nat,
            ) == Ok::<(SubframeDataView, int), ErrorKind>((d@, c2.pos())) && c2.wf()
                && c2.byte <= input@.len(),
            Err(e) => sp_lpc(
                input@,
                cur.pos(),
                order as nat,
                bits_per_sample as nat,
                block_size as nat,
            ) == Err::<(SubframeDataView, int), ErrorKind>(e),
        },
{
    if order > block_size {
        return Err(ErrorKind::LPCParser);
    }
    let (warmup, c1) = match read_signed_samples(input, cur, bits_per_sample, order) {
        Ok(v) => v,
        Err(e) => {
            return Err(e);
        },
    };
    let (nib, c2) = match read_bits(input, c1, 4) {
        Some(v) => v,
        None => {
            let needed: usize = need(c1, 4);
            return Err(ErrorKind::Incomplete(needed));
        },
    };
    if nib == 15 {
        return Err(ErrorKind::LPCParser);
    }
    proof {
        crate::bits::lemma_bits_value_bound(input@, c1.pos(), 4);
        vstd::arithmetic::power2::lemma2_to64();
    }
    let precision: usize = (nib as usize) + 1;
    let (q, c3) = match read_signed_bits(input, c2, 5) {
        Some(v) => v,
        None => {
            let needed: usize = need(c2, 5);
            return Err(ErrorKind::Incomplete(needed));
        },
    };
    proof {
        lemma_signed_bits_range(input@, c2.pos(), 5);
    }
    let quantization_level: i8 = q as i8;
    let (qlp_coefficients, c) = match read_coefficients(input, c3, precision, order) {
        Ok(v) => v,
        Err(e) => {
            return Err(e);
        },
    };
    match read_residual(input, c, order, block_size, ErrorKind::LPCParser) {
        Err(e) => Err(e),
        Ok(((method, po, parameters, raw_bits, residual), c5)) => Ok(
            (
                Data::LPC(
                    LPC {
                        entropy_coding_method: EntropyCodingMethod {
                            method_type: method,
                            data: PartitionedRice {
                                order: po,
                                contents: PartitionedRiceContents { parameters, raw_bits },
                            },
                        },
                        order: order as u8,
                        qlp_coeff_precision: precision as u8,
                        quantization_level,
                        qlp_coefficients,
                        warmup,
                        residual,
                    },
                ),
                c5,
            ),
        ),
    }
}

/// What a whole subframe denotes: the header byte, the optional wasted-bits
/// prefix, then the body of the coded type read at the effective sample
/// width.
pub open spec fn sp_subframe(s: Seq<u8>, pos: int, bps: nat, bs: nat) -> Result<
    (SubframeView, int),
    ErrorKind,
> {
    match sp_subframe_header(s, pos) {
        Err(e) => Err(e),
        Ok(((ty, flag), p0)) => match sp_wasted(s, p0, flag) {
            Err(e) => Err(e),
            Ok((w, p1)) => {
                if w >= bps {
                    Err(ErrorKind::SubframeHeaderParser)
                } else {
                    let eff = (bps - w) as nat;
                    let body = if ty == 0 {
                        sp_constant(s, p1, eff)
                    } else if ty == 1 {
                        sp_verbatim(s, p1, eff, bs)
                    } else if 8 <= ty <= 12 {
                        sp_fixed(s, p1, (ty - 8) as nat, eff, bs)
                    } else if 32 <= ty <= 63 {
                        sp_lpc(s, p1, (ty - 31) as nat, eff, bs)
                    } else {
                        Err(ErrorKind::SubframeHeaderParser)
                    };
                    match body {
                        Err(e) => Err(e),
                        Ok((d, p2)) => Ok(
                            (SubframeView { data: d, wasted_bits: w as u32 }, p2),
                        ),
                    }
                }
            },
        },
    }
}

/// Parses a single channel of audio data at the given effective sample
/// width and block size.
pub fn subframe_parser(
    input: &[u8],
    cur: BitCursor,
    bits_per_sample: usize,
    block_size: usize,
) -> (r: Result<(Subframe, BitCursor), ErrorKind>)
    requires
        cur.wf(),
        cur.byte <= input@.len(),
        1 <= bits_per_sample <= 34,
        8 * input@.len() <= usize::MAX,
    ensures
        match r {
            Ok((sf, c2)) => sp_subframe(
                input@,
                cur.pos(),
                bits_per_sample as nat,
                block_size as nat,
            ) == Ok::<(SubframeView, int), ErrorKind>((sf@, c2.pos())) && c2.wf()
                && c2.byte <= input@.len(),
            Err(e) => sp_subframe(input@, cur.pos(), bits_per_sample as nat, block_size as nat)
                == Err::<(SubframeView, int), ErrorKind>(e),
        },
{
    let ((ty, flag), c0) = match header(input, cur) {
        Ok(v) => v,
        Err(e) => {
            return Err(e);
        },
    };
    let (wasted, c1) = if flag {
        match leading_zeros(input, c0) {
            Some((n, c1)) => {
                proof {
                    lemma_first_one_found(input@, c0.pos(), n as int);
                }
                (n + 1, c1)
            },
            None => {
                proof {
                    lemma_first_one_none(input@, c0.pos());
                }
                return Err(ErrorKind::Incomplete(sat_add(input.len(), 1)));
            },
        }
    } else {
        (0, c0)
    };
    if wasted >= bits_per_sample {
        return Err(ErrorKind::SubframeHeaderParser);
    }
    let eff: usize = bits_per_sample - wasted;
    let body = if ty == 0 {
        constant(input, c1, eff)
    } else if ty == 1 {
        verbatim(input, c1, eff, block_size)
    } else if 8 <= ty && ty <= 12 {
        fixed(input, c1, ty - 8, eff, block_size)
    } else if 32 <= ty && ty <= 63 {
        lpc(input, c1, ty - 31, eff, block_size)
    } else {
        return Err(ErrorKind::SubframeHeaderParser);
    };
    match body {
        Err(e) => Err(e),
        Ok((data, c2)) => Ok((Subframe { data, wasted_bits: wasted as u32 }, c2)),
    }
}

} // verus!
