//! Structural fingerprints of tunable operations, and the rule that decides
//! which candidate implementations may run for one.
use vstd::prelude::*;

use crate::tensor::{checked_numel, lcg_state, numel, uniform_value, Tensor};

verus! {

/// Element type a kernel computes in.
#[derive(Clone, Copy, Debug, PartialEq, Eq, Hash, Structural)]
pub enum DType {
    F64,
    F32,
    F16,
    BF16,
}

/// A pair of sizes along height and width.
#[derive(Clone, Copy, Debug, PartialEq, Eq, Hash, Structural)]
pub struct Dims2 {
    pub h: usize,
    pub w: usize,
}

/// Configuration of a 2D transposed convolution.
#[derive(Clone, Copy, Debug, PartialEq, Eq, Hash, Structural)]
pub struct ConvTransposeOptions {
    pub stride: Dims2,
    pub padding: Dims2,
    pub padding_out: Dims2,
    pub dilation: Dims2,
    pub groups: usize,
}

/// Everything about a 2D transposed convolution that can change which kernel
/// is fastest: shapes and configuration, never element values.
#[derive(Clone, Copy, Debug, PartialEq, Eq, Hash, Structural)]
pub struct ConvTranspose2dAutotuneKey {
    pub kernel_size: Dims2,
    pub stride: Dims2,
    pub padding: Dims2,
    pub padding_out: Dims2,
    pub dilation: Dims2,
    pub groups: usize,
    pub in_channels: usize,
    pub out_channels: usize,
    pub height: usize,
    pub width: usize,
    pub batch_size: usize,
    pub has_bias: bool,
    pub dtype: DType,
}

/// Cache index of a tuning decision: one variant per operation family.
#[derive(Clone, Copy, Debug, PartialEq, Eq, Hash, Structural)]
pub enum AutotuneKey {
    ConvTranspose2d(ConvTranspose2dAutotuneKey),
}

/// Where the threshold of batched candidates lies.
#[derive(Clone, Copy, Debug, PartialEq, Eq, Hash, Structural)]
pub struct EligibilityPolicy {
    /// Largest `batch * height * width` that the column-to-image candidate handles.
    pub max_batched_pixels: u64,
}

/// Implementations of a 2D transposed convolution, in registration order:
/// a candidate's position is the index that the cache stores.
#[derive(Clone, Copy, Debug, PartialEq, Eq, Hash, Structural)]
pub enum ConvTranspose2dStrategy {
    Direct,
    Gemm,
}

/// Index of the column-to-image (GEMM based) transposed convolution.
pub const COL2IM_INDEX: usize = 1;

/// Number of registered transposed-convolution candidates.
pub const CONV_TRANSPOSE2D_CANDIDATES: usize = 2;

/// Registration index of a strategy.
pub open spec fn strategy_index(s: ConvTranspose2dStrategy) -> usize {
    match s {
        ConvTranspose2dStrategy::Direct => 0,
        ConvTranspose2dStrategy::Gemm => 1,
    }
}

/// The candidate registered at `index`.
pub fn conv_transpose2d_strategy(index: usize) -> (r: Option<ConvTranspose2dStrategy>)
    ensures
        r is Some <==> index < CONV_TRANSPOSE2D_CANDIDATES,
        r matches Some(s) ==> strategy_index(s) == index,
{
    if index == 0 {
        Some(ConvTranspose2dStrategy::Direct)
    } else if index == COL2IM_INDEX {
        Some(ConvTranspose2dStrategy::Gemm)
    } else {
        None
    }
}

/// Whether candidate `index` may be benchmarked and selected for `key`.
pub open spec fn eligible(key: AutotuneKey, index: int, policy: EligibilityPolicy) -> bool {
    match key {
        AutotuneKey::ConvTranspose2d(k) => index != COL2IM_INDEX || (k.batch_size as int)
            * (k.height as int) * (k.width as int) <= policy.max_batched_pixels as int,
    }
}

/// Decides whether candidate `index` is attempted for `key`: the
/// column-to-image candidate only while the batched spatial size stays within
/// the policy's threshold, every other candidate always.
pub fn should_run(key: &AutotuneKey, index: usize, policy: &EligibilityPolicy) -> (r: bool)
    ensures
        r == eligible(*key, index as int, *policy),
{
    match key {
        AutotuneKey::ConvTranspose2d(k) => {
            if index != COL2IM_INDEX {
                return true;
            }
            let rows = (k.batch_size as u128).checked_mul(k.height as u128);
            match rows {
                Some(rows) => match rows.checked_mul(k.width as u128) {
                    Some(pixels) => pixels <= policy.max_batched_pixels as u128,
                    None => {
                        assert((k.batch_size as int) * (k.height as int) * (k.width as int) > u128::MAX);
                        false
                    },
                },
                None => {
                    if k.width == 0 {
                        assert((k.batch_size as int) * (k.height as int) * (k.width as int) == 0);
                        true
                    } else {
                        let ghost bh = (k.batch_size as int) * (k.height as int);
                        assert(bh * (k.width as int) > u128::MAX) by (nonlinear_arith)
                            requires
                                bh > u128::MAX,
                                k.width >= 1,
                        ;
                        false
                    }
                },
            }
        },
    }
}

/// The key of a transposed convolution: a function of the shapes of its
/// input `[batch, channels_in, height, width]` and weights
/// `[channels_out, channels_in / groups, kernel_h, kernel_w]`, of whether a
/// bias is present, of the options and of the element type.
pub fn create_key(
    input: &Tensor,
    weights: &Tensor,
    bias: &Option<Tensor>,
    options: &ConvTransposeOptions,
    dtype: DType,
) -> (r: AutotuneKey)
    requires
        input.dims().len() == 4,
        weights.dims().len() == 4,
    ensures
        r == AutotuneKey::ConvTranspose2d(
            ConvTranspose2dAutotuneKey {
                kernel_size: Dims2 { h: weights.dims()[2], w: weights.dims()[3] },
                stride: options.stride,
                padding: options.padding,
                padding_out: options.padding_out,
                dilation: options.dilation,
                groups: options.groups,
                in_channels: input.dims()[1],
                out_channels: weights.dims()[0],
                height: input.dims()[2],
                width: input.dims()[3],
                batch_size: input.dims()[0],
                has_bias: bias is Some,
                dtype,
            },
        ),
{
    let batch_size = input.dim(0);
    let in_channels = input.dim(1);
    let height = input.dim(2);
    let width = input.dim(3);
    let out_channels = weights.dim(0);
    let kernel_h = weights.dim(2);
    let kernel_w = weights.dim(3);
    AutotuneKey::ConvTranspose2d(
        ConvTranspose2dAutotuneKey {
            kernel_size: Dims2 { h: kernel_h, w: kernel_w },
            stride: options.stride,
            padding: options.padding,
            padding_out: options.padding_out,
            dilation: options.dilation,
            groups: options.groups,
            in_channels,
            out_channels,
            height,
            width,
            batch_size,
            has_bias: bias.is_some(),
            dtype,
        },
    )
}

/// Shape of the synthetic input: `[batch, channels_in, height, width]`.
pub open spec fn synthetic_input_shape(k: ConvTranspose2dAutotuneKey) -> Seq<usize> {
    seq![k.batch_size, k.in_channels, k.height, k.width]
}

/// Shape of the synthetic weights:
/// `[channels_out, channels_in / groups, kernel_h, kernel_w]`.
pub open spec fn synthetic_weight_shape(k: ConvTranspose2dAutotuneKey) -> Seq<usize> {
    seq![k.out_channels, (k.in_channels / k.groups) as usize, k.kernel_size.h, k.kernel_size.w]
}

/// Lower bound of synthetic element values.
pub const SYNTHETIC_LOW: i64 = -1;

/// Upper bound of synthetic element values.
pub const SYNTHETIC_HIGH: i64 = 1;

/// Synthetic inputs of a transposed convolution for benchmarking: tensors
/// whose shapes are those that `key` describes, with values drawn from
/// `[-1, 1]` by the generator of `Tensor::random` started at `seed` (input),
/// `seed ^ 1` (weights) and `seed ^ 2` (bias), so the same key and seed
/// always give the same tensors, and a bias of `out_channels` elements where the key
/// has one. `None` where the key has no groups or a shape holds more
/// elements than `usize` counts.
pub fn synthetic_inputs(key: &ConvTranspose2dAutotuneKey, seed: u64) -> (r: Option<
    (Tensor, Tensor, Option<Tensor>),
>)
    ensures
        r is Some <==> key.groups > 0 && numel(synthetic_input_shape(*key)) <= usize::MAX && numel(
            synthetic_weight_shape(*key),
        ) <= usize::MAX,
        r matches Some(t) ==> {
            &&& t.0.wf()
            &&& t.0.dims() == synthetic_input_shape(*key)
            &&& t.1.wf()
            &&& t.1.dims() == synthetic_weight_shape(*key)
            &&& t.2 is Some == key.has_bias
            &&& t.2 matches Some(b) ==> b.wf() && b.dims() == seq![key.out_channels]
            &&& forall|i: int|
                0 <= i < t.0.values().len() ==> #[trigger] t.0.values()[i] == uniform_value(
                    lcg_state(seed, (i + 1) as nat),
                    SYNTHETIC_LOW,
                    SYNTHETIC_HIGH,
                )
            &&& forall|i: int|
                0 <= i < t.1.values().len() ==> #[trigger] t.1.values()[i] == uniform_value(
                    lcg_state(seed ^ 1, (i + 1) as nat),
                    SYNTHETIC_LOW,
                    SYNTHETIC_HIGH,
                )
            &&& t.2 matches Some(b) ==> forall|i: int|
                0 <= i < b.values().len() ==> #[trigger] b.values()[i] == uniform_value(
                    lcg_state(seed ^ 2, (i + 1) as nat),
                    SYNTHETIC_LOW,
                    SYNTHETIC_HIGH,
                )
            &&& forall|i: int|
                0 <= i < t.0.values().len() ==> SYNTHETIC_LOW <= #[trigger] t.0.values()[i]
                    <= SYNTHETIC_HIGH
            &&& forall|i: int|
                0 <= i < t.1.values().len() ==> SYNTHETIC_LOW <= #[trigger] t.1.values()[i]
                    <= SYNTHETIC_HIGH
            &&& t.2 matches Some(b) ==> forall|i: int|
                0 <= i < b.values().len() ==> SYNTHETIC_LOW <= #[trigger] b.values()[i]
                    <= SYNTHETIC_HIGH
        },
{
    if key.groups == 0 {
        return None;
    }
    let input_shape = vec![key.batch_size, key.in_channels, key.height, key.width];
    let weight_shape = vec![
        key.out_channels,
        key.in_channels / key.groups,
        key.kernel_size.h,
        key.kernel_size.w,
    ];
    proof {
        assert(input_shape@ =~= synthetic_input_shape(*key));
        assert(weight_shape@ =~= synthetic_weight_shape(*key));
    }
    if checked_numel(&input_shape).is_none() || checked_numel(&weight_shape).is_none() {
        return None;
    }
    let input = Tensor::random(input_shape, SYNTHETIC_LOW, SYNTHETIC_HIGH, seed);
    let weights = Tensor::random(weight_shape, SYNTHETIC_LOW, SYNTHETIC_HIGH, seed ^ 1);
    let bias = if key.has_bias {
        let bias_shape = vec![key.out_channels];
        proof {
            crate::tensor::lemma_numel_single(key.out_channels);
            assert(bias_shape@ =~= seq![key.out_channels]);
        }
        Some(Tensor::random(bias_shape, SYNTHETIC_LOW, SYNTHETIC_HIGH, seed ^ 2))
    } else {
        None
    };
    Some((input, weights, bias))
}

} // verus!
