use autotune::key::{
    conv_transpose2d_strategy, create_key, should_run, synthetic_inputs, AutotuneKey,
    ConvTranspose2dAutotuneKey, ConvTranspose2dStrategy, ConvTransposeOptions, DType, Dims2,
    EligibilityPolicy,
};
use autotune::tensor::Tensor;

fn options() -> ConvTransposeOptions {
    ConvTransposeOptions {
        stride: Dims2 { h: 1, w: 1 },
        padding: Dims2 { h: 0, w: 0 },
        padding_out: Dims2 { h: 0, w: 0 },
        dilation: Dims2 { h: 1, w: 1 },
        groups: 1,
    }
}

fn conv_key(batch: usize, height: usize, width: usize) -> ConvTranspose2dAutotuneKey {
    ConvTranspose2dAutotuneKey {
        kernel_size: Dims2 { h: 3, w: 3 },
        stride: Dims2 { h: 1, w: 1 },
        padding: Dims2 { h: 0, w: 0 },
        padding_out: Dims2 { h: 0, w: 0 },
        dilation: Dims2 { h: 1, w: 1 },
        groups: 1,
        in_channels: 3,
        out_channels: 8,
        height,
        width,
        batch_size: batch,
        has_bias: true,
        dtype: DType::F32,
    }
}

#[test]
fn key_is_built_from_shapes() {
    let input = Tensor::zeros(vec![1, 3, 32, 32]);
    let weights = Tensor::ones(vec![8, 3, 3, 3]);
    let bias = Some(Tensor::zeros(vec![8]));
    let key = create_key(&input, &weights, &bias, &options(), DType::F32);
    assert_eq!(key, AutotuneKey::ConvTranspose2d(conv_key(1, 32, 32)));
    let no_bias = create_key(&input, &weights, &None, &options(), DType::F32);
    assert_ne!(key, no_bias);
}

#[test]
fn key_ignores_values() {
    let a = Tensor::random(vec![1, 3, 32, 32], -1, 1, 5);
    let b = Tensor::random(vec![1, 3, 32, 32], -1, 1, 6);
    let w = Tensor::ones(vec![8, 3, 3, 3]);
    let ka = create_key(&a, &w, &None, &options(), DType::F16);
    let kb = create_key(&b, &w, &None, &options(), DType::F16);
    assert_eq!(ka, kb);
}

#[test]
fn height_or_width_change_gives_new_key() {
    let base = AutotuneKey::ConvTranspose2d(conv_key(1, 32, 32));
    assert_ne!(base, AutotuneKey::ConvTranspose2d(conv_key(1, 33, 32)));
    assert_ne!(base, AutotuneKey::ConvTranspose2d(conv_key(1, 32, 31)));
    assert_eq!(base, AutotuneKey::ConvTranspose2d(conv_key(1, 32, 32)));
}

#[test]
fn col2im_eligible_up_to_threshold() {
    let policy = EligibilityPolicy { max_batched_pixels: 4096 };
    let small = AutotuneKey::ConvTranspose2d(conv_key(1, 32, 32));
    assert!(should_run(&small, 0, &policy));
    assert!(should_run(&small, 1, &policy));
    let edge = AutotuneKey::ConvTranspose2d(conv_key(4, 32, 32));
    assert!(should_run(&edge, 1, &policy));
    let large = AutotuneKey::ConvTranspose2d(conv_key(5, 32, 32));
    assert!(should_run(&large, 0, &policy));
    assert!(!should_run(&large, 1, &policy));
    let huge = AutotuneKey::ConvTranspose2d(conv_key(usize::MAX, usize::MAX, 2));
    assert!(!should_run(&huge, 1, &policy));
    let empty = AutotuneKey::ConvTranspose2d(conv_key(usize::MAX, usize::MAX, 0));
    assert!(should_run(&empty, 1, &policy));
}

#[test]
fn strategies_in_registration_order() {
    assert_eq!(conv_transpose2d_strategy(0), Some(ConvTranspose2dStrategy::Direct));
    assert_eq!(conv_transpose2d_strategy(1), Some(ConvTranspose2dStrategy::Gemm));
    assert_eq!(conv_transpose2d_strategy(2), None);
}

#[test]
fn synthetic_inputs_match_key() {
    let mut key = conv_key(2, 5, 7);
    key.groups = 3;
    key.in_channels = 6;
    let (input, weights, bias) = synthetic_inputs(&key, 9).unwrap();
    assert_eq!(input.shape(), vec![2, 6, 5, 7]);
    assert_eq!(weights.shape(), vec![8, 2, 3, 3]);
    assert_eq!(bias.unwrap().shape(), vec![8]);
    assert!(input.to_values().iter().all(|v| (-1..=1).contains(v)));
    let (again, _, _) = synthetic_inputs(&key, 9).unwrap();
    assert_eq!(input.to_values(), again.to_values());
    key.has_bias = false;
    assert!(synthetic_inputs(&key, 9).unwrap().2.is_none());
    key.groups = 0;
    assert!(synthetic_inputs(&key, 9).is_none());
    let mut huge = conv_key(usize::MAX, 2, 2);
    huge.has_bias = false;
    assert!(synthetic_inputs(&huge, 9).is_none());
}

#[test]
fn synthetic_values_are_the_seeded_draws() {
    let key = conv_key(2, 4, 5);
    let (input, weights, bias) = synthetic_inputs(&key, 17).unwrap();
    assert_eq!(input.to_values(), Tensor::random(vec![2, 3, 4, 5], -1, 1, 17).to_values());
    assert_eq!(weights.to_values(), Tensor::random(vec![8, 3, 3, 3], -1, 1, 17 ^ 1).to_values());
    assert_eq!(bias.unwrap().to_values(), Tensor::random(vec![8], -1, 1, 17 ^ 2).to_values());
}
