use autotune::tensor::{BoolTensor, Tensor};

fn t(shape: &[usize], data: &[i64]) -> Tensor {
    Tensor::from_values(shape.to_vec(), data.to_vec()).unwrap()
}

fn m(shape: &[usize], data: &[bool]) -> BoolTensor {
    BoolTensor::from_values(shape.to_vec(), data.to_vec()).unwrap()
}

#[test]
fn from_values_rejects_wrong_length() {
    assert!(Tensor::from_values(vec![2, 3], vec![1, 2, 3]).is_none());
    assert!(Tensor::from_values(vec![2, 0], vec![]).is_some());
    assert!(Tensor::from_values(vec![usize::MAX, 2], vec![1]).is_none());
    assert!(Tensor::from_values(vec![usize::MAX, usize::MAX, 0], vec![]).is_some());
}

#[test]
fn add_and_add_scalar() {
    let a = t(&[2, 3], &[1, -2, 3, 5, 9, 6]);
    let b = t(&[2, 3], &[2, 3, 4, 1, 2, 3]);
    let r = a.add(b);
    assert_eq!(r.shape(), vec![2, 3]);
    assert_eq!(r.to_values(), vec![3, 1, 7, 6, 11, 9]);
    let r = t(&[2, 3], &[1, -2, 3, 5, 9, 6]).add_scalar(2);
    assert_eq!(r.to_values(), vec![3, 0, 5, 7, 11, 8]);
}

#[test]
fn sub_and_sub_scalar() {
    let a = t(&[2, 3], &[1, -2, 3, 5, 9, 6]);
    let b = t(&[2, 3], &[2, 3, 4, 1, 2, 3]);
    assert_eq!(a.sub(b).to_values(), vec![-1, -5, -1, 4, 7, 3]);
    let r = t(&[2, 3], &[1, -2, 3, 5, 9, 6]).sub_scalar(2);
    assert_eq!(r.to_values(), vec![-1, -4, 1, 3, 7, 4]);
}

#[test]
fn mul_and_mul_scalar() {
    let a = t(&[3], &[2, -3, 4]);
    let b = t(&[3], &[5, 6, -7]);
    assert_eq!(a.mul(b).to_values(), vec![10, -18, -28]);
    assert_eq!(t(&[3], &[2, -3, 4]).mul_scalar(-2).to_values(), vec![-4, 6, -8]);
}

#[test]
fn div_rounds_toward_zero() {
    let a = t(&[4], &[7, -7, 7, -7]);
    let b = t(&[4], &[2, 2, -2, -2]);
    assert_eq!(a.div(b).to_values(), vec![3, -3, -3, 3]);
    assert_eq!(t(&[3], &[9, -9, 1]).div_scalar(4).to_values(), vec![2, -2, 0]);
    assert_eq!(t(&[1], &[i64::MIN]).div_scalar(1).to_values(), vec![i64::MIN]);
}

#[test]
fn remainder_takes_divisor_sign() {
    let a = t(&[4], &[7, -7, 7, -7]);
    let b = t(&[4], &[3, 3, -3, -3]);
    assert_eq!(a.remainder(b).to_values(), vec![1, 2, -2, -1]);
    let r = t(&[2, 3], &[1, -2, 3, 5, 9, 6]).remainder_scalar(2);
    assert_eq!(r.to_values(), vec![1, 0, 1, 1, 1, 0]);
    assert_eq!(t(&[1], &[i64::MIN]).remainder_scalar(-1).to_values(), vec![0]);
}

#[test]
fn neg_sign_abs() {
    let a = t(&[2, 3], &[1, -2, 3, 0, 9, -6]);
    assert_eq!(a.neg().to_values(), vec![-1, 2, -3, 0, -9, 6]);
    let a = t(&[2, 3], &[1, -2, 3, 0, 9, -6]);
    assert_eq!(a.sign().to_values(), vec![1, -1, 1, 0, 1, -1]);
    let a = t(&[2, 3], &[1, -2, 3, 0, 9, -6]);
    assert_eq!(a.abs().to_values(), vec![1, 2, 3, 0, 9, 6]);
}

#[test]
fn clamps() {
    let a = t(&[2, 3], &[1, -2, 3, 5, 9, 6]);
    assert_eq!(a.clamp(2, 6).to_values(), vec![2, 2, 3, 5, 6, 6]);
    let a = t(&[2, 3], &[1, -2, 3, 5, 9, 6]);
    assert_eq!(a.clamp_min(4).to_values(), vec![4, 4, 4, 5, 9, 6]);
    let a = t(&[2, 3], &[1, -2, 3, 5, 9, 6]);
    assert_eq!(a.clamp_max(4).to_values(), vec![1, -2, 3, 4, 4, 4]);
}

#[test]
fn pairwise_max_min() {
    let a = t(&[3], &[1, 5, -3]);
    let b = t(&[3], &[2, 4, -3]);
    assert_eq!(a.max_pair(b).to_values(), vec![2, 5, -3]);
    let a = t(&[3], &[1, 5, -3]);
    let b = t(&[3], &[2, 4, -3]);
    assert_eq!(a.min_pair(b).to_values(), vec![1, 4, -3]);
}

#[test]
fn creation() {
    let z = Tensor::zeros(vec![2, 3]);
    assert_eq!(z.shape(), vec![2, 3]);
    assert_eq!(z.to_values(), vec![0; 6]);
    assert_eq!(Tensor::ones(vec![2, 2]).to_values(), vec![1; 4]);
    assert_eq!(Tensor::full(vec![3], 5).to_values(), vec![5, 5, 5]);
    let a = t(&[2, 3], &[1, -2, 3, 5, 9, 6]);
    assert_eq!(a.zeros_like().to_values(), vec![0; 6]);
    assert_eq!(a.ones_like().to_values(), vec![1; 6]);
    let f = a.full_like(7);
    assert_eq!(f.shape(), vec![2, 3]);
    assert_eq!(f.to_values(), vec![7; 6]);
    assert!(Tensor::zeros(vec![0, 4]).to_values().is_empty());
}

#[test]
fn reductions() {
    let a = t(&[2, 3], &[1, -2, 3, 5, 9, 6]);
    let s = a.sum();
    assert_eq!(s.shape(), vec![1]);
    assert_eq!(s.to_values(), vec![22]);
    assert_eq!(t(&[4], &[1, -2, 3, 4]).prod().to_values(), vec![-24]);
    assert_eq!(t(&[2, 3], &[1, -2, 3, 5, 9, 6]).mean().to_values(), vec![3]);
    assert_eq!(t(&[3], &[-1, -2, -4]).mean().to_values(), vec![-2]);
    assert_eq!(t(&[0], &[]).sum().to_values(), vec![0]);
    assert_eq!(t(&[0], &[]).prod().to_values(), vec![1]);
}

#[test]
fn extrema() {
    assert_eq!(t(&[2, 3], &[1, -2, 3, 5, 9, 6]).max().to_values(), vec![9]);
    assert_eq!(t(&[2, 3], &[1, -2, 3, 5, 9, 6]).min().to_values(), vec![-2]);
    assert_eq!(t(&[2, 3], &[1, -7, 3, 5, 2, 6]).max_abs().to_values(), vec![7]);
}

#[test]
fn comparisons() {
    let a = || t(&[2, 3], &[1, 2, 3, 4, 5, 6]);
    let b = || t(&[2, 3], &[1, 1, 1, 5, 5, 5]);
    assert_eq!(a().greater(b()).to_values(), vec![false, true, true, false, false, true]);
    assert_eq!(a().greater_equal(b()).to_values(), vec![true, true, true, false, true, true]);
    assert_eq!(a().lower(b()).to_values(), vec![false, false, false, true, false, false]);
    assert_eq!(a().lower_equal(b()).to_values(), vec![true, false, false, true, true, false]);
    assert_eq!(a().greater_elem(3).to_values(), vec![false, false, false, true, true, true]);
    assert_eq!(a().greater_equal_elem(3).to_values(), vec![false, false, true, true, true, true]);
    assert_eq!(a().lower_elem(3).to_values(), vec![true, true, false, false, false, false]);
    assert_eq!(a().lower_equal_elem(3).to_values(), vec![true, true, true, false, false, false]);
    assert_eq!(a().equal_elem(4).to_values(), vec![false, false, false, true, false, false]);
    assert_eq!(a().not_equal_elem(4).to_values(), vec![true, true, true, false, true, true]);
    let c = a().greater(b());
    assert_eq!(c.shape(), vec![2, 3]);
}

#[test]
fn masks() {
    let a = t(&[2, 3], &[1, -2, 3, 5, 9, 6]);
    let mask = m(&[2, 3], &[true, false, true, false, true, false]);
    let value = t(&[2, 3], &[2, 3, 4, 1, 2, 3]);
    assert_eq!(a.mask_where(mask, value).to_values(), vec![2, -2, 4, 5, 2, 6]);
    let a = t(&[2, 3], &[1, -2, 3, 5, 9, 6]);
    let mask = m(&[2, 3], &[true, false, true, false, true, false]);
    assert_eq!(a.mask_fill(mask, 3).to_values(), vec![3, -2, 3, 5, 3, 6]);
}

#[test]
fn bool_and_nan() {
    let a = t(&[2, 3], &[1, 0, 2, 0, 0, -1]);
    assert_eq!(a.bool().to_values(), vec![true, false, true, false, false, true]);
    let a = t(&[2, 3], &[1, 0, 2, 0, 0, -1]);
    assert_eq!(a.is_nan().to_values(), vec![false; 6]);
    let c = a.contains_nan();
    assert_eq!(c.shape(), vec![1]);
    assert_eq!(c.to_values(), vec![false]);
}

#[test]
fn eye_matrix() {
    let e = Tensor::eye(3);
    assert_eq!(e.shape(), vec![3, 3]);
    assert_eq!(e.to_values(), vec![1, 0, 0, 0, 1, 0, 0, 0, 1]);
    assert!(Tensor::eye(0).to_values().is_empty());
}

#[test]
fn triangular_parts() {
    let a = || t(&[3, 3], &[1, 2, 3, 4, 5, 6, 7, 8, 9]);
    assert_eq!(a().triu(1).to_values(), vec![0, 2, 3, 0, 0, 6, 0, 0, 0]);
    assert_eq!(a().tril(-1).to_values(), vec![0, 0, 0, 4, 0, 0, 7, 8, 0]);
    assert_eq!(a().triu(0).to_values(), vec![1, 2, 3, 0, 5, 6, 0, 0, 9]);
    let batch = t(&[2, 2, 2], &[1, 2, 3, 4, 5, 6, 7, 8]);
    assert_eq!(batch.tril(0).to_values(), vec![1, 0, 3, 4, 5, 0, 7, 8]);
}

#[test]
fn one_hot_rows() {
    let idx = t(&[4], &[0, 1, 2, 3]);
    let r = idx.one_hot(4);
    assert_eq!(r.shape(), vec![4, 4]);
    assert_eq!(r.to_values(), vec![1, 0, 0, 0, 0, 1, 0, 0, 0, 0, 1, 0, 0, 0, 0, 1]);
    let r = t(&[2], &[2, 0]).one_hot(3);
    assert_eq!(r.to_values(), vec![0, 0, 1, 1, 0, 0]);
}

#[test]
fn random_is_reproducible_and_bounded() {
    let a = Tensor::random(vec![4, 8], -1, 1, 42);
    let b = Tensor::random(vec![4, 8], -1, 1, 42);
    assert_eq!(a.shape(), vec![4, 8]);
    assert_eq!(a.to_values(), b.to_values());
    assert!(a.to_values().iter().all(|v| (-1..=1).contains(v)));
    let c = Tensor::random(vec![4, 8], -1, 1, 43);
    assert_ne!(a.to_values(), c.to_values());
    // first value from seed 0: state = increment, high 31 bits reduced mod 10
    let first = Tensor::random(vec![1], 0, 9, 0).to_values()[0];
    let state: u64 = 1442695040888963407;
    assert_eq!(first, ((state >> 33) % 10) as i64);
    let full = Tensor::random(vec![3], i64::MIN, i64::MAX, 7);
    assert_eq!(full.to_values().len(), 3);
}

#[test]
fn dim_reads_shape() {
    let a = t(&[2, 3, 4], &[0; 24]);
    assert_eq!(a.dim(0), 2);
    assert_eq!(a.dim(2), 4);
}

#[test]
fn sums_along_dims() {
    let a = || t(&[2, 3], &[1, -2, 3, 5, 9, 6]);
    let r = a().sum_dim(0);
    assert_eq!(r.shape(), vec![1, 3]);
    assert_eq!(r.to_values(), vec![6, 7, 9]);
    let r = a().sum_dim(1);
    assert_eq!(r.shape(), vec![2, 1]);
    assert_eq!(r.to_values(), vec![2, 20]);
    assert_eq!(a().prod_dim(1).to_values(), vec![-6, 270]);
    assert_eq!(a().mean_dim(0).to_values(), vec![3, 3, 4]);
    assert_eq!(a().mean_dim(1).to_values(), vec![0, 6]);
    let empty = t(&[2, 0], &[]).sum_dim(1);
    assert_eq!(empty.shape(), vec![2, 1]);
    assert_eq!(empty.to_values(), vec![0, 0]);
}

#[test]
fn extrema_along_dims() {
    let a = || t(&[2, 3], &[1, -2, 3, 5, 9, 6]);
    assert_eq!(a().max_dim(0).to_values(), vec![5, 9, 6]);
    assert_eq!(a().min_dim(1).to_values(), vec![-2, 5]);
    assert_eq!(a().argmax(1).to_values(), vec![2, 1]);
    assert_eq!(a().argmin(0).to_values(), vec![0, 0, 0]);
    assert_eq!(t(&[2, 3], &[1, -7, 3, 5, 2, -6]).max_abs_dim(0).to_values(), vec![5, 7, 6]);
    let (values, indices) = a().max_dim_with_indices(1);
    assert_eq!(values.to_values(), vec![3, 9]);
    assert_eq!(indices.to_values(), vec![2, 1]);
    let (values, indices) = a().min_dim_with_indices(0);
    assert_eq!(values.shape(), vec![1, 3]);
    assert_eq!(values.to_values(), vec![1, -2, 3]);
    assert_eq!(indices.to_values(), vec![0, 0, 0]);
}

#[test]
fn middle_dim_and_ties() {
    // shape [2, 3, 2]: reduce the middle dimension
    let a = t(&[2, 3, 2], &[1, 6, 4, 2, 4, 9, 0, 0, 7, 0, 7, 0]);
    let r = a.argmax(1);
    assert_eq!(r.shape(), vec![2, 1, 2]);
    assert_eq!(r.to_values(), vec![1, 2, 1, 0]);
    let b = t(&[2, 3, 2], &[1, 6, 4, 2, 4, 9, 0, 0, 7, 0, 7, 0]);
    assert_eq!(b.sum_dim(1).to_values(), vec![9, 17, 14, 0]);
    let c = t(&[1, 3], &[4, 4, 1]);
    assert_eq!(c.argmax(1).to_values(), vec![0]);
}

#[test]
fn integer_powers() {
    let a = t(&[3], &[2, -3, 0]);
    assert_eq!(a.powi_scalar(3).to_values(), vec![8, -27, 0]);
    let a = t(&[3], &[2, 3, 5]);
    let e = t(&[3], &[0, 2, 1]);
    assert_eq!(a.powi(e).to_values(), vec![1, 9, 5]);
    assert_eq!(t(&[2], &[-1, 2]).powi_scalar(0).to_values(), vec![1, 1]);
}

#[test]
fn select_slices() {
    let a = || t(&[2, 3], &[1, -2, 3, 5, 9, 6]);
    let rows = a().select(0, t(&[2], &[1, 0]));
    assert_eq!(rows.shape(), vec![2, 3]);
    assert_eq!(rows.to_values(), vec![5, 9, 6, 1, -2, 3]);
    let cols = a().select(1, t(&[2], &[2, 0]));
    assert_eq!(cols.shape(), vec![2, 2]);
    assert_eq!(cols.to_values(), vec![3, 1, 6, 5]);
    let repeated = a().select(1, t(&[3], &[1, 1, 1]));
    assert_eq!(repeated.to_values(), vec![-2, -2, -2, 9, 9, 9]);
    let none = a().select(0, t(&[0], &[]));
    assert_eq!(none.shape(), vec![0, 3]);
    assert!(none.to_values().is_empty());
}

#[test]
fn sort_along_dims() {
    let a = || t(&[2, 3], &[12, -2, 3, 5, 3, 6]);
    assert_eq!(a().sort(0).to_values(), vec![5, -2, 3, 12, 3, 6]);
    assert_eq!(a().sort(1).to_values(), vec![-2, 3, 12, 3, 5, 6]);
    assert_eq!(a().sort_descending(0).to_values(), vec![12, 3, 6, 5, -2, 3]);
    assert_eq!(a().sort_descending(1).to_values(), vec![12, 3, -2, 6, 5, 3]);
    let b = t(&[2, 3, 2], &[3, 0, 1, 5, 2, 4, 9, 9, 7, 8, 8, 7]);
    let r = b.sort(1);
    assert_eq!(r.shape(), vec![2, 3, 2]);
    assert_eq!(r.to_values(), vec![1, 0, 2, 4, 3, 5, 7, 7, 8, 8, 9, 9]);
    assert!(t(&[0, 3], &[]).sort(1).to_values().is_empty());
}

#[test]
fn top_k_along_dims() {
    let a = || t(&[2, 3], &[12, -2, 3, 5, 3, 6]);
    let r = a().topk(2, 1);
    assert_eq!(r.shape(), vec![2, 2]);
    assert_eq!(r.to_values(), vec![12, 3, 6, 5]);
    let r = a().topk(1, 0);
    assert_eq!(r.shape(), vec![1, 3]);
    assert_eq!(r.to_values(), vec![12, 3, 6]);
    assert!(a().topk(0, 1).to_values().is_empty());
}

#[test]
fn gather_by_index() {
    let a = || t(&[2, 3], &[1, 2, 3, 4, 5, 6]);
    let r = a().gather(0, t(&[1, 3], &[1, 0, 1]));
    assert_eq!(r.shape(), vec![1, 3]);
    assert_eq!(r.to_values(), vec![4, 2, 6]);
    let r = a().gather(1, t(&[2, 2], &[2, 0, 1, 1]));
    assert_eq!(r.shape(), vec![2, 2]);
    assert_eq!(r.to_values(), vec![3, 1, 5, 5]);
}

#[test]
fn pad_last_two_dims() {
    let a = t(&[2, 3], &[12, -2, 3, 5, 3, 6]);
    let r = a.pad((1, 1, 1, 1), 0);
    assert_eq!(r.shape(), vec![4, 5]);
    assert_eq!(
        r.to_values(),
        vec![0, 0, 0, 0, 0, 0, 12, -2, 3, 0, 0, 5, 3, 6, 0, 0, 0, 0, 0, 0]
    );
    let b = t(&[2, 2], &[1, 2, 3, 4]).pad((2, 0, 0, 1), 9);
    assert_eq!(b.shape(), vec![3, 4]);
    assert_eq!(b.to_values(), vec![9, 9, 1, 2, 9, 9, 3, 4, 9, 9, 9, 9]);
    let c = t(&[2, 1, 1], &[5, 6]).pad((0, 1, 0, 0), 7);
    assert_eq!(c.shape(), vec![2, 1, 2]);
    assert_eq!(c.to_values(), vec![5, 7, 6, 7]);
}

#[test]
fn sorts_with_indices() {
    let a = || t(&[2, 3], &[12, -2, 3, 5, 3, 6]);
    let (values, indices) = a().sort_with_indices(0);
    assert_eq!(values.to_values(), vec![5, -2, 3, 12, 3, 6]);
    assert_eq!(indices.to_values(), vec![1, 0, 0, 0, 1, 1]);
    let (values, indices) = a().sort_descending_with_indices(1);
    assert_eq!(values.to_values(), vec![12, 3, -2, 6, 5, 3]);
    assert_eq!(indices.to_values(), vec![0, 2, 1, 2, 0, 1]);
    assert_eq!(a().argsort(1).to_values(), vec![1, 2, 0, 1, 0, 2]);
    assert_eq!(a().argsort_descending(1).to_values(), vec![0, 2, 1, 2, 0, 1]);
    let (values, indices) = a().topk_with_indices(2, 1);
    assert_eq!(values.shape(), vec![2, 2]);
    assert_eq!(values.to_values(), vec![12, 3, 6, 5]);
    assert_eq!(indices.to_values(), vec![0, 2, 2, 0]);
}

#[test]
fn argsort_is_stable() {
    let a = || t(&[4], &[3, 1, 3, 1]);
    assert_eq!(a().argsort(0).to_values(), vec![1, 3, 0, 2]);
    assert_eq!(a().argsort_descending(0).to_values(), vec![0, 2, 1, 3]);
}

#[test]
fn scatter_adds_at_gathered_positions() {
    let zeros = || Tensor::zeros(vec![2, 3]);
    let r = zeros().scatter(0, t(&[1, 3], &[1, 0, 1]), t(&[1, 3], &[1, 2, 3]));
    assert_eq!(r.shape(), vec![2, 3]);
    assert_eq!(r.to_values(), vec![0, 2, 0, 1, 0, 3]);
    let r = zeros().scatter(1, t(&[2, 2], &[0, 0, 2, 1]), t(&[2, 2], &[1, 2, 3, 4]));
    assert_eq!(r.to_values(), vec![3, 0, 0, 0, 4, 3]);
}

#[test]
fn select_assign_adds_slices() {
    let a = || t(&[2, 3], &[1, 2, 3, 4, 5, 6]);
    let r = a().select_assign(0, t(&[1], &[1]), t(&[1, 3], &[10, 20, 30]));
    assert_eq!(r.to_values(), vec![1, 2, 3, 14, 25, 36]);
    let r = a().select_assign(1, t(&[2], &[2, 2]), t(&[2, 2], &[1, 1, 2, 2]));
    assert_eq!(r.to_values(), vec![1, 2, 5, 4, 5, 10]);
}
