use ml_lib_rust::tensor::{
    add_plan, bias_sums_rows, gather_rows, same_shape, shape_numel, tensor_embedding, zero_like, AddKernel, Tensor, ZERO_BITS,
};

fn bits(v: &[f32]) -> Vec<u32> {
    v.iter().map(|x| x.to_bits()).collect()
}

#[test]
fn new_is_zeroed_with_the_shape() {
    let t = Tensor::new(&[2, 3]);
    assert_eq!(t.shape, vec![2, 3]);
    assert_eq!(t.data, vec![ZERO_BITS; 6]);
    assert_eq!(t.numel(), 6);
    assert_eq!(t.ndim(), 2);
    assert_eq!(t.rows(), 2);
    assert_eq!(t.cols(), 3);
}

#[test]
fn scalar_shape_has_one_element() {
    let t = Tensor::new(&[]);
    assert_eq!(t.numel(), 1);
    assert_eq!(t.rows(), 1);
    assert_eq!(t.cols(), 1);
    assert_eq!(shape_numel(&[4, 0, 7]), 0);
    assert_eq!(shape_numel(&[2, 3, 4]), 24);
}

#[test]
fn from_vec_keeps_data_and_reshape_keeps_it_too() {
    let mut t = Tensor::from_vec(&[2, 2], bits(&[1.0, 2.0, 3.0, 4.0]));
    t.reshape(&[4]);
    assert_eq!(t.shape, vec![4]);
    assert_eq!(t.data, bits(&[1.0, 2.0, 3.0, 4.0]));
    let v = t.viewed(&[1, 4]);
    assert_eq!(v.shape, vec![1, 4]);
    assert_eq!(v.cols(), 4);
}

#[test]
fn copy_from_only_on_equal_shapes() {
    let src = Tensor::from_vec(&[2, 2], bits(&[1.0, 2.0, 3.0, 4.0]));
    let mut dst = Tensor::new(&[2, 2]);
    assert!(dst.copy_from(&src));
    assert_eq!(dst.data, src.data);
    let mut other = Tensor::new(&[4]);
    assert!(!other.copy_from(&src));
    assert_eq!(other.data, vec![ZERO_BITS; 4]);
}

#[test]
fn fill_and_clear() {
    let mut t = Tensor::new(&[3]);
    t.fill(2.5f32.to_bits());
    assert_eq!(t.data, bits(&[2.5, 2.5, 2.5]));
    t.clear();
    assert_eq!(t.data, vec![0u32; 3]);
    assert_eq!(t.shape, vec![3]);
}

#[test]
fn zero_like_and_same_shape() {
    let a = Tensor::from_vec(&[1, 2], bits(&[5.0, 6.0]));
    let z = zero_like(&a);
    assert!(same_shape(&a, &z));
    assert_eq!(z.data, vec![0u32; 2]);
    assert!(!same_shape(&a, &Tensor::new(&[2, 1])));
}

#[test]
fn gather_rows_picks_rows_in_order() {
    let src = Tensor::from_vec(&[3, 2], bits(&[0.0, 1.0, 10.0, 11.0, 20.0, 21.0]));
    let mut out = Tensor::new(&[2, 2]);
    assert!(gather_rows(&mut out, &src, &[2, 0]));
    assert_eq!(out.data, bits(&[20.0, 21.0, 0.0, 1.0]));
    // wrong batch size: nothing written
    let mut bad = Tensor::new(&[3, 2]);
    assert!(!gather_rows(&mut bad, &src, &[1, 1]));
    assert_eq!(bad.data, vec![0u32; 6]);
}

#[test]
fn add_plan_elementwise_broadcast_or_reject() {
    assert_eq!(add_plan(&vec![2, 3], &vec![2, 3], &vec![2, 3]), Some(AddKernel::Elementwise));
    assert_eq!(add_plan(&vec![2, 3], &vec![2, 3], &vec![3]), Some(AddKernel::RowBroadcast { batch: 2, feat: 3 }));
    assert_eq!(add_plan(&vec![2, 3], &vec![2, 3], &vec![1, 3]), Some(AddKernel::RowBroadcast { batch: 2, feat: 3 }));
    assert_eq!(add_plan(&vec![2, 3], &vec![2, 3], &vec![3, 1]), Some(AddKernel::RowBroadcast { batch: 2, feat: 3 }));
    assert_eq!(add_plan(&vec![2, 3], &vec![2, 3], &vec![2]), None);
    assert_eq!(add_plan(&vec![3, 2], &vec![2, 3], &vec![2, 3]), None);
    assert_eq!(add_plan(&vec![4], &vec![4], &vec![1]), None);
}

#[test]
fn embedding_copies_table_rows_by_id() {
    let weight = Tensor::from_vec(&[3, 2], bits(&[0.0, 0.5, 1.0, 1.5, 2.0, 2.5]));
    let mut out = Tensor::new(&[2, 1, 2]);
    assert!(tensor_embedding(&mut out, &[2, 1], &[2, 0], &weight));
    assert_eq!(out.data, bits(&[2.0, 2.5, 0.0, 0.5]));
    // wrong output shape: nothing written
    let mut bad = Tensor::new(&[2, 2]);
    assert!(!tensor_embedding(&mut bad, &[2, 1], &[2, 0], &weight));
    assert_eq!(bad.data, vec![0u32; 4]);
    // id out of range: rows before it are written, the rest kept
    let mut part = Tensor::new(&[3, 2]);
    assert!(!tensor_embedding(&mut part, &[3], &[1, 3, 0], &weight));
    assert_eq!(part.data, bits(&[1.0, 1.5, 0.0, 0.0, 0.0, 0.0]));
}

#[test]
fn bias_gradient_sums_rows_for_row_biases() {
    assert!(bias_sums_rows(&vec![3], &vec![4, 3]));
    assert!(bias_sums_rows(&vec![1, 1], &vec![4, 3]));
    assert!(!bias_sums_rows(&vec![4, 3], &vec![4, 3]));
    assert!(!bias_sums_rows(&vec![3], &vec![3]));
}
