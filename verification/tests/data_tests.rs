use ml_lib_rust::idx::{idx_images_header, labels_for_images, one_hot, parse_idx_images, parse_idx_labels, read_be_u32, IdxError, ONE_BITS};
use ml_lib_rust::matmul::{mat_shape, matmul_plan, MatmulKernel};
use ml_lib_rust::{Dataset, Tensor, TensorDataset};

fn bits(v: &[f32]) -> Vec<u32> {
    v.iter().map(|x| x.to_bits()).collect()
}

fn dataset() -> TensorDataset {
    let x = Tensor::from_vec(&[3, 2], bits(&[0.0, 1.0, 10.0, 11.0, 20.0, 21.0]));
    let y = Tensor::from_vec(&[3, 1], bits(&[0.5, 1.5, 2.5]));
    TensorDataset::new(x, y)
}

#[test]
fn dataset_gathers_batches_and_single_samples() {
    let d = dataset();
    assert_eq!(d.len(), 3);
    assert!(!d.is_empty());
    assert_eq!(d.x_cols(), 2);
    assert_eq!(d.y_cols(), 1);
    let mut bx = Tensor::new(&[2, 2]);
    let mut by = Tensor::new(&[2, 1]);
    assert!(d.gather_batch(&[1, 2], &mut bx, &mut by));
    assert_eq!(bx.data, bits(&[10.0, 11.0, 20.0, 21.0]));
    assert_eq!(by.data, bits(&[1.5, 2.5]));
    let mut x = Tensor::new(&[1, 2]);
    let mut y = Tensor::new(&[1, 1]);
    assert!(d.get(0, &mut x, &mut y));
    assert_eq!(x.data, bits(&[0.0, 1.0]));
    assert_eq!(y.data, bits(&[0.5]));
    assert!(!d.get(3, &mut x, &mut y));
}

#[test]
fn gather_batch_rejects_a_wrong_target_buffer() {
    let d = dataset();
    let mut bx = Tensor::new(&[1, 2]);
    let mut by = Tensor::new(&[2, 1]);
    assert!(!d.gather_batch(&[0], &mut bx, &mut by));
    assert_eq!(by.data, vec![0u32; 2]);
}

#[test]
fn be_u32_reads_big_endian() {
    assert_eq!(read_be_u32(&[0, 0, 8, 3], 0), 0x0803);
    assert_eq!(read_be_u32(&[9, 0x12, 0x34, 0x56, 0x78], 1), 0x1234_5678);
}

#[test]
fn idx_images_parse_and_errors() {
    let mut bytes = vec![0, 0, 8, 3, 0, 0, 0, 2, 0, 0, 0, 1, 0, 0, 0, 2];
    bytes.extend_from_slice(&[1, 2, 3, 4, 99]);
    let im = parse_idx_images(&bytes).unwrap();
    assert_eq!((im.n, im.rows, im.cols), (2, 1, 2));
    assert_eq!(im.pixels, vec![1, 2, 3, 4]);
    assert_eq!(parse_idx_images(&bytes[..10]).err(), Some(IdxError::TooShort));
    assert_eq!(parse_idx_images(&bytes[..19]).err(), Some(IdxError::Truncated));
    let mut bad = bytes.clone();
    bad[3] = 1;
    assert_eq!(parse_idx_images(&bad).err(), Some(IdxError::BadMagic(0x0801)));
}

#[test]
fn idx_labels_parse_and_errors() {
    let bytes = vec![0, 0, 8, 1, 0, 0, 0, 3, 7, 0, 9];
    assert_eq!(parse_idx_labels(&bytes), Ok(vec![7, 0, 9]));
    assert_eq!(parse_idx_labels(&bytes[..5]), Err(IdxError::TooShort));
    assert_eq!(parse_idx_labels(&bytes[..10]), Err(IdxError::Truncated));
    let mut bad = bytes.clone();
    bad[3] = 3;
    assert_eq!(parse_idx_labels(&bad), Err(IdxError::BadMagic(0x0803)));
}

#[test]
fn one_hot_sets_one_column_per_row() {
    let out = one_hot(&[2, 0], 3);
    assert_eq!(out, vec![0, 0, ONE_BITS, ONE_BITS, 0, 0]);
    assert_eq!(f32::from_bits(ONE_BITS), 1.0);
}

#[test]
fn matmul_plan_picks_kernels() {
    assert_eq!(mat_shape(&[2, 3], true), (1, 3, 2));
    assert_eq!(mat_shape(&[4, 2, 3], false), (4, 2, 3));
    assert_eq!(
        matmul_plan(&[2, 4], &[2, 3], &[3, 4], false, false),
        Some(MatmulKernel::Nn { m: 2, k: 3, n: 4, lda: 3, ldb: 4, ldc: 4 })
    );
    assert_eq!(
        matmul_plan(&[2, 4], &[2, 3], &[4, 3], false, true),
        Some(MatmulKernel::Nt { m: 2, k: 3, n: 4, ldc: 4 })
    );
    assert_eq!(
        matmul_plan(&[3, 4], &[2, 3], &[2, 4], true, false),
        Some(MatmulKernel::Tn { m: 3, k: 2, n: 4, ldc: 4 })
    );
    assert_eq!(matmul_plan(&[2, 4], &[2, 3], &[5, 4], false, false), None);
    assert_eq!(
        matmul_plan(&[5, 2, 4], &[5, 2, 3], &[3, 4], false, false),
        Some(MatmulKernel::Batched { batch: 5, a_batch: 5, b_batch: 1, a_rows: 2, a_cols: 3, b_rows: 3, b_cols: 4 })
    );
    assert_eq!(matmul_plan(&[2, 2, 4], &[3, 2, 3], &[2, 3, 4], false, false), None);
}

#[test]
fn idx_header_checks_without_copying() {
    let mut bytes = vec![0, 0, 8, 3, 0, 0, 0, 2, 0, 0, 0, 1, 0, 0, 0, 2];
    bytes.extend_from_slice(&[1, 2, 3, 4]);
    assert_eq!(idx_images_header(&bytes), Ok((2, 1, 2)));
    assert_eq!(idx_images_header(&bytes[..19]), Err(IdxError::Truncated));
    assert_eq!(idx_images_header(&bytes[..3]), Err(IdxError::TooShort));
    // sizes whose product overflows can never fit in the bytes
    let huge = vec![0, 0, 8, 3, 0xff, 0xff, 0xff, 0xff, 0xff, 0xff, 0xff, 0xff, 0xff, 0xff, 0xff, 0xff];
    assert_eq!(idx_images_header(&huge), Err(IdxError::Truncated));
}

#[test]
fn get_leaves_buffers_alone_when_out_of_range() {
    let d = dataset();
    let mut x = Tensor::from_vec(&[1, 2], bits(&[9.0, 9.0]));
    let mut y = Tensor::from_vec(&[1, 1], bits(&[9.0]));
    assert!(!d.get(5, &mut x, &mut y));
    assert_eq!(x.data, bits(&[9.0, 9.0]));
    assert_eq!(y.data, bits(&[9.0]));
    // a target buffer of the wrong width: the features are still written
    let mut wide = Tensor::new(&[1, 3]);
    assert!(!d.get(1, &mut x, &mut wide));
    assert_eq!(x.data, bits(&[10.0, 11.0]));
    assert_eq!(wide.data, vec![0u32; 3]);
}

#[test]
fn labels_pair_with_images_by_count() {
    assert_eq!(labels_for_images(2, &[1, 0], 2), Some(vec![0, ONE_BITS, ONE_BITS, 0]));
    assert_eq!(labels_for_images(3, &[1, 0], 2), None);
}
