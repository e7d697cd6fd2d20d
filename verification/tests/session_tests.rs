use ml_lib_rust::session::{predict_rows, PredictError};
use ml_lib_rust::{AdaptBatch, ReplayBuffer, Tensor};

fn bits(v: &[f32]) -> Vec<u32> {
    v.iter().map(|x| x.to_bits()).collect()
}

#[test]
fn replay_buffer_fills_then_wraps() {
    let mut rb = ReplayBuffer::new(2, 2, 1);
    assert!(rb.is_empty());
    assert_eq!(rb.capacity(), 2);
    rb.push_row(&bits(&[1.0, 1.0]), &bits(&[1.0]));
    assert_eq!(rb.len(), 1);
    rb.push_row(&bits(&[2.0, 2.0]), &bits(&[2.0]));
    assert_eq!(rb.len(), 2);
    // full: the third row overwrites slot 0
    rb.push_row(&bits(&[3.0, 3.0]), &bits(&[3.0]));
    assert_eq!(rb.len(), 2);
    let mut bx = Tensor::new(&[2, 2]);
    let mut by = Tensor::new(&[2, 1]);
    rb.copy_row_into(0, &mut bx, &mut by, 0);
    rb.copy_row_into(1, &mut bx, &mut by, 1);
    assert_eq!(bx.data, bits(&[3.0, 3.0, 2.0, 2.0]));
    assert_eq!(by.data, bits(&[3.0, 2.0]));
}

#[test]
fn replay_buffer_zero_capacity_ignores_rows() {
    let mut rb = ReplayBuffer::new(0, 2, 1);
    rb.push_row(&bits(&[1.0, 1.0]), &bits(&[1.0]));
    assert_eq!(rb.len(), 0);
    assert!(rb.is_empty());
}

#[test]
fn push_batch_stores_every_row_and_sampling_uses_the_draw() {
    let x = Tensor::from_vec(&[3, 1], bits(&[1.0, 2.0, 3.0]));
    let y = Tensor::from_vec(&[3, 1], bits(&[10.0, 20.0, 30.0]));
    let batch = AdaptBatch::new(x, y);
    assert_eq!(batch.len(), 3);
    assert!(!batch.is_empty());
    let mut rb = ReplayBuffer::new(4, 1, 1);
    rb.push_batch(&batch);
    assert_eq!(rb.len(), 3);
    let mut bx = Tensor::new(&[1, 1]);
    let mut by = Tensor::new(&[1, 1]);
    // slot 7 % 3 == 1
    rb.sample_row_into(&mut bx, &mut by, 0, 7);
    assert_eq!(bx.data, bits(&[2.0]));
    assert_eq!(by.data, bits(&[20.0]));
}

#[test]
fn predict_rows_checks_rank_features_and_batch() {
    assert_eq!(predict_rows(&Tensor::new(&[4]), 4, 8), Ok(1));
    assert_eq!(predict_rows(&Tensor::new(&[3, 4]), 4, 8), Ok(3));
    assert_eq!(
        predict_rows(&Tensor::new(&[5]), 4, 8),
        Err(PredictError::WrongFeatures { expected: 4, got: 5 })
    );
    assert_eq!(
        predict_rows(&Tensor::new(&[9, 4]), 4, 8),
        Err(PredictError::BatchTooLarge { batch: 9, limit: 8 })
    );
    assert_eq!(predict_rows(&Tensor::new(&[1, 1, 4]), 4, 8), Err(PredictError::BadRank));
}
