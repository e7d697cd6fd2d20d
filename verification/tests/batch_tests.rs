use ml_lib_rust::model::{ModelContext, MV_FLAG_DESIRED_OUTPUT, MV_FLAG_INPUT, MV_FLAG_NONE, MV_FLAG_PARAMETER, MV_FLAG_REQUIRES_GRAD};
use ml_lib_rust::prng::{global_prng, Prng, GLOBAL_SEED0, GLOBAL_SEED1};
use ml_lib_rust::session::{fill_train_batch, session_dims, SessionError};
use ml_lib_rust::{AdaptBatch, ReplayBuffer, Tensor, TensorDataset};

fn bits(v: &[f32]) -> Vec<u32> {
    v.iter().map(|x| x.to_bits()).collect()
}

fn vals(v: &[u32]) -> Vec<f32> {
    v.iter().map(|x| f32::from_bits(*x)).collect()
}

fn dataset() -> TensorDataset {
    TensorDataset::new(
        Tensor::from_vec(&[3, 1], bits(&[0.0, 1.0, 2.0])),
        Tensor::from_vec(&[3, 1], bits(&[0.0, 10.0, 20.0])),
    )
}

#[test]
fn dataset_rows_follow_the_order_and_fill_the_ring() {
    let data = dataset();
    let mut replay = ReplayBuffer::new(4, 1, 1);
    let mut bx = Tensor::new(&[2, 1]);
    let mut by = Tensor::new(&[2, 1]);
    let mut order = vec![0usize, 1, 2];
    let mut cursor = 0usize;
    let mut rng = Prng::new(3, 4);
    // ring empty: every row is fresh
    fill_train_batch(&mut replay, &mut bx, &mut by, None, Some(&data), &mut order, &mut cursor, 2, 1, &mut rng);
    assert_eq!(vals(&bx.data), vec![0.0, 1.0]);
    assert_eq!(vals(&by.data), vec![0.0, 10.0]);
    assert_eq!(cursor, 2);
    assert_eq!(replay.len(), 2);
    // now one row comes from the ring (the last one), one from the order
    fill_train_batch(&mut replay, &mut bx, &mut by, None, Some(&data), &mut order, &mut cursor, 2, 1, &mut rng);
    assert_eq!(vals(&bx.data)[0], 2.0);
    assert_eq!(vals(&by.data)[0], 20.0);
    assert_eq!(cursor, 3);
    assert_eq!(replay.len(), 3);
    let tail = vals(&bx.data)[1];
    assert!(tail == 0.0 || tail == 1.0 || tail == 2.0);
    assert_eq!(vals(&by.data)[1], tail * 10.0);
    // the order is used up: it is reshuffled and restarted
    fill_train_batch(&mut replay, &mut bx, &mut by, None, Some(&data), &mut order, &mut cursor, 2, 0, &mut rng);
    assert_eq!(cursor, 2);
    let mut sorted = order.clone();
    sorted.sort();
    assert_eq!(sorted, vec![0, 1, 2]);
    assert_eq!(vals(&bx.data), vec![order[0] as f32, order[1] as f32]);
}

#[test]
fn local_rows_keep_features_and_targets_together() {
    let local = AdaptBatch::new(
        Tensor::from_vec(&[3, 1], bits(&[1.0, 2.0, 3.0])),
        Tensor::from_vec(&[3, 1], bits(&[10.0, 20.0, 30.0])),
    );
    let mut replay = ReplayBuffer::new(0, 1, 1);
    let mut bx = Tensor::new(&[4, 1]);
    let mut by = Tensor::new(&[4, 1]);
    let mut order: Vec<usize> = Vec::new();
    let mut cursor = 0usize;
    let mut rng = Prng::new(11, 12);
    fill_train_batch::<TensorDataset>(&mut replay, &mut bx, &mut by, Some(&local), None, &mut order, &mut cursor, 4, 2, &mut rng);
    for (x, y) in vals(&bx.data).iter().zip(vals(&by.data).iter()) {
        assert!([1.0, 2.0, 3.0].contains(x));
        assert_eq!(*y, x * 10.0);
    }
    assert_eq!(replay.len(), 0);
}

#[test]
fn without_sources_fresh_rows_are_zero() {
    let mut replay = ReplayBuffer::new(2, 2, 1);
    let mut bx = Tensor::from_vec(&[1, 2], bits(&[5.0, 5.0]));
    let mut by = Tensor::from_vec(&[1, 1], bits(&[5.0]));
    let mut order: Vec<usize> = Vec::new();
    let mut cursor = 7usize;
    let mut rng = Prng::new(1, 1);
    fill_train_batch::<TensorDataset>(&mut replay, &mut bx, &mut by, None, None, &mut order, &mut cursor, 1, 1, &mut rng);
    assert_eq!(bx.data, vec![0u32, 0]);
    assert_eq!(by.data, vec![0u32]);
    assert_eq!(cursor, 7);
}

#[test]
fn empty_order_draws_from_the_ring() {
    let data = dataset();
    let mut replay = ReplayBuffer::new(2, 1, 1);
    replay.push_row(&bits(&[4.0]), &bits(&[40.0]));
    let mut bx = Tensor::new(&[2, 1]);
    let mut by = Tensor::new(&[2, 1]);
    let mut order: Vec<usize> = Vec::new();
    let mut cursor = 0usize;
    let mut rng = Prng::new(2, 2);
    fill_train_batch(&mut replay, &mut bx, &mut by, None, Some(&data), &mut order, &mut cursor, 2, 0, &mut rng);
    assert_eq!(vals(&bx.data), vec![4.0, 4.0]);
    assert_eq!(vals(&by.data), vec![40.0, 40.0]);
}

#[test]
fn session_dims_reads_the_input_and_labels() {
    let mut m = ModelContext::new();
    let x = m.create_var(&[4, 3], MV_FLAG_INPUT);
    let w = m.create_var(&[3, 2], MV_FLAG_PARAMETER | MV_FLAG_REQUIRES_GRAD);
    let _ = m.matmul(x, w, MV_FLAG_NONE).unwrap();
    assert_eq!(session_dims(&m), Err(SessionError::NoDesiredOutput));
    m.create_var(&[4, 2], MV_FLAG_DESIRED_OUTPUT);
    assert_eq!(session_dims(&m), Ok((4, 3, 2)));
    let mut bad = ModelContext::new();
    assert_eq!(session_dims(&bad), Err(SessionError::NoInput));
    bad.create_var(&[4], MV_FLAG_INPUT);
    bad.create_var(&[4, 2], MV_FLAG_DESIRED_OUTPUT);
    assert_eq!(session_dims(&bad), Err(SessionError::InputNot2d));
    let mut mis = ModelContext::new();
    mis.create_var(&[4, 3], MV_FLAG_INPUT);
    mis.create_var(&[5, 2], MV_FLAG_DESIRED_OUTPUT);
    assert_eq!(session_dims(&mis), Err(SessionError::BatchMismatch));
    let mut lab = ModelContext::new();
    lab.create_var(&[4, 3], MV_FLAG_INPUT);
    lab.create_var(&[4, 2, 1], MV_FLAG_DESIRED_OUTPUT);
    assert_eq!(session_dims(&lab), Err(SessionError::LabelsNot2d));
}

#[test]
fn global_generator_uses_the_fixed_seeds() {
    let mut a = global_prng();
    let mut b = Prng::new(GLOBAL_SEED0, GLOBAL_SEED1);
    assert_eq!(a.next_u64(), b.next_u64());
    assert_eq!(a.next_u64(), 0xdaa777ab5ea25a34);
}

#[test]
fn local_draws_use_the_generator_words_in_order() {
    let local = AdaptBatch::new(
        Tensor::from_vec(&[3, 1], bits(&[1.0, 2.0, 3.0])),
        Tensor::from_vec(&[3, 1], bits(&[10.0, 20.0, 30.0])),
    );
    let mut replay = ReplayBuffer::new(0, 1, 1);
    let mut bx = Tensor::new(&[5, 1]);
    let mut by = Tensor::new(&[5, 1]);
    let mut order: Vec<usize> = Vec::new();
    let mut cursor = 0usize;
    let mut rng = Prng::new(21, 22);
    let mut probe = Prng::new(21, 22);
    fill_train_batch::<TensorDataset>(&mut replay, &mut bx, &mut by, Some(&local), None, &mut order, &mut cursor, 5, 0, &mut rng);
    for j in 0..5 {
        let k = (probe.next_u64() as usize) % 3;
        assert_eq!(vals(&bx.data)[j], (k + 1) as f32);
        assert_eq!(vals(&by.data)[j], ((k + 1) * 10) as f32);
    }
    // the generator moved on by exactly one word per row
    assert_eq!(rng.next_u64(), probe.next_u64());
}

#[test]
fn ring_draws_use_the_generator_words_in_order() {
    let mut replay = ReplayBuffer::new(3, 1, 1);
    replay.push_row(&bits(&[7.0]), &bits(&[70.0]));
    replay.push_row(&bits(&[8.0]), &bits(&[80.0]));
    let mut bx = Tensor::new(&[4, 1]);
    let mut by = Tensor::new(&[4, 1]);
    let mut order: Vec<usize> = Vec::new();
    let mut cursor = 0usize;
    let mut rng = Prng::new(5, 9);
    let mut probe = Prng::new(5, 9);
    fill_train_batch::<TensorDataset>(&mut replay, &mut bx, &mut by, None, None, &mut order, &mut cursor, 4, 2, &mut rng);
    for j in 0..4 {
        let k = (probe.next_u64() as usize) % 2;
        assert_eq!(vals(&bx.data)[j], 7.0 + k as f32);
        assert_eq!(vals(&by.data)[j], 70.0 + 10.0 * k as f32);
    }
}

#[test]
fn streamed_samples_are_stored_in_the_ring_in_order() {
    let data = dataset();
    let mut replay = ReplayBuffer::new(2, 1, 1);
    let mut bx = Tensor::new(&[3, 1]);
    let mut by = Tensor::new(&[3, 1]);
    let mut order = vec![2usize, 0, 1];
    let mut cursor = 0usize;
    let mut rng = Prng::new(1, 2);
    fill_train_batch(&mut replay, &mut bx, &mut by, None, Some(&data), &mut order, &mut cursor, 3, 0, &mut rng);
    assert_eq!(vals(&bx.data), vec![2.0, 0.0, 1.0]);
    assert_eq!(vals(&by.data), vec![20.0, 0.0, 10.0]);
    // three samples through a ring of two: slot 0 got the third, slot 1 the second
    let mut sx = Tensor::new(&[2, 1]);
    let mut sy = Tensor::new(&[2, 1]);
    replay.copy_row_into(0, &mut sx, &mut sy, 0);
    replay.copy_row_into(1, &mut sx, &mut sy, 1);
    assert_eq!(vals(&sx.data), vec![1.0, 0.0]);
    assert_eq!(vals(&sy.data), vec![10.0, 0.0]);
    assert_eq!(replay.len(), 2);
}
