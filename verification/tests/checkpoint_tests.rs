use ml_lib_rust::checkpoint::{
    encode_checkpoint, load_checkpoint_bytes, read_f32_slice, read_u32, read_u64, write_f32_slice, write_u32,
    write_u64, CheckpointError, OptimizerSlot, OptimizerState,
};
use ml_lib_rust::model::{ModelContext, MV_FLAG_INPUT, MV_FLAG_NONE, MV_FLAG_PARAMETER, MV_FLAG_REQUIRES_GRAD};

fn model() -> ModelContext {
    let mut m = ModelContext::new();
    let x = m.create_var(&[1, 2], MV_FLAG_INPUT);
    let w = m.create_var(&[2, 2], MV_FLAG_REQUIRES_GRAD | MV_FLAG_PARAMETER);
    let _ = m.matmul(x, w, MV_FLAG_NONE).unwrap();
    let _ = m.create_var(&[2], MV_FLAG_PARAMETER);
    m
}

fn bits(v: &[f32]) -> Vec<u32> {
    v.iter().map(|x| x.to_bits()).collect()
}

#[test]
fn primitive_writers_and_readers() {
    let mut w = Vec::new();
    write_u32(&mut w, 0x01020304);
    write_u64(&mut w, 0x1122334455667788);
    write_f32_slice(&mut w, &bits(&[1.5, -2.0]));
    assert_eq!(&w[..4], &[4, 3, 2, 1]);
    assert_eq!(&w[4..12], &[0x88, 0x77, 0x66, 0x55, 0x44, 0x33, 0x22, 0x11]);
    assert_eq!(read_u32(&w, 0), Some(0x01020304));
    assert_eq!(read_u64(&w, 4), Some(0x1122334455667788));
    assert_eq!(read_f32_slice(&w, 12, 2), Some(bits(&[1.5, -2.0])));
    assert_eq!(read_f32_slice(&w, 12, 3), None);
    assert_eq!(read_u32(&w, 18), None);
}

#[test]
fn encoded_layout() {
    let mut m = ModelContext::new();
    let p = m.create_var(&[2], MV_FLAG_PARAMETER);
    m.vars[p].val_mut().data = bits(&[1.0, 2.0]);
    let bytes = encode_checkpoint(&m, None);
    let mut expected: Vec<u8> = b"MLCK".to_vec();
    expected.extend_from_slice(&1u32.to_le_bytes());
    expected.extend_from_slice(&1u32.to_le_bytes());
    expected.extend_from_slice(&0u64.to_le_bytes());
    expected.extend_from_slice(&1u32.to_le_bytes());
    expected.extend_from_slice(&2u64.to_le_bytes());
    expected.extend_from_slice(&2u32.to_le_bytes());
    expected.extend_from_slice(&1.0f32.to_le_bytes());
    expected.extend_from_slice(&2.0f32.to_le_bytes());
    expected.extend_from_slice(&0u32.to_le_bytes());
    assert_eq!(bytes, expected);
}

#[test]
fn checkpoint_round_trip() {
    let mut src = model();
    src.vars[1].val_mut().data = bits(&[0.5, -1.0, 2.0, 4.0]);
    src.vars[3].val_mut().data = bits(&[7.0, 8.0]);
    let opt = OptimizerState {
        step: 12,
        slots: vec![
            OptimizerSlot { key: 1, m: bits(&[0.1, 0.2, 0.3, 0.4]), v: bits(&[1.0, 2.0, 3.0, 4.0]) },
            OptimizerSlot { key: 3, m: bits(&[5.0, 6.0]), v: bits(&[7.0, 8.0]) },
        ],
        hypers: [0.9f32.to_bits(), 0.999f32.to_bits(), 1e-8f32.to_bits(), 0.0f32.to_bits()],
    };
    let bytes = encode_checkpoint(&src, Some(&opt));
    let mut dst = model();
    let got = load_checkpoint_bytes(&bytes, &mut dst).ok().unwrap().unwrap();
    assert_eq!(dst.vars[1].val().data, src.vars[1].val().data);
    assert_eq!(dst.vars[3].val().data, src.vars[3].val().data);
    assert!(dst.vars[2].val().data.iter().all(|&b| b == 0));
    assert_eq!(got.step, 12);
    assert_eq!(got.hypers, opt.hypers);
    assert_eq!(got.slots.len(), 2);
    assert_eq!(got.slots[0].key, 1);
    assert_eq!(got.slots[0].m, opt.slots[0].m);
    assert_eq!(got.slots[1].v, opt.slots[1].v);
    // without optimizer state
    let plain = encode_checkpoint(&src, None);
    let mut dst2 = model();
    assert!(load_checkpoint_bytes(&plain, &mut dst2).ok().unwrap().is_none());
    assert_eq!(dst2.vars[3].val().data, bits(&[7.0, 8.0]));
}

fn err_of(bytes: &[u8]) -> CheckpointError {
    let mut m = model();
    match load_checkpoint_bytes(bytes, &mut m) {
        Ok(_) => panic!("expected an error"),
        Err(e) => e,
    }
}

#[test]
fn checkpoint_errors() {
    let good = encode_checkpoint(&model(), None);
    assert!(matches!(err_of(&good[..3]), CheckpointError::UnexpectedEof));
    let mut bad = good.clone();
    bad[0] = b'X';
    assert!(matches!(err_of(&bad), CheckpointError::BadMagic));
    let mut v2 = good.clone();
    v2[4] = 2;
    assert!(matches!(err_of(&v2), CheckpointError::UnsupportedVersion(2)));
    let mut count = good.clone();
    count[8] = 5;
    assert!(matches!(err_of(&count), CheckpointError::ParamCountMismatch { file: 5, model: 2 }));
    let mut notp = good.clone();
    notp[12] = 0;
    assert!(matches!(err_of(&notp), CheckpointError::NotAParameter(0)));
    assert!(matches!(err_of(&good[..good.len() - 1]), CheckpointError::UnexpectedEof));
    assert!(matches!(err_of(&good[..20]), CheckpointError::UnexpectedEof));
    // a model whose parameter has another shape
    let mut other = ModelContext::new();
    let _ = other.create_var(&[1, 2], MV_FLAG_INPUT);
    let _ = other.create_var(&[4], MV_FLAG_PARAMETER);
    let _ = other.create_var(&[1], MV_FLAG_NONE);
    let _ = other.create_var(&[2], MV_FLAG_PARAMETER);
    match load_checkpoint_bytes(&good, &mut other) {
        Err(CheckpointError::ShapeMismatch { index, file_shape }) => {
            assert_eq!(index, 1);
            assert_eq!(file_shape, vec![2, 2]);
        },
        _ => panic!("expected a shape mismatch"),
    }
}

#[test]
fn records_before_a_failure_are_applied() {
    let mut src = model();
    src.vars[1].val_mut().data = bits(&[1.0, 2.0, 3.0, 4.0]);
    let bytes = encode_checkpoint(&src, None);
    // cut inside the second parameter record
    let cut = bytes.len() - 8;
    let mut dst = model();
    assert!(matches!(load_checkpoint_bytes(&bytes[..cut], &mut dst), Err(CheckpointError::UnexpectedEof)));
    assert_eq!(dst.vars[1].val().data, bits(&[1.0, 2.0, 3.0, 4.0]));
}
