use ml_lib_rust::{MomentTable, OptimizerSlot};

fn keys(slots: &[OptimizerSlot]) -> Vec<usize> {
    slots.iter().map(|s| s.key).collect()
}

#[test]
fn ensure_keeps_keys_sorted_and_zeroed() {
    let mut t = MomentTable::new();
    t.ensure(5, 2);
    t.ensure(2, 3);
    t.ensure(9, 1);
    t.ensure(5, 7); // already there: unchanged
    assert_eq!(t.len(), 3);
    assert!(t.contains(2));
    assert!(!t.contains(3));
    let out = t.export_slots();
    assert_eq!(keys(&out), vec![2, 5, 9]);
    assert_eq!(out[1].m, vec![0u32; 2]);
    assert_eq!(out[1].v, vec![0u32; 2]);
    assert_eq!(out[0].m.len(), 3);
    // (3 + 2 + 1) elements of each moment, four bytes each
    assert_eq!(t.state_bytes(), 48);
}

#[test]
fn replace_moments_swaps_in_new_values() {
    let mut t = MomentTable::new();
    t.ensure(4, 2);
    let one = 1.0f32.to_bits();
    let two = 2.0f32.to_bits();
    let old = t.replace_moments(4, vec![one, one], vec![two, two]).unwrap();
    assert_eq!(old, (vec![0u32, 0], vec![0u32, 0]));
    let out = t.export_slots();
    assert_eq!(out[0].m, vec![one, one]);
    assert_eq!(out[0].v, vec![two, two]);
    assert!(t.replace_moments(7, Vec::new(), Vec::new()).is_none());
    assert_eq!(t.len(), 1);
}

#[test]
fn import_keeps_the_last_slot_per_key_in_key_order() {
    let mut t = MomentTable::new();
    t.ensure(100, 1);
    t.import_slots(vec![
        OptimizerSlot { key: 3, m: vec![1], v: vec![1] },
        OptimizerSlot { key: 1, m: vec![2], v: vec![2] },
        OptimizerSlot { key: 3, m: vec![3], v: vec![3] },
    ]);
    let out = t.export_slots();
    assert_eq!(keys(&out), vec![1, 3]);
    assert_eq!(out[1].m, vec![3]);
    assert_eq!(out[0].v, vec![2]);
}

#[test]
fn export_then_import_gives_the_table_back() {
    let mut t = MomentTable::new();
    t.ensure(8, 1);
    t.ensure(1, 2);
    t.replace_moments(8, vec![7], vec![9]);
    let mut u = MomentTable::new();
    u.import_slots(t.export_slots());
    let a = t.export_slots();
    let b = u.export_slots();
    assert_eq!(keys(&a), keys(&b));
    for (x, y) in a.iter().zip(b.iter()) {
        assert_eq!(x.m, y.m);
        assert_eq!(x.v, y.v);
    }
}

#[test]
fn state_bytes_fit_for_real_tables() {
    let mut t = MomentTable::new();
    assert!(t.state_bytes_fit());
    t.ensure(1, 10);
    assert!(t.state_bytes_fit());
    assert_eq!(t.state_bytes(), 80);
}
