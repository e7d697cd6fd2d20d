use ml_lib_rust::data::shuffle_indices;
use ml_lib_rust::prng::Prng;

#[test]
fn prng_known_outputs() {
    let mut rng = Prng::new(0x853c49e6748fea9b, 0xda3e39cb94b95bdb);
    assert_eq!(rng.next_u64(), 0x01bdf30201781742);
    assert_eq!(rng.next_u64(), 0xdaa777ab5ea25a34);
    assert_eq!(rng.next_u64(), 0x91288322912f1f38);
    let mut small = Prng::new(1, 2);
    assert_eq!(small.next_u64(), 16015603181263562132);
    assert_eq!(small.next_u64(), 10997867039292818633);
    assert_eq!(small.next_u64(), 11316786097566656219);
}

#[test]
fn prng_is_deterministic() {
    let mut a = Prng::new(42, 7);
    let mut b = Prng::new(42, 7);
    for _ in 0..100 {
        assert_eq!(a.next_u64(), b.next_u64());
    }
    let mut c = Prng::new(43, 7);
    let mut d = Prng::new(42, 7);
    assert_ne!(c.next_u64(), d.next_u64());
}

#[test]
fn shuffle_known_order() {
    let mut order = vec![0usize, 1, 2, 3, 4, 5];
    let mut rng = Prng::new(1, 2);
    shuffle_indices(&mut order, &mut rng);
    assert_eq!(order, vec![5, 0, 1, 4, 3, 2]);
}

#[test]
fn shuffle_is_a_permutation() {
    let mut rng = Prng::new(9, 9);
    for n in 0..40usize {
        let mut order: Vec<usize> = (0..n).collect();
        shuffle_indices(&mut order, &mut rng);
        let mut sorted = order.clone();
        sorted.sort();
        assert_eq!(sorted, (0..n).collect::<Vec<usize>>());
    }
}

#[test]
fn shuffle_empty_and_single_draw_nothing() {
    let mut rng = Prng::new(5, 6);
    let mut reference = Prng::new(5, 6);
    let mut empty: Vec<usize> = Vec::new();
    shuffle_indices(&mut empty, &mut rng);
    let mut one = vec![7usize];
    shuffle_indices(&mut one, &mut rng);
    assert_eq!(one, vec![7]);
    assert_eq!(rng.next_u64(), reference.next_u64());
}
