use martian_sand::cell::{check_random, emit_position, expired, initial_duration, random};
use martian_sand::qtree::QuadTree;

#[test]
fn random_steps_the_generator() {
    let mut seed: u64 = 1;
    assert_eq!(random(&mut seed, u64::MAX), 41);
    assert_eq!(seed, 2745024);
    assert_eq!(random(&mut seed, 2), 2);
    assert_eq!(seed, 587473352323);
}

#[test]
fn random_wraps_around_at_the_top() {
    let mut seed: u64 = u64::MAX;
    assert_eq!(random(&mut seed, 0xff), 35);
    assert_eq!(seed, 2316998);
}

#[test]
fn random_masks_with_max() {
    let mut seed: u64 = u64::MAX;
    assert_eq!(random(&mut seed, 4), 0);
    let mut seed2: u64 = u64::MAX;
    assert_eq!(random(&mut seed2, 2), 2);
}

#[test]
fn initial_duration_takes_six_bits() {
    assert_eq!(initial_duration(0x00AB_0000), 43);
    assert_eq!(initial_duration(0xFFFF), 0);
    assert_eq!(initial_duration(u64::MAX), 63);
}

#[test]
fn expired_needs_age_and_luck() {
    assert!(expired(200, Some(150), 0xC1));
    assert!(!expired(150, Some(150), 0xC1));
    assert!(!expired(200, Some(150), 0xC0));
    assert!(!expired(1000, None, 0xFF));
}

#[test]
fn check_random_looks_at_a_diagonal_neighbour() {
    let mut tree: QuadTree<usize> = QuadTree::new(0, 0, 10, 10, 4);
    tree.insert(3, 5, 9).unwrap();
    let mut seed: u64 = 1;
    assert_eq!(check_random(&mut seed, 4, 4, 7, &tree), (7, Some(9)));
    assert_eq!(seed, 587473352323);
    let mut seed2: u64 = 1;
    assert_eq!(check_random(&mut seed2, 5, 4, 7, &tree), (7, None));
}

#[test]
fn emit_position_moves_two_cells_and_draws_a_seed() {
    let mut seed: u64 = 1;
    assert_eq!(emit_position(&mut seed, 4, 4), (2, 2, 1918440773822));
    assert_eq!(seed, 125726934553233210);
}
