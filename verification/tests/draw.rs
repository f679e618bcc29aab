use rand::SeedableRng;
use rand_xorshift::XorShiftRng;
use suda_core::draw::{attributes_from_draws, draw_attributes};
use suda_core::forest::occ::trees_from_draws;
use suda_core::order::sort_keyed;

#[test]
fn draws_choose_distinct_attributes() {
    // 0 1 2 3 4 -> 3 1 2 0 4 -> 3 1 2 0 4 -> 3 1 4 0 2
    assert_eq!(attributes_from_draws(5, &vec![3, 1, 4]), vec![3, 1, 4]);
    assert_eq!(attributes_from_draws(3, &vec![2, 2, 2]), vec![2, 0, 1]);
    assert_eq!(attributes_from_draws(4, &vec![]), Vec::<u8>::new());
    let mut rng = XorShiftRng::seed_from_u64(8);
    for _ in 0..50 {
        let mut list = draw_attributes(&mut rng, 9, 4);
        assert_eq!(list.len(), 4);
        list.sort();
        list.dedup();
        assert_eq!(list.len(), 4);
        assert!(list.iter().all(|&a| a < 9));
    }
    assert_eq!(draw_attributes(&mut rng, 3, 10).len(), 3);
}

#[test]
fn different_seeds_draw_differently() {
    let draw = |seed: u64| -> Vec<Vec<u8>> {
        let mut rng = XorShiftRng::seed_from_u64(seed);
        (0..10).map(|_| draw_attributes(&mut rng, 200, 5)).collect()
    };
    assert_eq!(draw(1), draw(1));
    assert_ne!(draw(1), draw(2));
}

#[test]
fn a_sample_is_put_into_as_many_trees_as_asked_for() {
    // A tree is taken if what is drawn is below the number of places that are left
    let list = trees_from_draws(5, 2, &vec![4, 1, 2, 0]);
    assert_eq!(list, vec![1, 3]);
}

#[test]
fn lists_are_sorted_by_key_and_identifier() {
    let list = vec![(3, 1), (-7, 9), (3, 0), (i128::MAX, 4), (-7, 2), (0, 0)];
    let sorted = sort_keyed(list);
    assert_eq!(sorted, vec![(-7, 2), (-7, 9), (0, 0), (3, 0), (3, 1), (i128::MAX, 4)]);
    assert_eq!(sort_keyed::<i128>(vec![]), vec![]);
}
