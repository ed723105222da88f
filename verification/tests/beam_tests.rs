use std::collections::HashSet;
use topolsea::beam::{admit_ids, budget_exhausted, BeamMove, BeamWalk};
use topolsea::grid::CellCoord;

#[test]
fn budget_zero_is_unlimited() {
    assert!(!budget_exhausted(0, 1_000_000));
    assert!(!budget_exhausted(3, 2));
    assert!(budget_exhausted(3, 3));
    assert!(budget_exhausted(3, 4));
}

#[test]
fn admission_skips_ineligible_and_touched_ids() {
    let ids = vec![10, 11, 12, 11, 13];
    let eligible = vec![true, false, true, true, true];
    let mut visited: HashSet<u64> = HashSet::new();
    visited.insert(12);
    let admitted = admit_ids(&ids, &eligible, &mut visited, 0);
    assert_eq!(admitted, vec![0, 3, 4]);
    let expected: HashSet<u64> = [10, 11, 12, 13].into_iter().collect();
    assert_eq!(visited, expected);
}

#[test]
fn admission_stops_at_the_touch_budget() {
    let ids = vec![1, 2, 3, 4, 5];
    let eligible = vec![true; 5];
    let mut visited: HashSet<u64> = HashSet::new();
    visited.insert(99);
    let admitted = admit_ids(&ids, &eligible, &mut visited, 3);
    assert_eq!(admitted, vec![0, 1]);
    assert_eq!(visited.len(), 3);
    // Already at the budget: nothing more is admitted.
    let again = admit_ids(&vec![7, 8], &vec![true, true], &mut visited, 3);
    assert!(again.is_empty());
    assert_eq!(visited.len(), 3);
}

#[test]
fn walk_descends_and_reverts_along_its_trail() {
    let mut walk = BeamWalk::new(0, 2);
    assert!(walk.can_descend(3));
    assert!(!walk.can_descend(0));
    let a = CellCoord::new(0, 1, 1);
    walk.descend(a);
    assert_eq!(walk.depth, 1);
    assert_eq!(walk.deepest, 1);
    let b = CellCoord::new(1, 2, 3);
    walk.descend(b);
    assert_eq!(walk.depth, 2);
    assert!(!walk.can_descend(5));

    // Pool not filled: back up to the last cell of the trail.
    assert_eq!(walk.after_level(true, 1, 4), BeamMove::Siblings(b));
    assert_eq!(walk.depth, 1);
    assert_eq!(walk.after_level(false, 10, 4), BeamMove::Siblings(a));
    assert_eq!(walk.depth, 0);
    // Empty trail on the top layer: stop.
    assert_eq!(walk.after_level(false, 0, 4), BeamMove::Stop);
    assert_eq!(walk.deepest, 2);
}

#[test]
fn walk_stops_when_the_pool_is_full() {
    let mut walk = BeamWalk::new(1, 3);
    walk.descend(CellCoord::new(1, 0, 0));
    assert_eq!(walk.after_level(true, 4, 4), BeamMove::Stop);
    assert_eq!(walk.depth, 2);
    assert_eq!(walk.trail.len(), 1);
}

#[test]
fn walk_moves_up_a_layer_without_a_trail() {
    let mut walk = BeamWalk::new(2, 3);
    assert_eq!(walk.after_level(false, 0, 1), BeamMove::LayerUp);
    assert_eq!(walk.depth, 1);
    assert_eq!(walk.after_level(true, 0, 1), BeamMove::LayerUp);
    assert_eq!(walk.depth, 0);
    assert_eq!(walk.after_level(true, 0, 1), BeamMove::Stop);
}
