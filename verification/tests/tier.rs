//! Which runs a tiered merge takes.

use blaze::storage::pick_merge;

#[test]
fn a_full_level_merges_exactly_fanout_runs() {
    assert_eq!(pick_merge(&[0; 3], 4, 100), None);
    assert_eq!(pick_merge(&[0; 4], 4, 100), Some(0..4));
    assert_eq!(pick_merge(&[0; 5], 4, 100), Some(0..4));
}

#[test]
fn the_lowest_full_level_wins() {
    let levels = [1, 1, 1, 1, 0, 0, 0, 0];
    assert_eq!(pick_merge(&levels, 4, 100), Some(4..8));
    let levels = [1, 1, 1, 1, 0, 0, 0];
    assert_eq!(pick_merge(&levels, 4, 100), Some(0..4));
}

#[test]
fn a_stretch_must_be_contiguous() {
    assert_eq!(pick_merge(&[0, 0, 1, 0, 0], 4, 100), None);
    assert_eq!(pick_merge(&[0, 0, 1, 0, 0, 0, 0], 4, 100), Some(3..7));
}

#[test]
fn the_depth_ceiling_merges_early_rather_than_fully() {
    let levels = [3, 2, 1, 1, 0];
    assert_eq!(pick_merge(&levels, 10, 100), None, "under the ceiling");
    assert_eq!(
        pick_merge(&levels, 10, 5),
        Some(2..4),
        "at the ceiling, take the lowest stretch there is"
    );
}

#[test]
fn a_fully_tiered_stack_over_the_ceiling_is_left_alone() {
    assert_eq!(pick_merge(&[4, 3, 2, 1, 0], 10, 3), None);
}

#[test]
fn a_degenerate_fanout_is_clamped() {
    assert_eq!(pick_merge(&[0], 0, 100), None);
    assert_eq!(pick_merge(&[0], 1, 100), None);
    assert_eq!(pick_merge(&[0, 0], 1, 100), Some(0..2));
}

#[test]
fn an_empty_stack_has_nothing_to_merge() {
    assert_eq!(pick_merge(&[], 10, 0), None);
}
