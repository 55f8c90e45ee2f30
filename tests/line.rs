use game2048::line::coalesce;

#[test]
fn coalesce_nones() {
    let mut arr = [None, None, None, None];
    arr = coalesce(arr);
    assert_eq!(arr, [None, None, None, None]);
}

#[test]
fn coalesce_one() {
    let mut arr = [None, None, None, Some(1)];
    arr = coalesce(arr);
    assert_eq!(arr, [None, None, None, Some(1)]);
}

#[test]
fn coalesce_right() {
    let mut arr = [None, None, Some(1), None];
    arr = coalesce(arr);
    assert_eq!(arr, [None, None, None, Some(1)]);
}

#[test]
fn coalesce_add() {
    let mut arr = [None, None, Some(1), Some(1)];
    arr = coalesce(arr);
    assert_eq!(arr, [None, None, None, Some(2)]);
}

#[test]
fn coalesce_add_extra() {
    let mut arr = [None, Some(1), Some(1), Some(1)];
    arr = coalesce(arr);
    assert_eq!(arr, [None, None, Some(1), Some(2)]);
}

#[test]
fn coalesce_all_ones() {
    let mut arr = [Some(1), Some(1), Some(1), Some(1)];
    arr = coalesce(arr);
    assert_eq!(arr, [None, None, Some(2), Some(2)]);
}

#[test]
fn coalesce_leave_two_after_ones() {
    let mut arr = [None, Some(2), Some(1), Some(1)];
    arr = coalesce(arr);
    assert_eq!(arr, [None, None, Some(2), Some(2)]);
}

#[test]
fn single_tile_at_low_end_slides_to_high_end() {
    assert_eq!(coalesce([Some(8), None, None, None]), [None, None, None, Some(8)]);
}

#[test]
fn coalesced_line_without_equal_neighbours_is_fixed() {
    let once = coalesce([Some(4), None, Some(2), Some(4)]);
    assert_eq!(once, [None, Some(4), Some(2), Some(4)]);
    assert_eq!(coalesce(once), once);
}

#[test]
fn second_pass_merges_what_the_first_left() {
    let once = coalesce([None, Some(1), Some(1), Some(2)]);
    assert_eq!(once, [None, None, Some(2), Some(2)]);
    assert_eq!(coalesce(once), [None, None, None, Some(4)]);
}

#[test]
fn merge_drops_one_tile_per_merge() {
    let out = coalesce([Some(2), Some(2), Some(4), Some(4)]);
    assert_eq!(out, [None, None, Some(4), Some(8)]);
    assert_eq!(out.iter().filter(|c| c.is_some()).count(), 2);
}

#[test]
fn largest_tile_that_still_fits_merges() {
    let half = 1u32 << 31;
    let quarter = 1u32 << 30;
    assert_eq!(coalesce([None, None, Some(quarter), Some(quarter)]), [None, None, None, Some(half)]);
    assert_eq!(coalesce([Some(half), None, None, None]), [None, None, None, Some(half)]);
}
