use mangatan_ocr_server::logic::{BoundingBox, OcrResult, Orientation};
use mangatan_ocr_server::cluster::cluster;
use mangatan_ocr_server::merge::{
    auto_merge, box_is_vertical, box_thickness, check_lines, cover_boxes, group_ocr_data, links,
    merge_group, MergeConfig, RobustSize,
};
use mangatan_ocr_server::sorting::{median, stable_order};

const PX: i64 = 1_000_000;

fn px_box(x: i64, y: i64, width: i64, height: i64) -> BoundingBox {
    BoundingBox { x: x * PX, y: y * PX, width: width * PX, height: height * PX, rotation: None }
}

fn line(text: &str, x: i64, y: i64, width: i64, height: i64) -> OcrResult {
    OcrResult {
        text: text.to_string(),
        tight_bounding_box: px_box(x, y, width, height),
        is_merged: Some(false),
        forced_orientation: None,
    }
}

#[test]
fn default_config_has_the_calibrated_thresholds() {
    let c = MergeConfig::default();
    assert!(c.enabled);
    assert_eq!(c.dist_k, 1200);
    assert_eq!(c.font_ratio, 1300);
    assert_eq!(c.perp_tol, 500);
    assert_eq!(c.overlap_min, 100);
    assert_eq!(c.min_line_ratio, 500);
    assert_eq!(c.font_ratio_for_mixed, 1100);
    assert_eq!(c.mixed_min_overlap_ratio, 500);
    assert!(!c.add_space_on_merge);
}

#[test]
fn orientation_boundary() {
    assert!(box_is_vertical(&px_box(0, 0, 10, 100)));
    assert!(!box_is_vertical(&px_box(0, 0, 100, 10)));
    assert!(box_is_vertical(&px_box(0, 0, 10, 10)));
}

#[test]
fn median_of_odd_and_even_counts() {
    assert_eq!(median(&vec![]), 0);
    assert_eq!(median(&vec![7]), 14);
    assert_eq!(median(&vec![30, 10, 20]), 40);
    assert_eq!(median(&vec![40, 10, 30, 20]), 50);
}

#[test]
fn stable_order_keeps_equal_keys_in_place() {
    let keys = vec![(5, 0), (1, 0), (5, 0), (1, 0), (3, 9), (3, 2)];
    assert_eq!(stable_order(&keys), vec![1, 3, 5, 4, 0, 2]);
}

#[test]
fn two_rows_close_together_merge() {
    // Equal height 20, one below the other with a vertical gap of half a
    // height, and the same horizontal extent.
    let lines = vec![line("ab", 100, 100, 200, 20), line("cd", 100, 130, 200, 20)];
    let out = auto_merge(lines, 1000, 1000, &MergeConfig::default());
    assert_eq!(out.len(), 1);
    assert_eq!(out[0].text, "ab\u{200D}cd");
    assert_eq!(out[0].is_merged, Some(true));
    assert_eq!(out[0].forced_orientation, Some(Orientation::Horizontal));
    assert_eq!(out[0].tight_bounding_box, px_box(100, 100, 200, 50));
}

#[test]
fn two_rows_far_apart_stay_apart() {
    // Gap of two and a half heights: more than 1.2 times the median.
    let lines = vec![line("ab", 100, 100, 200, 20), line("cd", 100, 170, 200, 20)];
    let out = auto_merge(lines, 1000, 1000, &MergeConfig::default());
    assert_eq!(out.len(), 2);
    assert_eq!(out[0].text, "ab");
    assert_eq!(out[0].is_merged, Some(false));
    assert_eq!(out[0].tight_bounding_box, px_box(100, 100, 200, 20));
    assert_eq!(out[1].text, "cd");
}

#[test]
fn gap_threshold_is_inclusive() {
    // The median of 20 and 20 is 20; a gap of 24 is exactly 1.2 times it.
    let at = vec![line("a", 0, 0, 200, 20), line("b", 0, 44, 200, 20)];
    assert_eq!(auto_merge(at, 1000, 1000, &MergeConfig::default()).len(), 1);
    let over = vec![line("a", 0, 0, 200, 20), line("b", 0, 45, 200, 20)];
    assert_eq!(auto_merge(over, 1000, 1000, &MergeConfig::default()).len(), 2);
}

#[test]
fn font_ratio_gates_the_merge() {
    // Heights 20 and 28: ratio 1.4, no merge.
    let far = vec![line("a", 0, 0, 200, 20), line("b", 0, 25, 200, 28)];
    assert_eq!(auto_merge(far, 1000, 1000, &MergeConfig::default()).len(), 2);
    // Heights 20 and 24: ratio 1.2, merge.
    let near = vec![line("a", 0, 0, 200, 20), line("b", 0, 25, 200, 24)];
    assert_eq!(auto_merge(near, 1000, 1000, &MergeConfig::default()).len(), 1);
}

#[test]
fn columns_are_read_from_the_right() {
    let lines = vec![
        line("left", 100, 100, 20, 200),
        line("right", 130, 100, 20, 200),
    ];
    let out = auto_merge(lines, 1000, 1000, &MergeConfig::default());
    assert_eq!(out.len(), 1);
    assert_eq!(out[0].text, "right\u{200D}left");
    assert_eq!(out[0].forced_orientation, Some(Orientation::Vertical));
    assert_eq!(out[0].tight_bounding_box, px_box(100, 100, 50, 200));
}

#[test]
fn space_joins_when_asked_for() {
    let mut config = MergeConfig::default();
    config.add_space_on_merge = true;
    let lines = vec![line("ab", 100, 100, 200, 20), line("cd", 100, 130, 200, 20)];
    let out = auto_merge(lines, 1000, 1000, &config);
    assert_eq!(out[0].text, "ab cd");
}

#[test]
fn rows_and_columns_never_merge() {
    let lines = vec![line("row", 100, 100, 200, 20), line("col", 100, 125, 20, 200)];
    let out = auto_merge(lines, 1000, 1000, &MergeConfig::default());
    assert_eq!(out.len(), 2);
}

#[test]
fn disabled_config_returns_the_lines() {
    let mut config = MergeConfig::default();
    config.enabled = false;
    let lines = vec![line("ab", 100, 100, 200, 20), line("cd", 100, 130, 200, 20)];
    let out = auto_merge(lines, 1000, 1000, &config);
    assert_eq!(out.len(), 2);
    assert_eq!(out[0].text, "ab");
    assert_eq!(out[1].text, "cd");
}

#[test]
fn merging_a_merged_group_again_changes_nothing() {
    let lines = vec![line("ab", 100, 100, 200, 20), line("cd", 100, 130, 200, 20)];
    let once = auto_merge(lines, 1000, 1000, &MergeConfig::default());
    assert_eq!(once.len(), 1);
    let twice = auto_merge(once.clone(), 1000, 1000, &MergeConfig::default());
    assert_eq!(twice.len(), 1);
    assert_eq!(twice[0].text, once[0].text);
    assert_eq!(twice[0].tight_bounding_box, once[0].tight_bounding_box);
    assert_eq!(twice[0].is_merged, once[0].is_merged);
    assert_eq!(twice[0].forced_orientation, once[0].forced_orientation);
}

#[test]
fn chains_merge_through_a_middle_line() {
    // The first and the third row are too far apart to link directly.
    let lines = vec![
        line("c", 0, 60, 200, 20),
        line("a", 0, 0, 200, 20),
        line("b", 0, 30, 200, 20),
    ];
    let groups = group_ocr_data(&lines, 1000, 1000, &MergeConfig::default());
    assert_eq!(groups, vec![vec![1, 2, 0]]);
    let out = auto_merge(lines, 1000, 1000, &MergeConfig::default());
    assert_eq!(out.len(), 1);
    assert_eq!(out[0].text, "a\u{200D}b\u{200D}c");
}

#[test]
fn groups_come_by_their_topmost_line() {
    let lines = vec![
        line("low", 0, 500, 200, 20),
        line("top", 0, 0, 200, 20),
        line("low2", 0, 530, 200, 20),
    ];
    let groups = group_ocr_data(&lines, 1000, 1000, &MergeConfig::default());
    assert_eq!(groups, vec![vec![1], vec![0, 2]]);
}

#[test]
fn tall_band_is_split_into_sub_bands() {
    // A band of 100 by 1000 pixels is ten times as high as wide: lines more
    // than three band widths below the first open a new sub-band, which is
    // calibrated on its own lines.
    let lines = vec![
        line("a", 0, 0, 50, 10),
        line("b", 0, 12, 50, 10),
        line("c", 0, 400, 50, 10),
        line("d", 0, 412, 50, 10),
    ];
    let groups = group_ocr_data(&lines, 100, 1000, &MergeConfig::default());
    assert_eq!(groups, vec![vec![0, 1], vec![2, 3]]);
}

#[test]
fn merge_group_votes_by_majority() {
    let lines = vec![
        line("a", 0, 0, 10, 30),
        line("b", 20, 0, 10, 30),
        line("c", 40, 0, 30, 10),
    ];
    let merged = merge_group(&lines, &vec![0, 1, 2], &MergeConfig::default());
    assert_eq!(merged.forced_orientation, Some(Orientation::Vertical));
    assert_eq!(merged.text, "c\u{200D}b\u{200D}a");
    assert_eq!(merged.tight_bounding_box, px_box(0, 0, 70, 30));
}

#[test]
fn mixed_pair_needs_half_overlap() {
    let config = MergeConfig::default();
    // Robust size 100: a line of size 45 is not primary, one of 49 is not
    // either, one of 50 is.
    let rob = RobustSize { num: 200 * PX as i128, den: 2 };
    let small = px_box(0, 0, 200, 48);
    let big = px_box(150, 50, 200, 50);
    // Sizes 48 and 50 agree within 1.1; the rows share 50 of 200 units: a
    // quarter, enough for equals, too little for a mixed pair.
    assert!(!links(&small, &big, &rob, &config));
    let big_twin = px_box(0, 0, 200, 50);
    assert!(links(&big_twin, &big, &rob, &config));
}

#[test]
fn rows_side_by_side_do_not_merge() {
    // Two rows at one height, half a row height apart along the row: they
    // share no column, and rows are joined across rows, not along them.
    let lines = vec![line("ab", 100, 100, 200, 20), line("cd", 310, 100, 200, 20)];
    let out = auto_merge(lines, 1000, 1000, &MergeConfig::default());
    assert_eq!(out.len(), 2);
}

#[test]
fn absent_orientation_is_calibrated_at_twenty() {
    // Lines of no height have no positive median: the robust size is 20
    // units of a band 1000 units wide, so that a gap of 24 units links and
    // one of 25 does not. The band is 500 pixels wide: 12 and 12.5 pixels.
    let config = MergeConfig::default();
    let rob = RobustSize { num: 20 * 500 * PX as i128, den: 1000 };
    let a = BoundingBox { x: 0, y: 0, width: 100 * PX, height: 0, rotation: None };
    let near = BoundingBox { x: 0, y: 12 * PX, width: 100 * PX, height: 0, rotation: None };
    let far = BoundingBox { x: 0, y: 12 * PX + PX / 2 + 1, width: 100 * PX, height: 0, rotation: None };
    assert!(links(&a, &near, &rob, &config));
    assert!(!links(&a, &far, &rob, &config));
}

#[test]
fn cover_is_the_smallest_box_around_two() {
    let a = px_box(10, 20, 30, 40);
    let mut b = px_box(0, 50, 20, 30);
    b.rotation = Some(5);
    assert_eq!(cover_boxes(&a, &b), px_box(0, 20, 40, 60));
    assert_eq!(cover_boxes(&b, &b), px_box(0, 50, 20, 30));
}

#[test]
fn thickness_is_the_smaller_extent() {
    assert_eq!(box_thickness(&px_box(0, 0, 10, 100)), 10 * PX);
    assert_eq!(box_thickness(&px_box(0, 0, 100, 10)), 10 * PX);
}

#[test]
fn lines_are_checked_one_by_one() {
    let mut lines = vec![line("a", 0, 0, 1, 1), line("b", 0, 0, 1, 1)];
    assert!(check_lines(&lines));
    lines[1].tight_bounding_box.height = -1;
    assert!(!check_lines(&lines));
    assert!(check_lines(&vec![]));
}

#[test]
fn cluster_lists_positions_by_group() {
    let boxes = vec![
        px_box(0, 0, 200, 20),
        px_box(0, 30, 200, 20),
        px_box(500, 300, 20, 200),
        px_box(0, 60, 200, 20),
        px_box(530, 300, 20, 200),
    ];
    let groups = cluster(&boxes, 1000, 1000, &MergeConfig::default());
    assert_eq!(groups, vec![vec![0, 1, 3], vec![2, 4]]);
    assert_eq!(cluster(&vec![], 1000, 1000, &MergeConfig::default()), Vec::<Vec<usize>>::new());
}

#[test]
fn a_line_that_is_too_small_for_its_band_links_to_equals_only() {
    // Five rows of height 40 and two of height 10 between them: the small
    // rows are not primary. They link to each other, not to the large rows
    // beside them.
    let lines = vec![
        line("A", 0, 0, 400, 40),
        line("B", 0, 45, 400, 40),
        line("C", 0, 90, 400, 40),
        line("x", 0, 135, 400, 10),
        line("y", 0, 150, 400, 10),
        line("D", 0, 185, 400, 40),
        line("E", 0, 230, 400, 40),
    ];
    let groups = group_ocr_data(&lines, 1000, 1000, &MergeConfig::default());
    assert_eq!(groups, vec![vec![0, 1, 2], vec![3, 4], vec![5, 6]]);
}

#[test]
fn two_columns_are_joined_by_a_zero_width_joiner() {
    let lines = vec![line("A", 100, 100, 10, 100), line("B", 115, 100, 12, 100)];
    let out = auto_merge(lines, 1000, 1000, &MergeConfig::default());
    assert_eq!(out.len(), 1);
    assert_eq!(out[0].text, "B\u{200D}A");
    assert_eq!(out[0].text.chars().count(), 3);
}
