use mangatan_ocr_server::geometry::{classify_orientation, normalize_line, rotated_extent, OracleLine};
use mangatan_ocr_server::logic::{
    cache_key_from, check_chunks, check_reports, downsample_high_byte, floor_div, get_cache_key,
    get_raw_chunk, plan_bands, process_page,
    process_chunk, process_chunks, stitch_box, Band, BoundingBox, OcrResult, Orientation,
    PipelineError, RawChunk,
};
use mangatan_ocr_server::merge::MergeConfig;
use mangatan_ocr_server::text::strip_whitespace;

const PX: i64 = 1_000_000;

fn report(text: &str, cx: i64, cy: i64, w: i64, h: i64) -> OracleLine {
    OracleLine {
        text: text.to_string(),
        center_x: cx,
        center_y: cy,
        width: w,
        height: h,
        rotation: 0,
        cos: 1_000_000,
        sin: 0,
    }
}

#[test]
fn six_thousand_rows_make_two_bands() {
    assert_eq!(
        plan_bands(6000),
        vec![Band { y: 0, height: 3000 }, Band { y: 3000, height: 3000 }]
    );
}

#[test]
fn last_band_may_be_shorter() {
    assert_eq!(
        plan_bands(7000),
        vec![
            Band { y: 0, height: 3000 },
            Band { y: 3000, height: 3000 },
            Band { y: 6000, height: 1000 }
        ]
    );
    assert_eq!(plan_bands(0), vec![]);
    assert_eq!(plan_bands(1), vec![Band { y: 0, height: 1 }]);
    assert_eq!(plan_bands(3000), vec![Band { y: 0, height: 3000 }]);
    assert_eq!(plan_bands(3001).len(), 2);
    assert_eq!(plan_bands(u32::MAX).len(), 1431656);
}

#[test]
fn floor_div_rounds_down() {
    assert_eq!(floor_div(7, 2), 3);
    assert_eq!(floor_div(-7, 2), -4);
    assert_eq!(floor_div(-8, 2), -4);
    assert_eq!(floor_div(0, 5), 0);
}

#[test]
fn stitching_divides_by_the_image() {
    let b = BoundingBox { x: 100 * PX, y: 50 * PX, width: 200 * PX, height: 25 * PX, rotation: Some(7) };
    let s = stitch_box(&b, 0, 1000, 500);
    assert_eq!(
        s,
        BoundingBox { x: 100_000, y: 100_000, width: 200_000, height: 50_000, rotation: Some(7) }
    );
}

#[test]
fn second_band_is_stitched_into_the_lower_half() {
    let b = BoundingBox { x: 0, y: 0, width: 10 * PX, height: 10 * PX, rotation: None };
    let s = stitch_box(&b, 3000, 1000, 6000);
    assert_eq!(s.y, 500_000);
    let lower = BoundingBox { x: 0, y: 1500 * PX, width: 10 * PX, height: 10 * PX, rotation: None };
    assert_eq!(stitch_box(&lower, 3000, 1000, 6000).y, 750_000);
}

#[test]
fn upright_line_keeps_its_box() {
    let line = report("abc", 500_000, 250_000, 200_000, 100_000);
    let b = rotated_extent(&line, 1000, 400);
    assert_eq!(
        b,
        BoundingBox { x: 400 * PX, y: 80 * PX, width: 200 * PX, height: 40 * PX, rotation: None }
    );
}

#[test]
fn quarter_turn_swaps_the_extents() {
    let mut line = report("abc", 500_000, 500_000, 200_000, 100_000);
    line.rotation = 1_570_796;
    line.cos = 0;
    line.sin = 1_000_000;
    let b = rotated_extent(&line, 1000, 1000);
    assert_eq!(
        b,
        BoundingBox {
            x: 450 * PX,
            y: 400 * PX,
            width: 100 * PX,
            height: 200 * PX,
            rotation: Some(1_570_796)
        }
    );
}

#[test]
fn orientation_follows_a_clear_rotation() {
    let wide = BoundingBox { x: 0, y: 0, width: 100, height: 10, rotation: None };
    let high = BoundingBox { x: 0, y: 0, width: 10, height: 100, rotation: None };
    let square = BoundingBox { x: 0, y: 0, width: 10, height: 10, rotation: None };
    assert_eq!(classify_orientation(0, &wide), Orientation::Horizontal);
    assert_eq!(classify_orientation(0, &high), Orientation::Vertical);
    assert_eq!(classify_orientation(0, &square), Orientation::Vertical);
    assert_eq!(classify_orientation(100_000, &wide), Orientation::Horizontal);
    assert_eq!(classify_orientation(1_570_796, &wide), Orientation::Vertical);
    assert_eq!(classify_orientation(-1_570_796, &wide), Orientation::Vertical);
    assert_eq!(classify_orientation(1_070_797, &wide), Orientation::Vertical);
    assert_eq!(classify_orientation(1_070_796, &wide), Orientation::Horizontal);
    assert_eq!(classify_orientation(3_141_592, &high), Orientation::Horizontal);
    assert_eq!(classify_orientation(i64::MIN, &high), Orientation::Horizontal);
}

#[test]
fn whitespace_goes_from_cjk_text_only() {
    assert_eq!(strip_whitespace("hello world"), "hello world");
    assert_eq!(strip_whitespace("こん にちは\u{3000}世界\n"), "こんにちは世界");
    assert_eq!(strip_whitespace(" カ タ "), "カタ");
    assert_eq!(strip_whitespace("   "), "   ");
    assert_eq!(strip_whitespace(""), "");
    assert_eq!(strip_whitespace("漢 a b"), "漢ab");
}

#[test]
fn empty_lines_are_discarded() {
    assert!(normalize_line(&report("", 500_000, 500_000, 10_000, 10_000), 100, 100).is_none());
    let kept = normalize_line(&report(" 字 ", 500_000, 500_000, 100_000, 200_000), 100, 100).unwrap();
    assert_eq!(kept.text, "字");
    assert_eq!(kept.is_merged, Some(false));
    assert_eq!(kept.forced_orientation, Some(Orientation::Vertical));
    assert_eq!(
        kept.tight_bounding_box,
        BoundingBox { x: 45 * PX, y: 40 * PX, width: 10 * PX, height: 20 * PX, rotation: None }
    );
}

#[test]
fn single_band_round_trip() {
    // One band that is the whole image: the stitched box is the detector's
    // own fraction of the image.
    let reports = vec![report("abc", 500_000, 250_000, 200_000, 100_000)];
    let chunk = get_raw_chunk(&reports, Band { y: 0, height: 400 }, 1000, 400);
    assert_eq!(chunk.width, 1000);
    assert_eq!(chunk.height, 400);
    assert_eq!(chunk.global_y, 0);
    assert_eq!(chunk.lines.len(), 1);
    let out = process_chunk(chunk, &MergeConfig::default());
    assert_eq!(out.len(), 1);
    assert_eq!(
        out[0].tight_bounding_box,
        BoundingBox { x: 400_000, y: 200_000, width: 200_000, height: 100_000, rotation: None }
    );
}

#[test]
fn chunks_merge_within_and_never_across() {
    let config = MergeConfig::default();
    let row = |text: &str, y: i64| OcrResult {
        text: text.to_string(),
        tight_bounding_box: BoundingBox { x: 0, y: y * PX, width: 200 * PX, height: 20 * PX, rotation: None },
        is_merged: Some(false),
        forced_orientation: Some(Orientation::Horizontal),
    };
    let first = RawChunk {
        lines: vec![row("a", 2950), row("b", 2975)],
        width: 1000,
        height: 3000,
        global_y: 0,
        full_width: 1000,
        full_height: 6000,
    };
    let second = RawChunk {
        lines: vec![row("c", 0)],
        width: 1000,
        height: 3000,
        global_y: 3000,
        full_width: 1000,
        full_height: 6000,
    };
    let out = process_chunks(vec![first, second], &config);
    assert_eq!(out.len(), 2);
    assert_eq!(out[0].text, "a\u{200D}b");
    assert_eq!(out[1].text, "c");
    assert!(out[1].tight_bounding_box.y >= 500_000);
    assert_eq!(out[1].tight_bounding_box.y, 500_000);
}

#[test]
fn cache_key_is_the_path() {
    assert_eq!(get_cache_key("http://localhost:4567/api/v1/manga/1/chapter/2/page/3?x=1"), "/api/v1/manga/1/chapter/2/page/3");
    assert_eq!(get_cache_key("https://example.org:8080/api/v1/manga/1/chapter/2/page/3"), "/api/v1/manga/1/chapter/2/page/3");
    assert_eq!(get_cache_key("https://example.com"), "/");
}

#[test]
fn cache_key_of_other_text_stops_at_the_query() {
    assert_eq!(get_cache_key("/api/page/3?x=1&y=2"), "/api/page/3");
    assert_eq!(get_cache_key("no query"), "no query");
    assert_eq!(get_cache_key("?only"), "");
    assert_eq!(cache_key_from("a?b?c", None), "a");
    assert_eq!(cache_key_from("a?b", Some("/p".to_string())), "/p");
}

#[test]
fn high_byte_is_kept() {
    assert_eq!(downsample_high_byte(&vec![0x0000, 0x00FF, 0x0100, 0xABCD, 0xFFFF]), vec![0x00, 0x00, 0x01, 0xAB, 0xFF]);
}

#[test]
fn failures_to_write_the_cache_are_not_reported() {
    let fetch = PipelineError::Fetch("404".to_string());
    let decode = PipelineError::Decode("bad image".to_string());
    let oracle = PipelineError::Oracle("down".to_string());
    let disk = PipelineError::Persistence("full".to_string());
    assert_eq!(fetch.status_code(), Some(500));
    assert_eq!(decode.status_code(), Some(500));
    assert_eq!(oracle.status_code(), Some(500));
    assert_eq!(disk.status_code(), None);
    assert_eq!(fetch.message(), "404");
    assert_eq!(decode.message(), "bad image");
    assert_eq!(oracle.message(), "down");
    assert_eq!(disk.message(), "full");
}

#[test]
fn rotation_by_a_sixth_of_a_turn() {
    // A line of 200 by 100 pixels turned by 30 degrees: cosine 0.866025,
    // sine 0.5. Half extents: 100 * 0.866025 + 50 * 0.5 = 111.6025 and
    // 100 * 0.5 + 50 * 0.866025 = 93.30125.
    let mut line = report("abc", 500_000, 500_000, 200_000, 100_000);
    line.rotation = 523_599;
    line.cos = 866_025;
    line.sin = 500_000;
    let b = rotated_extent(&line, 1000, 1000);
    assert_eq!(b.x, 500 * PX - 111_602_500);
    assert_eq!(b.width, 223_205_000);
    assert_eq!(b.y, 500 * PX - 93_301_250);
    assert_eq!(b.height, 186_602_500);
    assert_eq!(b.rotation, Some(523_599));
}

#[test]
fn chunks_that_cannot_be_processed_are_refused() {
    let good = RawChunk {
        lines: vec![],
        width: 10,
        height: 10,
        global_y: 0,
        full_width: 10,
        full_height: 10,
    };
    let no_image = RawChunk {
        lines: vec![],
        width: 10,
        height: 10,
        global_y: 0,
        full_width: 0,
        full_height: 10,
    };
    let bad_box = RawChunk {
        lines: vec![OcrResult {
            text: "x".to_string(),
            tight_bounding_box: BoundingBox { x: 0, y: 0, width: -1, height: 1, rotation: None },
            is_merged: None,
            forced_orientation: None,
        }],
        width: 10,
        height: 10,
        global_y: 0,
        full_width: 10,
        full_height: 10,
    };
    assert!(good.check_valid());
    assert!(!no_image.check_valid());
    assert!(!bad_box.check_valid());
    assert!(!check_chunks(&vec![good, bad_box]));
    assert_eq!(process_page(vec![no_image], &MergeConfig::default()), None);
    assert_eq!(process_page(vec![], &MergeConfig::default()), Some(vec![]));
}

#[test]
fn box_validity_has_its_limits() {
    let limit: i64 = 1 << 60;
    let b = |x: i64, y: i64, width: i64, height: i64| BoundingBox { x, y, width, height, rotation: None };
    assert!(b(-limit, -limit, 2 * limit, 2 * limit).check_valid());
    assert!(!b(-limit - 1, 0, 1, 1).check_valid());
    assert!(!b(0, 0, limit + 1, 1).check_valid());
    assert!(!b(1, 0, limit, 1).check_valid());
    assert!(!b(0, 0, 1, -1).check_valid());
    assert!(!b(0, i64::MAX, 1, 1).check_valid());
}

#[test]
fn reports_outside_the_band_are_refused() {
    let good = report("a", 500_000, 500_000, 100_000, 100_000);
    let mut wide = report("a", 500_000, 500_000, 4_000_001, 100_000);
    assert!(good.check_valid());
    assert!(!wide.check_valid());
    wide.width = 4_000_000;
    assert!(wide.check_valid());
    let mut no_sine = report("a", 0, 0, 0, 0);
    no_sine.sin = 1_000_001;
    assert!(!no_sine.check_valid());
    assert!(check_reports(&vec![]));
    assert!(!check_reports(&vec![good, no_sine]));
}

#[test]
fn orientations_have_their_names() {
    assert_eq!(Orientation::Vertical.name(), "vertical");
    assert_eq!(Orientation::Horizontal.name(), "horizontal");
    assert_eq!(Orientation::from_name("vertical"), Some(Orientation::Vertical));
    assert_eq!(Orientation::from_name("horizontal"), Some(Orientation::Horizontal));
    assert_eq!(Orientation::from_name("Vertical"), None);
    assert_eq!(Orientation::from_name(""), None);
}
