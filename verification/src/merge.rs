//! The merge engine: clusters the line fragments of one band into reading
//! units and joins each cluster into one region.
//!
//! Lengths are millionths of a pixel. Every threshold is a ratio in
//! thousandths, and every comparison is made by cross-multiplication, so no
//! decision depends on rounding.

use vstd::prelude::*;
use vstd::string::*;
use crate::cluster::{
    all_valid, cluster, edge, exceeds_subband, is_clustering, lemma_pair_calibration,
    lemma_pair_clustering, lemma_pair_linked, linked, positions, scene_of,
};
use crate::logic::{boxes_of, views, BoundingBox, OcrResult, OcrResultView, Orientation};
use crate::sorting::{is_stable_order, lemma_sorted_order_of_two, sorted_order, stable_order};

verus! {

/// Width of the normalised space in which thresholds are stated.
pub const NORM_WIDTH: i64 = 1000;

/// The thresholds of the merge engine. Ratios are in thousandths.
#[derive(Clone, Copy, Debug)]
pub struct MergeConfig {
    /// Whether lines are merged at all.
    pub enabled: bool,
    /// Largest gap along the reading axis, as a multiple of the robust size.
    pub dist_k: u32,
    /// Largest ratio between the sizes of two lines.
    pub font_ratio: u32,
    /// Tolerance across the reading axis; kept for configuration files, not
    /// consulted by the engine.
    pub perp_tol: u32,
    /// Smallest overlap across the reading axis, as a share of the shorter
    /// line.
    pub overlap_min: u32,
    /// Share of the robust size from which a line counts as primary.
    pub min_line_ratio: u32,
    /// `font_ratio` for a pair of which exactly one line is primary.
    pub font_ratio_for_mixed: u32,
    /// `overlap_min` for a pair of which exactly one line is primary.
    pub mixed_min_overlap_ratio: u32,
    /// Whether merged texts are joined by a space, not by a zero-width
    /// joiner.
    pub add_space_on_merge: bool,
}

/// The calibrated configuration.
pub open spec fn default_config() -> MergeConfig {
    MergeConfig {
        enabled: true,
        dist_k: 1200,
        font_ratio: 1300,
        perp_tol: 500,
        overlap_min: 100,
        min_line_ratio: 500,
        font_ratio_for_mixed: 1100,
        mixed_min_overlap_ratio: 500,
        add_space_on_merge: false,
    }
}

impl Default for MergeConfig {
    fn default() -> (config: Self)
        ensures
            config == default_config(),
    {
        MergeConfig {
            enabled: true,
            dist_k: 1200,
            font_ratio: 1300,
            perp_tol: 500,
            overlap_min: 100,
            min_line_ratio: 500,
            font_ratio_for_mixed: 1100,
            mixed_min_overlap_ratio: 500,
            add_space_on_merge: false,
        }
    }
}

/// A size as the fraction `num / den` of a length unit.
#[derive(Clone, Copy, Debug)]
pub struct RobustSize {
    pub num: i128,
    pub den: i128,
}

impl RobustSize {
    /// The fraction has a small positive denominator and a numerator that
    /// two box extents can add up to.
    pub open spec fn wf(&self) -> bool {
        &&& 0 < self.den <= NORM_WIDTH
        &&& 0 <= self.num <= 0x4000_0000_0000_0000
    }
}

/// A box whose text runs downwards: it is at most as wide as it is high.
pub open spec fn is_vertical_box(b: BoundingBox) -> bool {
    b.width <= b.height
}

/// The extent of a line across its reading direction: the size of its
/// glyphs.
pub open spec fn thickness(b: BoundingBox) -> i64 {
    if is_vertical_box(b) {
        b.width
    } else {
        b.height
    }
}

/// The extent of a line along its reading direction.
pub open spec fn run_length(b: BoundingBox) -> i64 {
    if is_vertical_box(b) {
        b.height
    } else {
        b.width
    }
}

pub open spec fn max_int(a: int, b: int) -> int {
    if a >= b {
        a
    } else {
        b
    }
}

pub open spec fn min_int(a: int, b: int) -> int {
    if a <= b {
        a
    } else {
        b
    }
}

/// Distance between two intervals; zero where they meet or overlap.
pub open spec fn interval_gap(lo_a: int, hi_a: int, lo_b: int, hi_b: int) -> int {
    max_int(0, max_int(lo_a, lo_b) - min_int(hi_a, hi_b))
}

/// Length that two intervals share; zero where they are apart.
pub open spec fn interval_overlap(lo_a: int, hi_a: int, lo_b: int, hi_b: int) -> int {
    max_int(0, min_int(hi_a, hi_b) - max_int(lo_a, lo_b))
}

/// Gap between two lines of one orientation, from line to line: the
/// horizontal gap between columns, the vertical gap between rows.
pub open spec fn reading_gap(a: BoundingBox, b: BoundingBox) -> int {
    if is_vertical_box(a) {
        interval_gap(a.x as int, a.right(), b.x as int, b.right())
    } else {
        interval_gap(a.y as int, a.bottom(), b.y as int, b.bottom())
    }
}

/// Length that two lines of one orientation share along their run.
pub open spec fn run_overlap(a: BoundingBox, b: BoundingBox) -> int {
    if is_vertical_box(a) {
        interval_overlap(a.y as int, a.bottom(), b.y as int, b.bottom())
    } else {
        interval_overlap(a.x as int, a.right(), b.x as int, b.right())
    }
}

/// A line is primary when its size is at least `min_line_ratio` of the
/// robust size.
pub open spec fn is_primary(size: int, rob: RobustSize, config: MergeConfig) -> bool {
    size * 1000 * rob.den >= rob.num * config.min_line_ratio
}

/// Neither size is more than `limit` times the other.
pub open spec fn sizes_agree(size_a: int, size_b: int, limit: int) -> bool {
    size_a * 1000 <= limit * size_b && size_b * 1000 <= limit * size_a
}

/// The gap is at most `dist_k` times the robust size.
pub open spec fn gap_allowed(gap: int, rob: RobustSize, config: MergeConfig) -> bool {
    gap * 1000 * rob.den <= rob.num * config.dist_k
}

/// The overlap is at least `share` of the shorter run. A run of no length
/// passes.
pub open spec fn overlap_allowed(overlap: int, shorter: int, share: int) -> bool {
    !(shorter > 0 && overlap * 1000 < share * shorter)
}

/// Two lines of one orientation belong to one reading unit, going by the
/// robust size `rob` of their orientation.
pub open spec fn should_link(a: BoundingBox, b: BoundingBox, rob: RobustSize, config: MergeConfig) -> bool {
    let size_a = thickness(a) as int;
    let size_b = thickness(b) as int;
    let mixed = is_primary(size_a, rob, config) != is_primary(size_b, rob, config);
    let overlap = run_overlap(a, b);
    let shorter = min_int(run_length(a) as int, run_length(b) as int);
    &&& sizes_agree(
        size_a,
        size_b,
        if mixed {
            config.font_ratio_for_mixed as int
        } else {
            config.font_ratio as int
        },
    )
    &&& gap_allowed(reading_gap(a, b), rob, config)
    &&& overlap_allowed(overlap, shorter, config.overlap_min as int)
    &&& mixed ==> overlap_allowed(overlap, shorter, config.mixed_min_overlap_ratio as int)
}

/// The product of two bounded numbers.
fn mul_wide(a: i128, b: i128) -> (product: i128)
    requires
        -0x100_0000_0000_0000_0000_0000 <= a <= 0x100_0000_0000_0000_0000_0000,
        -0x10_0000_0000 <= b <= 0x10_0000_0000,
    ensures
        product == a * b,
{
    proof {
        assert(-0x1000_0000_0000_0000_0000_0000_0000_0000 <= a * b
            <= 0x1000_0000_0000_0000_0000_0000_0000_0000) by (nonlinear_arith)
            requires
                -0x100_0000_0000_0000_0000_0000 <= a <= 0x100_0000_0000_0000_0000_0000,
                -0x10_0000_0000 <= b <= 0x10_0000_0000,
        ;
    }
    a * b
}

fn max_wide(a: i128, b: i128) -> (m: i128)
    ensures
        m == max_int(a as int, b as int),
{
    if a >= b {
        a
    } else {
        b
    }
}

fn min_wide(a: i128, b: i128) -> (m: i128)
    ensures
        m == min_int(a as int, b as int),
{
    if a <= b {
        a
    } else {
        b
    }
}

/// Tests `is_vertical_box`.
pub fn box_is_vertical(b: &BoundingBox) -> (vertical: bool)
    ensures
        vertical == is_vertical_box(*b),
{
    b.width <= b.height
}

/// Computes `thickness`.
pub fn box_thickness(b: &BoundingBox) -> (size: i64)
    ensures
        size == thickness(*b),
{
    if b.width <= b.height {
        b.width
    } else {
        b.height
    }
}

fn primary(size: i64, rob: &RobustSize, config: &MergeConfig) -> (p: bool)
    requires
        rob.wf(),
        0 <= size <= 0x2000_0000_0000_0000,
    ensures
        p == is_primary(size as int, *rob, *config),
{
    let lhs: i128 = mul_wide((size as i128) * 1000, rob.den);
    let rhs: i128 = mul_wide(rob.num, config.min_line_ratio as i128);
    lhs >= rhs
}

/// Decides `should_link` for two valid boxes of one orientation.
pub fn links(a: &BoundingBox, b: &BoundingBox, rob: &RobustSize, config: &MergeConfig) -> (linked: bool)
    requires
        a.is_valid(),
        b.is_valid(),
        rob.wf(),
        is_vertical_box(*a) == is_vertical_box(*b),
    ensures
        linked == should_link(*a, *b, *rob, *config),
{
    let vertical: bool = box_is_vertical(a);
    let size_a: i64 = box_thickness(a);
    let size_b: i64 = box_thickness(b);
    let mixed: bool = primary(size_a, rob, config) != primary(size_b, rob, config);
    let limit: u32 = if mixed {
        config.font_ratio_for_mixed
    } else {
        config.font_ratio
    };
    let a_scaled: i128 = (size_a as i128) * 1000;
    let b_scaled: i128 = (size_b as i128) * 1000;
    if a_scaled > mul_wide(size_b as i128, limit as i128) || b_scaled > mul_wide(
        size_a as i128,
        limit as i128,
    ) {
        assert(!sizes_agree(size_a as int, size_b as int, limit as int)) by (nonlinear_arith)
            requires
                size_a * 1000 > size_b * limit || size_b * 1000 > size_a * limit,
        ;
        return false;
    }
    assert(sizes_agree(size_a as int, size_b as int, limit as int)) by (nonlinear_arith)
        requires
            size_a * 1000 <= size_b * limit,
            size_b * 1000 <= size_a * limit,
    ;
    let ax: i128 = a.x as i128;
    let ay: i128 = a.y as i128;
    let ar: i128 = a.x as i128 + a.width as i128;
    let ab: i128 = a.y as i128 + a.height as i128;
    let bx: i128 = b.x as i128;
    let by: i128 = b.y as i128;
    let br: i128 = b.x as i128 + b.width as i128;
    let bb: i128 = b.y as i128 + b.height as i128;
    let gap: i128 = if vertical {
        max_wide(0, max_wide(ax, bx) - min_wide(ar, br))
    } else {
        max_wide(0, max_wide(ay, by) - min_wide(ab, bb))
    };
    let overlap: i128 = if vertical {
        max_wide(0, min_wide(ab, bb) - max_wide(ay, by))
    } else {
        max_wide(0, min_wide(ar, br) - max_wide(ax, bx))
    };
    assert(gap == reading_gap(*a, *b));
    assert(overlap == run_overlap(*a, *b));
    if mul_wide(gap * 1000, rob.den) > mul_wide(rob.num, config.dist_k as i128) {
        return false;
    }
    let shorter: i128 = if vertical {
        min_wide(a.height as i128, b.height as i128)
    } else {
        min_wide(a.width as i128, b.width as i128)
    };
    assert(shorter == min_int(run_length(*a) as int, run_length(*b) as int));
    let overlap_scaled: i128 = overlap * 1000;
    if shorter > 0 && overlap_scaled < mul_wide(shorter, config.overlap_min as i128) {
        assert(!overlap_allowed(overlap as int, shorter as int, config.overlap_min as int))
            by (nonlinear_arith)
            requires
                shorter > 0,
                overlap * 1000 < shorter * config.overlap_min,
        ;
        return false;
    }
    assert(overlap_allowed(overlap as int, shorter as int, config.overlap_min as int))
        by (nonlinear_arith)
        requires
            !(shorter > 0 && overlap * 1000 < shorter * config.overlap_min),
    ;
    if mixed && shorter > 0 && overlap_scaled < mul_wide(
        shorter,
        config.mixed_min_overlap_ratio as i128,
    ) {
        assert(!overlap_allowed(
            overlap as int,
            shorter as int,
            config.mixed_min_overlap_ratio as int,
        )) by (nonlinear_arith)
            requires
                shorter > 0,
                overlap * 1000 < shorter * config.mixed_min_overlap_ratio,
        ;
        return false;
    }
    assert(mixed ==> overlap_allowed(
        overlap as int,
        shorter as int,
        config.mixed_min_overlap_ratio as int,
    )) by (nonlinear_arith)
        requires
            !(mixed && shorter > 0 && overlap * 1000 < shorter * config.mixed_min_overlap_ratio),
    ;
    true
}

/// The key by which the lines of a band are put in order: the top edge.
pub open spec fn top_keys(boxes: Seq<BoundingBox>) -> Seq<(i64, i64)> {
    Seq::new(boxes.len(), |i: int| (boxes[i].y, 0i64))
}

/// The boxes taken in the given order.
pub open spec fn in_sequence(boxes: Seq<BoundingBox>, order: Seq<usize>) -> Seq<BoundingBox> {
    Seq::new(order.len(), |p: int| boxes[order[p] as int])
}

/// Groups of positions, rewritten as groups of the lines at those positions.
pub open spec fn through_order(groups: Seq<Seq<int>>, order: Seq<usize>) -> Seq<Seq<int>> {
    Seq::new(groups.len(), |g: int| Seq::new(groups[g].len(), |i: int| order[groups[g][i]] as int))
}

/// `groups` are the reading units of the lines with the given boxes, each
/// group a sequence of line indices: the lines are taken top line first
/// (lines with one top edge in the order given), clustered, and every group
/// lists its lines in that order.
pub open spec fn is_grouping(
    groups: Seq<Seq<int>>,
    boxes: Seq<BoundingBox>,
    w: u32,
    h: u32,
    config: MergeConfig,
) -> bool {
    let order = sorted_order(top_keys(boxes));
    exists|by_position: Seq<Seq<int>>|
        #![trigger through_order(by_position, order)]
        is_clustering(by_position, scene_of(in_sequence(boxes, order), w, h, config)) && groups
            == through_order(by_position, order)
}

/// Number of boxes among the first `k` that are higher than wide.
pub open spec fn upright_votes(boxes: Seq<BoundingBox>, k: int) -> int
    decreases k,
{
    if k <= 0 {
        0
    } else {
        upright_votes(boxes, k - 1) + if boxes[k - 1].height > boxes[k - 1].width {
            1int
        } else {
            0int
        }
    }
}

/// More than half of the boxes are higher than wide.
pub open spec fn majority_vertical(boxes: Seq<BoundingBox>) -> bool {
    2 * upright_votes(boxes, boxes.len() as int) > boxes.len()
}

/// The key that puts lines in reading order. Columns are read from the
/// right, their centres compared first, lines of one centre from the top;
/// rows are read from the top, lines of one centre from the left. Centres
/// are doubled to stay whole.
pub open spec fn reading_key(b: BoundingBox, vertical: bool) -> (i64, i64) {
    let cx = 2 * b.x + b.width;
    let cy = 2 * b.y + b.height;
    if vertical {
        ((-cx) as i64, cy as i64)
    } else {
        (cy as i64, cx as i64)
    }
}

/// The reading keys of a group.
pub open spec fn reading_keys(boxes: Seq<BoundingBox>, vertical: bool) -> Seq<(i64, i64)> {
    Seq::new(boxes.len(), |i: int| reading_key(boxes[i], vertical))
}

/// The texts joined, `sep` between each two.
pub open spec fn join_texts(texts: Seq<Seq<char>>, sep: Seq<char>) -> Seq<char>
    decreases texts.len(),
{
    if texts.len() == 0 {
        Seq::empty()
    } else if texts.len() == 1 {
        texts[0]
    } else {
        join_texts(texts.drop_last(), sep) + sep + texts.last()
    }
}

/// The smallest box that holds both `a` and `b`. It has no rotation.
pub open spec fn cover(a: BoundingBox, b: BoundingBox) -> BoundingBox {
    let x = min_int(a.x as int, b.x as int);
    let y = min_int(a.y as int, b.y as int);
    BoundingBox {
        x: x as i64,
        y: y as i64,
        width: (max_int(a.right(), b.right()) - x) as i64,
        height: (max_int(a.bottom(), b.bottom()) - y) as i64,
        rotation: None,
    }
}

/// The smallest box that holds the first `k` boxes, for `k >= 1`.
pub open spec fn union_box(boxes: Seq<BoundingBox>, k: int) -> BoundingBox
    decreases k,
{
    if k <= 1 {
        cover(boxes[0], boxes[0])
    } else {
        cover(union_box(boxes, k - 1), boxes[k - 1])
    }
}

/// What stands between the texts of merged lines: a space where asked for,
/// else a zero-width joiner.
pub open spec fn separator(config: MergeConfig) -> Seq<char> {
    if config.add_space_on_merge {
        " "@
    } else {
        "\u{200D}"@
    }
}

/// The boxes of the lines of a group.
pub open spec fn member_boxes(lines: Seq<OcrResultView>, members: Seq<int>) -> Seq<BoundingBox> {
    Seq::new(members.len(), |i: int| lines[members[i]].tight_bounding_box)
}

/// The region that a group of lines merges into: its orientation is that of
/// the majority, its text joins the texts in reading order, and its box is
/// the union of the boxes.
pub open spec fn merged_line(lines: Seq<OcrResultView>, members: Seq<int>, config: MergeConfig) -> OcrResultView {
    let boxes = member_boxes(lines, members);
    let vertical = majority_vertical(boxes);
    let order = sorted_order(reading_keys(boxes, vertical));
    let texts = Seq::new(members.len(), |i: int| lines[members[order[i] as int]].text);
    OcrResultView {
        text: join_texts(texts, separator(config)),
        tight_bounding_box: union_box(boxes, boxes.len() as int),
        is_merged: Some(true),
        forced_orientation: Some(
            if vertical {
                Orientation::Vertical
            } else {
                Orientation::Horizontal
            },
        ),
    }
}

/// What a group becomes: a single line stays as it is, several lines merge.
pub open spec fn unit_of(lines: Seq<OcrResultView>, members: Seq<int>, config: MergeConfig) -> OcrResultView {
    if members.len() == 1 {
        lines[members[0]]
    } else {
        merged_line(lines, members, config)
    }
}

/// The regions that the groups become, group by group.
pub open spec fn merge_outcome(
    lines: Seq<OcrResultView>,
    groups: Seq<Seq<int>>,
    config: MergeConfig,
) -> Seq<OcrResultView> {
    Seq::new(groups.len(), |g: int| unit_of(lines, groups[g], config))
}

/// `merged` is what the lines of a band merge into. Fewer than two lines,
/// or a configuration that merges nothing, leave the lines as they are.
pub open spec fn is_merge_of(
    merged: Seq<OcrResultView>,
    lines: Seq<OcrResultView>,
    w: u32,
    h: u32,
    config: MergeConfig,
) -> bool {
    if !config.enabled || lines.len() < 2 {
        merged == lines
    } else {
        exists|groups: Seq<Seq<int>>|
            #![trigger merge_outcome(lines, groups, config)]
            is_grouping(groups, boxes_of(lines), w, h, config) && merged == merge_outcome(
                lines,
                groups,
                config,
            )
    }
}

/// Every line has a valid box.
pub open spec fn lines_valid(lines: Seq<OcrResultView>) -> bool {
    forall|i: int| 0 <= i < lines.len() ==> (#[trigger] lines[i]).tight_bounding_box.is_valid()
}

/// Tests `lines_valid`.
pub fn check_lines(lines: &Vec<OcrResult>) -> (ok: bool)
    ensures
        ok == lines_valid(views(lines@)),
{
    let mut i: usize = 0;
    while i < lines.len()
        invariant
            i <= lines@.len(),
            forall|k: int| 0 <= k < i ==> (#[trigger] views(lines@)[k]).tight_bounding_box.is_valid(),
        decreases lines@.len() - i,
    {
        if !lines[i].tight_bounding_box.check_valid() {
            assert(!views(lines@)[i as int].tight_bounding_box.is_valid());
            return false;
        }
        i = i + 1;
    }
    true
}

/// The groups as sequences of line indices.
pub open spec fn index_groups(groups: Seq<Vec<usize>>) -> Seq<Seq<int>> {
    positions(groups)
}

/// Sorts the lines top line first and clusters them into reading units.
/// Each group lists indices into `lines`.
pub fn group_ocr_data(lines: &Vec<OcrResult>, w: u32, h: u32, config: &MergeConfig) -> (groups: Vec<
    Vec<usize>,
>)
    requires
        lines_valid(views(lines@)),
    ensures
        is_grouping(index_groups(groups@), boxes_of(views(lines@)), w, h, *config),
        forall|g: int| 0 <= g < groups@.len() ==> (#[trigger] groups@[g])@.len() > 0,
        forall|g: int, i: int|
            0 <= g < groups@.len() && 0 <= i < groups@[g]@.len() ==> (#[trigger] groups@[g]@[i])
                < lines@.len(),
{
    let ghost all = boxes_of(views(lines@));
    let n: usize = lines.len();
    let mut keys: Vec<(i64, i64)> = Vec::new();
    let mut i: usize = 0;
    while i < n
        invariant
            n == lines@.len(),
            i <= n,
            keys@.len() == i,
            forall|k: int| 0 <= k < i ==> keys@[k] == (lines@[k].tight_bounding_box.y, 0i64),
        decreases n - i,
    {
        keys.push((lines[i].tight_bounding_box.y, 0));
        i = i + 1;
    }
    assert(keys@ =~= top_keys(all));
    let order: Vec<usize> = stable_order(&keys);
    let mut sorted: Vec<BoundingBox> = Vec::new();
    let mut p: usize = 0;
    while p < n
        invariant
            n == lines@.len(),
            order@.len() == n,
            keys@.len() == n,
            is_stable_order(order@, keys@),
            lines_valid(views(lines@)),
            p <= n,
            sorted@.len() == p,
            forall|k: int| 0 <= k < p ==> sorted@[k] == lines@[order@[k] as int].tight_bounding_box,
        decreases n - p,
    {
        assert(order@[p as int] < keys@.len());
        sorted.push(lines[order[p]].tight_bounding_box);
        p = p + 1;
    }
    assert(sorted@ =~= in_sequence(all, order@));
    proof {
        assert forall|k: int| 0 <= k < sorted@.len() implies (#[trigger] sorted@[k]).is_valid() by {
            assert(order@[k] < keys@.len());
            assert(views(lines@)[order@[k] as int].tight_bounding_box.is_valid());
        }
    }
    let by_position: Vec<Vec<usize>> = cluster(&sorted, w, h, config);
    let ghost found = positions(by_position@);
    let ghost scene = scene_of(sorted@, w, h, *config);
    let mut groups: Vec<Vec<usize>> = Vec::new();
    let mut g: usize = 0;
    while g < by_position.len()
        invariant
            n == lines@.len(),
            order@.len() == n,
            sorted@.len() == n,
            keys@.len() == n,
            is_stable_order(order@, keys@),
            found == positions(by_position@),
            scene == scene_of(sorted@, w, h, *config),
            is_clustering(found, scene),
            g <= by_position@.len(),
            groups@.len() == g,
            forall|k: int| 0 <= k < g ==> (#[trigger] groups@[k])@.len() == by_position@[k]@.len(),
            forall|k: int, j: int|
                0 <= k < g && 0 <= j < groups@[k]@.len() ==> (#[trigger] groups@[k]@[j]) == order@[by_position@[k]@[j] as int]
                    && groups@[k]@[j] < n,
        decreases by_position@.len() - g,
    {
        let source: &Vec<usize> = &by_position[g];
        let mut members: Vec<usize> = Vec::new();
        let mut j: usize = 0;
        while j < source.len()
            invariant
                n == lines@.len(),
                order@.len() == n,
                sorted@.len() == n,
                keys@.len() == n,
                is_stable_order(order@, keys@),
                g < by_position@.len(),
                source == by_position@[g as int],
                found == positions(by_position@),
                scene == scene_of(sorted@, w, h, *config),
                is_clustering(found, scene),
                j <= source@.len(),
                members@.len() == j,
                forall|k: int|
                    0 <= k < j ==> (#[trigger] members@[k]) == order@[source@[k] as int] && members@[k]
                        < n,
            decreases source@.len() - j,
        {
            proof {
                assert(0 <= crate::cluster::member(found, g as int, j as int) < scene.boxes.len());
                assert(found[g as int][j as int] == source@[j as int]);
            }
            let at: usize = source[j];
            assert(order@[at as int] < keys@.len());
            members.push(order[at]);
            j = j + 1;
        }
        let ghost prior = groups@;
        groups.push(members);
        proof {
            assert forall|k: int| 0 <= k < g + 1 implies (#[trigger] groups@[k])@.len()
                == by_position@[k]@.len() by {
                if k < g {
                    assert(groups@[k] == prior[k]);
                }
            }
            assert forall|k: int, j2: int|
                0 <= k < g + 1 && 0 <= j2 < groups@[k]@.len() implies (#[trigger] groups@[k]@[j2])
                == order@[by_position@[k]@[j2] as int] && groups@[k]@[j2] < n by {
                if k < g {
                    assert(groups@[k] == prior[k]);
                }
            }
        }
        g = g + 1;
    }
    proof {
        assert(index_groups(groups@) =~~= through_order(found, order@)) by {
            assert forall|k: int| 0 <= k < groups@.len() implies #[trigger] index_groups(groups@)[k]
                =~= through_order(found, order@)[k] by {
                assert(groups@[k]@.len() == by_position@[k]@.len());
                assert forall|j2: int| 0 <= j2 < groups@[k]@.len() implies index_groups(groups@)[k][j2]
                    == through_order(found, order@)[k][j2] by {
                    assert(groups@[k]@[j2] == order@[by_position@[k]@[j2] as int]);
                }
            }
        }
        assert(order@ == sorted_order(top_keys(all)));
        assert forall|k: int| 0 <= k < groups@.len() implies (#[trigger] groups@[k])@.len() > 0 by {
            assert(found[k].len() > 0);
        }
    }
    groups
}

/// A sequence of indices as a sequence of integers.
pub open spec fn as_ints(indices: Seq<usize>) -> Seq<int> {
    Seq::new(indices.len(), |i: int| indices[i] as int)
}

/// Computes `cover`.
pub fn cover_boxes(a: &BoundingBox, b: &BoundingBox) -> (c: BoundingBox)
    requires
        a.is_valid(),
        b.is_valid(),
    ensures
        c == cover(*a, *b),
        c.is_valid(),
{
    let x: i64 = if a.x <= b.x {
        a.x
    } else {
        b.x
    };
    let y: i64 = if a.y <= b.y {
        a.y
    } else {
        b.y
    };
    let ar: i64 = a.x + a.width;
    let br: i64 = b.x + b.width;
    let ab: i64 = a.y + a.height;
    let bb: i64 = b.y + b.height;
    let right: i64 = if ar >= br {
        ar
    } else {
        br
    };
    let bottom: i64 = if ab >= bb {
        ab
    } else {
        bb
    };
    BoundingBox { x, y, width: right - x, height: bottom - y, rotation: None }
}

/// Merges the lines of one group into one region.
pub fn merge_group(lines: &Vec<OcrResult>, members: &Vec<usize>, config: &MergeConfig) -> (merged:
    OcrResult)
    requires
        lines_valid(views(lines@)),
        members@.len() >= 1,
        forall|i: int| 0 <= i < members@.len() ==> (#[trigger] members@[i]) < lines@.len(),
    ensures
        merged@ == merged_line(views(lines@), as_ints(members@), *config),
        merged.tight_bounding_box.is_valid(),
{
    let ghost all = views(lines@);
    let ghost boxes = member_boxes(all, as_ints(members@));
    let count: usize = members.len();
    proof {
        assert forall|i: int| 0 <= i < boxes.len() implies (#[trigger] boxes[i]).is_valid() by {
            assert(members@[i] < lines@.len());
            assert(all[members@[i] as int].tight_bounding_box.is_valid());
        }
    }
    let mut votes: usize = 0;
    let mut k: usize = 0;
    while k < count
        invariant
            count == members@.len(),
            all == views(lines@),
            boxes == member_boxes(all, as_ints(members@)),
            forall|i: int| 0 <= i < members@.len() ==> (#[trigger] members@[i]) < lines@.len(),
            k <= count,
            votes <= k,
            votes == upright_votes(boxes, k as int),
        decreases count - k,
    {
        let b: &BoundingBox = &lines[members[k]].tight_bounding_box;
        assert(*b == boxes[k as int]);
        if b.height > b.width {
            votes = votes + 1;
        }
        k = k + 1;
    }
    let vertical: bool = votes > count - votes;
    assert(vertical == majority_vertical(boxes));
    let mut keys: Vec<(i64, i64)> = Vec::new();
    let mut k: usize = 0;
    while k < count
        invariant
            count == members@.len(),
            all == views(lines@),
            boxes == member_boxes(all, as_ints(members@)),
            all_valid(boxes),
            forall|i: int| 0 <= i < members@.len() ==> (#[trigger] members@[i]) < lines@.len(),
            k <= count,
            keys@.len() == k,
            forall|i: int| 0 <= i < k ==> keys@[i] == reading_key(boxes[i], vertical),
        decreases count - k,
    {
        let b: &BoundingBox = &lines[members[k]].tight_bounding_box;
        assert(*b == boxes[k as int]);
        assert(boxes[k as int].is_valid());
        let cx: i64 = b.x + (b.x + b.width);
        let cy: i64 = b.y + (b.y + b.height);
        if vertical {
            keys.push((-cx, cy));
        } else {
            keys.push((cy, cx));
        }
        k = k + 1;
    }
    assert(keys@ =~= reading_keys(boxes, vertical));
    let order: Vec<usize> = stable_order(&keys);
    let ghost texts = Seq::new(
        members@.len(),
        |i: int| all[as_ints(members@)[order@[i] as int]].text,
    );
    let sep: &str = if config.add_space_on_merge {
        " "
    } else {
        "\u{200D}"
    };
    assert(sep@ == separator(*config));
    let mut text: String = String::new();
    let mut k: usize = 0;
    while k < count
        invariant
            count == members@.len(),
            order@.len() == count,
            keys@.len() == count,
            is_stable_order(order@, keys@),
            all == views(lines@),
            forall|i: int| 0 <= i < members@.len() ==> (#[trigger] members@[i]) < lines@.len(),
            texts == Seq::new(
                members@.len(),
                |i: int| all[as_ints(members@)[order@[i] as int]].text,
            ),
            k <= count,
            text@ == join_texts(texts.take(k as int), sep@),
        decreases count - k,
    {
        assert(order@[k as int] < keys@.len());
        let at: usize = members[order[k]];
        let piece: &str = lines[at].text.as_str();
        assert(piece@ == texts[k as int]);
        proof {
            let grown = texts.take(k + 1);
            assert(grown.drop_last() =~= texts.take(k as int));
            assert(grown.last() == texts[k as int]);
            if k == 0 {
                assert(text@ =~= Seq::<char>::empty());
                assert(text@ + piece@ =~= piece@);
            }
        }
        if k > 0 {
            text.append(sep);
        }
        text.append(piece);
        k = k + 1;
    }
    assert(texts.take(count as int) =~= texts);
    let mut hull: BoundingBox = cover_boxes(
        &lines[members[0]].tight_bounding_box,
        &lines[members[0]].tight_bounding_box,
    );
    assert(boxes[0].is_valid());
    let mut k: usize = 1;
    while k < count
        invariant
            count == members@.len(),
            all == views(lines@),
            boxes == member_boxes(all, as_ints(members@)),
            all_valid(boxes),
            forall|i: int| 0 <= i < members@.len() ==> (#[trigger] members@[i]) < lines@.len(),
            1 <= k <= count,
            hull == union_box(boxes, k as int),
            hull.is_valid(),
        decreases count - k,
    {
        let b: &BoundingBox = &lines[members[k]].tight_bounding_box;
        assert(*b == boxes[k as int]);
        assert(boxes[k as int].is_valid());
        hull = cover_boxes(&hull, b);
        k = k + 1;
    }
    OcrResult {
        text,
        tight_bounding_box: hull,
        is_merged: Some(true),
        forced_orientation: Some(
            if vertical {
                Orientation::Vertical
            } else {
                Orientation::Horizontal
            },
        ),
    }
}

/// Merges the line fragments of one band into reading units.
///
/// `lines` hold the fragments with their boxes in millionths of a pixel of
/// the band, which is `w` by `h` pixels. A single line comes back as it
/// is; the lines of a larger unit come back as one merged region. The
/// regions come in the order of the topmost line of each unit.
pub fn auto_merge(lines: Vec<OcrResult>, w: u32, h: u32, config: &MergeConfig) -> (merged: Vec<
    OcrResult,
>)
    requires
        lines_valid(views(lines@)),
    ensures
        is_merge_of(views(merged@), views(lines@), w, h, *config),
        lines_valid(views(merged@)),
        !config.enabled || lines@.len() < 2 ==> merged == lines,
{
    if !config.enabled || lines.len() < 2 {
        return lines;
    }
    let ghost all = views(lines@);
    let groups: Vec<Vec<usize>> = group_ocr_data(&lines, w, h, config);
    let ghost by_index = index_groups(groups@);
    let mut merged: Vec<OcrResult> = Vec::new();
    let mut g: usize = 0;
    while g < groups.len()
        invariant
            all == views(lines@),
            lines_valid(all),
            by_index == index_groups(groups@),
            forall|k: int| 0 <= k < groups@.len() ==> (#[trigger] groups@[k])@.len() > 0,
            forall|k: int, i: int|
                0 <= k < groups@.len() && 0 <= i < groups@[k]@.len() ==> (#[trigger] groups@[k]@[i])
                    < lines@.len(),
            g <= groups@.len(),
            merged@.len() == g,
            forall|k: int| 0 <= k < g ==> (#[trigger] merged@[k])@ == unit_of(all, by_index[k], *config),
            forall|k: int| 0 <= k < g ==> (#[trigger] merged@[k]).tight_bounding_box.is_valid(),
        decreases groups@.len() - g,
    {
        let members: &Vec<usize> = &groups[g];
        assert(members@.len() > 0);
        assert(by_index[g as int] =~= as_ints(members@));
        assert forall|i: int| 0 <= i < members@.len() implies (#[trigger] members@[i]) < lines@.len() by {
            assert(groups@[g as int]@[i] < lines@.len());
        }
        let unit: OcrResult = if members.len() == 1 {
            assert(members@[0] < lines@.len());
            assert(all[members@[0] as int].tight_bounding_box.is_valid());
            lines[members[0]].clone()
        } else {
            merge_group(&lines, members, config)
        };
        merged.push(unit);
        g = g + 1;
    }
    proof {
        assert(views(merged@) =~= merge_outcome(all, by_index, *config));
        assert forall|i: int| 0 <= i < views(merged@).len() implies (#[trigger] views(
            merged@,
        )[i]).tight_bounding_box.is_valid() by {
            assert(merged@[i].tight_bounding_box.is_valid());
        }
    }
    merged
}

/// Merging fewer than two lines changes nothing. In particular a band whose
/// lines have merged into one region merges into that same region again.
pub proof fn lemma_merge_of_single_is_identity(
    merged: Seq<OcrResultView>,
    lines: Seq<OcrResultView>,
    w: u32,
    h: u32,
    config: MergeConfig,
)
    requires
        lines.len() < 2,
        is_merge_of(merged, lines, w, h, config),
    ensures
        merged == lines,
{
}

/// The lines are two rows, the upper one first, that cover the same
/// columns.
pub open spec fn two_stacked_rows(lines: Seq<OcrResultView>) -> bool {
    let a = lines[0].tight_bounding_box;
    let b = lines[1].tight_bounding_box;
    &&& lines.len() == 2
    &&& a.is_valid()
    &&& b.is_valid()
    &&& a.y <= b.y
    &&& a.x == b.x
    &&& a.width == b.width
    &&& a.width > a.height > 0
    &&& b.width > b.height > 0
}

/// The size on which two rows alone in a band are calibrated: the mean of
/// their heights.
pub open spec fn mean_height(a: BoundingBox, b: BoundingBox) -> RobustSize {
    RobustSize { num: (a.height + b.height) as i128, den: 2 }
}

/// Two stacked rows alone in a band that is one sub-band merge into one
/// region exactly when the link rule holds of them under the mean of their
/// heights. Where it does not hold, both rows come back as they are.
pub proof fn lemma_two_rows_merge(
    merged: Seq<OcrResultView>,
    lines: Seq<OcrResultView>,
    w: u32,
    h: u32,
)
    requires
        two_stacked_rows(lines),
        !exceeds_subband(h * 1_000_000, w * 1_000_000),
        is_merge_of(merged, lines, w, h, default_config()),
    ensures
        merged.len() == 1 <==> should_link(
            lines[0].tight_bounding_box,
            lines[1].tight_bounding_box,
            mean_height(lines[0].tight_bounding_box, lines[1].tight_bounding_box),
            default_config(),
        ),
        merged.len() != 1 ==> merged == lines,
{
    let config = default_config();
    let boxes = boxes_of(lines);
    let order = sorted_order(top_keys(boxes));
    lemma_sorted_order_of_two(top_keys(boxes));
    assert(in_sequence(boxes, order) =~= boxes);
    let s = scene_of(boxes, w, h, config);
    let groups = choose|groups: Seq<Seq<int>>|
        #![trigger merge_outcome(lines, groups, config)]
        is_grouping(groups, boxes, w, h, config) && merged == merge_outcome(lines, groups, config);
    let by_position = choose|by_position: Seq<Seq<int>>|
        #![trigger through_order(by_position, order)]
        is_clustering(by_position, scene_of(in_sequence(boxes, order), w, h, config)) && groups
            == through_order(by_position, order);
    lemma_pair_clustering(by_position, s);
    lemma_pair_linked(s);
    lemma_pair_calibration(s);
    assert(edge(s, 0, 1) <==> should_link(
        boxes[0],
        boxes[1],
        mean_height(boxes[0], boxes[1]),
        config,
    ));
    if !linked(s, 0, 1) {
        assert(groups[0] =~= seq![0int]);
        assert(groups[1] =~= seq![1int]);
        assert(merged =~= lines);
    }
}

/// Two rows of one height `h` that cover the same columns, calibrated on
/// their height, are linked exactly when the gap between them is at most
/// 1.2 times `h`.
proof fn lemma_rows_link_by_gap(a: BoundingBox, b: BoundingBox, h: int)
    requires
        a.is_valid(),
        b.is_valid(),
        h > 0,
        a.height == h,
        b.height == h,
        a.width > h,
        a.x == b.x,
        a.width == b.width,
    ensures
        should_link(a, b, RobustSize { num: (2 * h) as i128, den: 2 }, default_config()) <==> 10
            * reading_gap(a, b) <= 12 * h,
{
    let rob = RobustSize { num: (2 * h) as i128, den: 2 };
    let config = default_config();
    assert(thickness(a) == h && thickness(b) == h);
    assert(is_primary(h, rob, config));
    assert(sizes_agree(h, h, 1300));
    assert(run_overlap(a, b) == a.width);
    assert(min_int(run_length(a) as int, run_length(b) as int) == a.width);
    assert(overlap_allowed(a.width as int, a.width as int, 100));
    assert(gap_allowed(reading_gap(a, b), rob, config) <==> 10 * reading_gap(a, b) <= 12 * h);
}

/// Two stacked rows of one height, alone in a band that is one sub-band,
/// merge exactly when the gap between them is at most 1.2 times their
/// height.
pub proof fn lemma_rows_merge_by_gap(
    merged: Seq<OcrResultView>,
    lines: Seq<OcrResultView>,
    w: u32,
    h: u32,
)
    requires
        two_stacked_rows(lines),
        lines[0].tight_bounding_box.height == lines[1].tight_bounding_box.height,
        !exceeds_subband(h * 1_000_000, w * 1_000_000),
        is_merge_of(merged, lines, w, h, default_config()),
    ensures
        merged.len() == 1 <==> 10 * reading_gap(
            lines[0].tight_bounding_box,
            lines[1].tight_bounding_box,
        ) <= 12 * lines[0].tight_bounding_box.height,
{
    let a = lines[0].tight_bounding_box;
    let b = lines[1].tight_bounding_box;
    lemma_two_rows_merge(merged, lines, w, h);
    lemma_rows_link_by_gap(a, b, a.height as int);
    assert(mean_height(a, b) == (RobustSize { num: (2 * a.height) as i128, den: 2 }));
}

/// Two rows that cover the same columns and touch, calibrated on the mean of
/// their heights, are linked exactly when neither is more than 1.3 times as
/// high as the other.
proof fn lemma_rows_link_by_size(a: BoundingBox, b: BoundingBox)
    requires
        a.is_valid(),
        b.is_valid(),
        a.width > a.height > 0,
        b.width > b.height > 0,
        a.x == b.x,
        a.width == b.width,
        b.y == a.y + a.height,
    ensures
        should_link(a, b, mean_height(a, b), default_config()) <==> (10 * a.height <= 13
            * b.height && 10 * b.height <= 13 * a.height),
{
    let rob = mean_height(a, b);
    let config = default_config();
    let ha = a.height as int;
    let hb = b.height as int;
    assert(thickness(a) == ha && thickness(b) == hb);
    assert(is_primary(ha, rob, config) <==> 3 * ha >= hb);
    assert(is_primary(hb, rob, config) <==> 3 * hb >= ha);
    assert(reading_gap(a, b) == 0);
    assert(gap_allowed(0, rob, config));
    assert(run_overlap(a, b) == a.width);
    assert(min_int(run_length(a) as int, run_length(b) as int) == a.width);
    assert(overlap_allowed(a.width as int, a.width as int, 100));
    assert(overlap_allowed(a.width as int, a.width as int, 500));
    if is_primary(ha, rob, config) != is_primary(hb, rob, config) {
        assert(!sizes_agree(ha, hb, 1100));
    } else {
        assert(sizes_agree(ha, hb, 1300) <==> (10 * ha <= 13 * hb && 10 * hb <= 13 * ha));
    }
}

/// Two rows that touch, alone in a band that is one sub-band, merge exactly
/// when neither is more than 1.3 times as high as the other.
pub proof fn lemma_rows_merge_by_size(
    merged: Seq<OcrResultView>,
    lines: Seq<OcrResultView>,
    w: u32,
    h: u32,
)
    requires
        two_stacked_rows(lines),
        lines[1].tight_bounding_box.y == lines[0].tight_bounding_box.bottom(),
        !exceeds_subband(h * 1_000_000, w * 1_000_000),
        is_merge_of(merged, lines, w, h, default_config()),
    ensures
        merged.len() == 1 <==> (10 * lines[0].tight_bounding_box.height <= 13
            * lines[1].tight_bounding_box.height && 10 * lines[1].tight_bounding_box.height <= 13
            * lines[0].tight_bounding_box.height),
{
    lemma_two_rows_merge(merged, lines, w, h);
    lemma_rows_link_by_size(lines[0].tight_bounding_box, lines[1].tight_bounding_box);
}

} // verus!
