//! The data of a recognised page: boxes, text regions, and the units they
//! are measured in.

use vstd::prelude::*;
use vstd::string::*;
use vstd::std_specs::iter::IteratorSpec;
use crate::geometry::{normalize_line, normalized, placement_valid, OracleLine};
use crate::merge::{auto_merge, check_lines, is_merge_of, lines_valid, MergeConfig};
use vstd::arithmetic::div_mod::lemma_fundamental_div_mod_converse;

verus! {

/// One whole in fixed-point arithmetic. A fraction of an image is held in
/// millionths; a length inside a band is held in millionths of a pixel.
pub const SCALE: i64 = 1_000_000;

/// Every edge of a valid box lies within this distance of the origin.
pub const COORD_LIMIT: i64 = 0x1000_0000_0000_0000;

/// Direction in which the text of a region runs.
#[derive(Clone, Copy, Debug, PartialEq, Eq, Structural)]
pub enum Orientation {
    Vertical,
    Horizontal,
}

impl Orientation {
    /// The name of the orientation in the service's answers.
    pub open spec fn name_of(self) -> Seq<char> {
        match self {
            Orientation::Vertical => "vertical"@,
            Orientation::Horizontal => "horizontal"@,
        }
    }

    /// The name of the orientation in the service's answers.
    pub fn name(&self) -> (name: &'static str)
        ensures
            name@ == self.name_of(),
    {
        match self {
            Orientation::Vertical => "vertical",
            Orientation::Horizontal => "horizontal",
        }
    }

    /// The orientation with the given name, if there is one.
    pub fn from_name(name: &str) -> (orientation: Option<Orientation>)
        ensures
            orientation == if name@ == "vertical"@ {
                Some(Orientation::Vertical)
            } else if name@ == "horizontal"@ {
                Some(Orientation::Horizontal)
            } else {
                None::<Orientation>
            },
    {
        let given: String = String::from_str(name);
        if given == String::from_str("vertical") {
            Some(Orientation::Vertical)
        } else if given == String::from_str("horizontal") {
            Some(Orientation::Horizontal)
        } else {
            None
        }
    }
}

/// An axis-aligned box. `rotation`, where present, is the angle of the text
/// inside it in millionths of a radian.
#[derive(Clone, Copy, Debug, PartialEq, Eq)]
pub struct BoundingBox {
    pub x: i64,
    pub y: i64,
    pub width: i64,
    pub height: i64,
    pub rotation: Option<i64>,
}

impl BoundingBox {
    /// The right edge.
    pub open spec fn right(&self) -> int {
        self.x + self.width
    }

    /// The lower edge.
    pub open spec fn bottom(&self) -> int {
        self.y + self.height
    }

    /// The box has no negative extent and lies within `COORD_LIMIT` of the
    /// origin on both axes.
    pub open spec fn is_valid(&self) -> bool {
        &&& self.width >= 0
        &&& self.height >= 0
        &&& -COORD_LIMIT <= self.x
        &&& -COORD_LIMIT <= self.y
        &&& self.x + self.width <= COORD_LIMIT
        &&& self.y + self.height <= COORD_LIMIT
    }

    /// Tests `is_valid`.
    pub fn check_valid(&self) -> (ok: bool)
        ensures
            ok == self.is_valid(),
    {
        self.width >= 0 && self.height >= 0 && self.x >= -COORD_LIMIT && self.y >= -COORD_LIMIT
            && self.x <= COORD_LIMIT - self.width && self.y <= COORD_LIMIT - self.height
    }
}

/// A region of text on a page.
#[derive(Debug, PartialEq, Eq)]
pub struct OcrResult {
    pub text: String,
    pub tight_bounding_box: BoundingBox,
    pub is_merged: Option<bool>,
    pub forced_orientation: Option<Orientation>,
}

/// What an `OcrResult` says, with its text as a sequence of characters.
pub struct OcrResultView {
    pub text: Seq<char>,
    pub tight_bounding_box: BoundingBox,
    pub is_merged: Option<bool>,
    pub forced_orientation: Option<Orientation>,
}

impl View for OcrResult {
    type V = OcrResultView;

    open spec fn view(&self) -> OcrResultView {
        OcrResultView {
            text: self.text@,
            tight_bounding_box: self.tight_bounding_box,
            is_merged: self.is_merged,
            forced_orientation: self.forced_orientation,
        }
    }
}

impl Clone for OcrResult {
    fn clone(&self) -> (copy: Self)
        ensures
            copy@ == self@,
    {
        OcrResult {
            text: self.text.clone(),
            tight_bounding_box: self.tight_bounding_box,
            is_merged: self.is_merged,
            forced_orientation: self.forced_orientation,
        }
    }
}

/// The views of a sequence of regions.
pub open spec fn views(lines: Seq<OcrResult>) -> Seq<OcrResultView> {
    lines.map_values(|line: OcrResult| line@)
}

/// The boxes of a sequence of regions.
pub open spec fn boxes_of(lines: Seq<OcrResultView>) -> Seq<BoundingBox> {
    lines.map_values(|line: OcrResultView| line.tight_bounding_box)
}

/// Tallest band that is handed to the line detector, in pixels.
pub const CHUNK_HEIGHT: u32 = 3000;

/// A horizontal slice of an image: `height` rows from row `y` on.
#[derive(Clone, Copy, Debug, PartialEq, Eq, Structural)]
pub struct Band {
    pub y: u32,
    pub height: u32,
}

/// Number of bands of an image of `full_h` rows.
pub open spec fn band_count(full_h: u32) -> int {
    (full_h + 2999) / 3000
}

/// Band `i` of an image of `full_h` rows: it starts at row `3000 * i` and
/// has 3000 rows, or as many as are left.
pub open spec fn band_at(full_h: u32, i: int) -> Band {
    Band {
        y: (3000 * i) as u32,
        height: if full_h - 3000 * i < 3000 {
            (full_h - 3000 * i) as u32
        } else {
            3000u32
        },
    }
}

/// The bands of an image of `full_h` rows, from the top.
pub open spec fn bands_of(full_h: u32) -> Seq<Band> {
    Seq::new(band_count(full_h) as nat, |i: int| band_at(full_h, i))
}

/// Cuts an image of `full_h` rows into bands of at most 3000 rows. Only the
/// last band may be shorter, and an image without rows has no band.
pub fn plan_bands(full_h: u32) -> (bands: Vec<Band>)
    ensures
        bands@ == bands_of(full_h),
{
    let mut bands: Vec<Band> = Vec::new();
    let mut y: u32 = 0;
    while y < full_h
        invariant
            y <= full_h,
            y < full_h ==> y == 3000 * bands@.len(),
            y == full_h ==> bands@.len() == band_count(full_h),
            forall|i: int| 0 <= i < bands@.len() ==> bands@[i] == band_at(full_h, i),
        decreases full_h - y,
    {
        let left: u32 = full_h - y;
        let height: u32 = if left < CHUNK_HEIGHT {
            left
        } else {
            CHUNK_HEIGHT
        };
        bands.push(Band { y, height });
        y = y + height;
    }
    assert(bands@ =~= bands_of(full_h));
    bands
}

/// The bands of an image tile it: each band has rows, none has more than
/// 3000, the first starts at the top, each next band starts where the one
/// before it ends, and the last ends with the image.
pub proof fn lemma_bands_tile(full_h: u32, i: int)
    requires
        0 <= i < band_count(full_h),
    ensures
        0 < bands_of(full_h)[i].height <= 3000,
        bands_of(full_h)[0].y == 0,
        i + 1 < band_count(full_h) ==> bands_of(full_h)[i].y + bands_of(full_h)[i].height
            == bands_of(full_h)[i + 1].y,
        i + 1 == band_count(full_h) ==> bands_of(full_h)[i].y + bands_of(full_h)[i].height
            == full_h,
{
}

/// Every band lies within the image.
pub proof fn lemma_band_within(full_h: u32, i: int)
    requires
        0 <= i < band_count(full_h),
    ensures
        bands_of(full_h)[i] == band_at(full_h, i),
        band_at(full_h, i).y + band_at(full_h, i).height <= full_h,
{
}

/// `a / d` rounded towards minus infinity.
pub fn floor_div(a: i128, d: i128) -> (q: i128)
    requires
        d > 0,
        a > i128::MIN,
    ensures
        q == a / d,
{
    if a >= 0 {
        a / d
    } else {
        let pos: i128 = -a;
        let q: i128 = pos / d;
        let r: i128 = pos % d;
        proof {
            vstd::arithmetic::div_mod::lemma_fundamental_div_mod(pos as int, d as int);
            vstd::arithmetic::div_mod::lemma_mod_bound(pos as int, d as int);
            lemma_quotient_bounds(pos as int, d as int);
        }
        if r == 0 {
            proof {
                assert(a == (-(q as int)) * d + 0) by (nonlinear_arith)
                    requires
                        pos == d * q + r,
                        r == 0,
                        a == -pos,
                ;
                lemma_fundamental_div_mod_converse(a as int, d as int, -(q as int), 0);
            }
            -q
        } else {
            proof {
                assert(a == (-(q as int) - 1) * d + (d - r)) by (nonlinear_arith)
                    requires
                        pos == d * q + r,
                        a == -pos,
                ;
                lemma_fundamental_div_mod_converse(
                    a as int,
                    d as int,
                    -(q as int) - 1,
                    (d - r) as int,
                );
            }
            -q - 1
        }
    }
}

/// A box of a band in the coordinates of the whole image. The band starts
/// `global_y` rows below the top of an image of `full_w` by `full_h`
/// pixels. The box goes from millionths of a pixel to millionths of the
/// image: its horizontal measures are divided by the image's width, its
/// vertical ones, top edge shifted by the band's offset, by the image's
/// height. Quotients are rounded down.
pub open spec fn stitched_box(b: BoundingBox, global_y: u32, full_w: u32, full_h: u32) -> BoundingBox {
    BoundingBox {
        x: ((b.x as int) / (full_w as int)) as i64,
        y: ((b.y + global_y * 1_000_000) / (full_h as int)) as i64,
        width: ((b.width as int) / (full_w as int)) as i64,
        height: ((b.height as int) / (full_h as int)) as i64,
        rotation: b.rotation,
    }
}

/// Computes `stitched_box`.
pub fn stitch_box(b: &BoundingBox, global_y: u32, full_w: u32, full_h: u32) -> (stitched: BoundingBox)
    requires
        b.is_valid(),
        full_w > 0,
        full_h > 0,
    ensures
        stitched == stitched_box(*b, global_y, full_w, full_h),
{
    let shifted: i128 = (b.y as i128) + (global_y as i128) * 1_000_000;
    let x: i128 = floor_div(b.x as i128, full_w as i128);
    let y: i128 = floor_div(shifted, full_h as i128);
    let width: i128 = floor_div(b.width as i128, full_w as i128);
    let height: i128 = floor_div(b.height as i128, full_h as i128);
    proof {
        lemma_quotient_bounds(b.x as int, full_w as int);
        lemma_quotient_bounds(shifted as int, full_h as int);
        lemma_quotient_bounds(b.width as int, full_w as int);
        lemma_quotient_bounds(b.height as int, full_h as int);
    }
    BoundingBox {
        x: x as i64,
        y: y as i64,
        width: width as i64,
        height: height as i64,
        rotation: b.rotation,
    }
}

/// A quotient by a positive number is no further from zero than the
/// dividend, rounding down allowed for.
pub proof fn lemma_quotient_bounds(a: int, d: int)
    requires
        d > 0,
    ensures
        a >= 0 ==> 0 <= a / d <= a,
        a < 0 ==> a <= a / d < 0,
{
    vstd::arithmetic::div_mod::lemma_fundamental_div_mod(a, d);
    vstd::arithmetic::div_mod::lemma_mod_bound(a, d);
    assert(a >= 0 ==> 0 <= a / d <= a) by (nonlinear_arith)
        requires
            d > 0,
            a == d * (a / d) + a % d,
            0 <= a % d < d,
    ;
    assert(a < 0 ==> a <= a / d < 0) by (nonlinear_arith)
        requires
            d > 0,
            a == d * (a / d) + a % d,
            0 <= a % d < d,
    ;
}

/// In an image of one band the stitched coordinates are the band's
/// coordinates divided by the image's dimensions.
pub proof fn lemma_single_band_stitch(b: BoundingBox, full_w: u32, full_h: u32)
    requires
        full_w > 0,
        full_h > 0,
    ensures
        stitched_box(b, 0, full_w, full_h).x == (b.x as int) / (full_w as int),
        stitched_box(b, 0, full_w, full_h).y == (b.y as int) / (full_h as int),
        stitched_box(b, 0, full_w, full_h).width == (b.width as int) / (full_w as int),
        stitched_box(b, 0, full_w, full_h).height == (b.height as int) / (full_h as int),
        stitched_box(b, 0, full_w, full_h).rotation == b.rotation,
{
    lemma_quotient_bounds(b.x as int, full_w as int);
    lemma_quotient_bounds(b.y as int, full_h as int);
    lemma_quotient_bounds(b.width as int, full_w as int);
    lemma_quotient_bounds(b.height as int, full_h as int);
}

/// A box that starts inside its band is stitched at or below the band's
/// own top edge.
pub proof fn lemma_stitched_below_band_top(b: BoundingBox, global_y: u32, full_w: u32, full_h: u32)
    requires
        b.is_valid(),
        b.y >= 0,
        full_w > 0,
        full_h > 0,
    ensures
        stitched_box(b, global_y, full_w, full_h).y >= (global_y * 1_000_000) / (full_h as int),
{
    let low = global_y * 1_000_000;
    let high = b.y + global_y * 1_000_000;
    vstd::arithmetic::div_mod::lemma_div_is_ordered(low, high, full_h as int);
    lemma_quotient_bounds(high, full_h as int);
}

/// The lines found in one band before any merging, with all that is needed
/// to place them in the image: the band's size, its offset from the top of
/// the image, and the size of the image, all in pixels.
#[derive(Debug, PartialEq, Eq)]
pub struct RawChunk {
    pub lines: Vec<OcrResult>,
    pub width: u32,
    pub height: u32,
    pub global_y: u32,
    pub full_width: u32,
    pub full_height: u32,
}

/// What a `RawChunk` says.
pub struct RawChunkView {
    pub lines: Seq<OcrResultView>,
    pub width: u32,
    pub height: u32,
    pub global_y: u32,
    pub full_width: u32,
    pub full_height: u32,
}

impl View for RawChunk {
    type V = RawChunkView;

    open spec fn view(&self) -> RawChunkView {
        RawChunkView {
            lines: views(self.lines@),
            width: self.width,
            height: self.height,
            global_y: self.global_y,
            full_width: self.full_width,
            full_height: self.full_height,
        }
    }
}

/// The chunk can be processed: its boxes are valid and its image is not
/// empty.
pub open spec fn chunk_valid(chunk: RawChunkView) -> bool {
    &&& lines_valid(chunk.lines)
    &&& chunk.full_width > 0
    &&& chunk.full_height > 0
}

impl RawChunk {
    /// Tests `chunk_valid`.
    pub fn check_valid(&self) -> (ok: bool)
        ensures
            ok == chunk_valid(self@),
    {
        self.full_width > 0 && self.full_height > 0 && check_lines(&self.lines)
    }
}

/// Tests `reports_valid`.
pub fn check_reports(reports: &Vec<OracleLine>) -> (ok: bool)
    ensures
        ok == reports_valid(reports@),
{
    let mut i: usize = 0;
    while i < reports.len()
        invariant
            i <= reports@.len(),
            forall|k: int| 0 <= k < i ==> placement_valid((#[trigger] reports@[k]).placement()),
        decreases reports@.len() - i,
    {
        if !reports[i].check_valid() {
            return false;
        }
        i = i + 1;
    }
    true
}

/// Every reported line has a valid placement.
pub open spec fn reports_valid(reports: Seq<OracleLine>) -> bool {
    forall|i: int| 0 <= i < reports.len() ==> placement_valid((#[trigger] reports[i]).placement())
}

/// The regions that the first `k` reported lines become, in their order,
/// without the lines that leave no text.
pub open spec fn kept_lines(reports: Seq<OracleLine>, w: u32, h: u32, k: int) -> Seq<OcrResultView>
    decreases k,
{
    if k <= 0 {
        Seq::empty()
    } else {
        let rest = kept_lines(reports, w, h, k - 1);
        match normalized(reports[k - 1]@, w, h) {
            Some(region) => rest.push(region),
            None => rest,
        }
    }
}

/// Turns the lines that the detector reports for one band into the band's
/// chunk. The band is as wide as the image.
pub fn get_raw_chunk(reports: &Vec<OracleLine>, band: Band, full_w: u32, full_h: u32) -> (chunk:
    RawChunk)
    requires
        reports_valid(reports@),
    ensures
        chunk@ == (RawChunkView {
            lines: kept_lines(reports@, full_w, band.height, reports@.len() as int),
            width: full_w,
            height: band.height,
            global_y: band.y,
            full_width: full_w,
            full_height: full_h,
        }),
        lines_valid(chunk@.lines),
{
    let mut lines: Vec<OcrResult> = Vec::new();
    let mut k: usize = 0;
    while k < reports.len()
        invariant
            reports_valid(reports@),
            k <= reports@.len(),
            views(lines@) == kept_lines(reports@, full_w, band.height, k as int),
            lines_valid(views(lines@)),
        decreases reports@.len() - k,
    {
        let ghost before = lines@;
        assert(placement_valid(reports@[k as int].placement()));
        match normalize_line(&reports[k], full_w, band.height) {
            Some(region) => {
                lines.push(region);
                proof {
                    assert(views(lines@) =~= views(before).push(region@));
                    assert forall|i: int| 0 <= i < views(lines@).len() implies (#[trigger] views(
                        lines@,
                    )[i]).tight_bounding_box.is_valid() by {
                        if i < before.len() {
                            assert(views(before)[i].tight_bounding_box.is_valid());
                        }
                    }
                }
            },
            None => {},
        }
        k = k + 1;
    }
    RawChunk {
        lines,
        width: full_w,
        height: band.height,
        global_y: band.y,
        full_width: full_w,
        full_height: full_h,
    }
}

/// A region with its box stitched into the image.
pub open spec fn stitched_line(line: OcrResultView, global_y: u32, full_w: u32, full_h: u32) -> OcrResultView {
    OcrResultView {
        text: line.text,
        tight_bounding_box: stitched_box(line.tight_bounding_box, global_y, full_w, full_h),
        is_merged: line.is_merged,
        forced_orientation: line.forced_orientation,
    }
}

/// The regions with their boxes stitched into the image.
pub open spec fn stitched_lines(lines: Seq<OcrResultView>, global_y: u32, full_w: u32, full_h: u32) -> Seq<
    OcrResultView,
> {
    Seq::new(lines.len(), |i: int| stitched_line(lines[i], global_y, full_w, full_h))
}

/// `out` is what a chunk contributes to its page: the chunk's lines merged
/// within the band, then stitched into the image.
pub open spec fn is_chunk_result(out: Seq<OcrResultView>, chunk: RawChunkView, config: MergeConfig) -> bool {
    exists|merged: Seq<OcrResultView>|
        #![trigger is_merge_of(merged, chunk.lines, chunk.width, chunk.height, config)]
        is_merge_of(merged, chunk.lines, chunk.width, chunk.height, config) && out
            == stitched_lines(merged, chunk.global_y, chunk.full_width, chunk.full_height)
}

/// Merges the lines of a chunk and stitches the regions into the image.
pub fn process_chunk(chunk: RawChunk, config: &MergeConfig) -> (out: Vec<OcrResult>)
    requires
        chunk_valid(chunk@),
    ensures
        is_chunk_result(views(out@), chunk@, *config),
{
    let ghost source = chunk@;
    let width: u32 = chunk.width;
    let height: u32 = chunk.height;
    let global_y: u32 = chunk.global_y;
    let full_w: u32 = chunk.full_width;
    let full_h: u32 = chunk.full_height;
    let merged: Vec<OcrResult> = auto_merge(chunk.lines, width, height, config);
    let mut out: Vec<OcrResult> = Vec::new();
    let mut i: usize = 0;
    while i < merged.len()
        invariant
            full_w > 0,
            full_h > 0,
            lines_valid(views(merged@)),
            i <= merged@.len(),
            out@.len() == i,
            forall|k: int|
                0 <= k < i ==> (#[trigger] out@[k])@ == stitched_line(
                    merged@[k]@,
                    global_y,
                    full_w,
                    full_h,
                ),
        decreases merged@.len() - i,
    {
        let line: &OcrResult = &merged[i];
        assert(views(merged@)[i as int].tight_bounding_box.is_valid());
        let stitched: BoundingBox = stitch_box(&line.tight_bounding_box, global_y, full_w, full_h);
        out.push(
            OcrResult {
                text: line.text.clone(),
                tight_bounding_box: stitched,
                is_merged: line.is_merged,
                forced_orientation: line.forced_orientation,
            },
        );
        i = i + 1;
    }
    proof {
        assert(views(out@) =~= stitched_lines(views(merged@), global_y, full_w, full_h));
        assert(is_merge_of(views(merged@), source.lines, source.width, source.height, *config));
    }
    out
}

/// `out` is `head` followed by `tail`.
pub open spec fn joins(out: Seq<OcrResultView>, head: Seq<OcrResultView>, tail: Seq<OcrResultView>) -> bool {
    out == head + tail
}

/// `out` is the result of a page whose first `k` chunks are given: the
/// contributions of the chunks, one after the other.
pub open spec fn is_page_result(
    out: Seq<OcrResultView>,
    chunks: Seq<RawChunkView>,
    config: MergeConfig,
    k: int,
) -> bool
    decreases k,
{
    if k <= 0 {
        out.len() == 0
    } else {
        exists|head: Seq<OcrResultView>, tail: Seq<OcrResultView>|
            #![trigger joins(out, head, tail)]
            joins(out, head, tail) && is_page_result(head, chunks, config, k - 1) && is_chunk_result(
                tail,
                chunks[k - 1],
                config,
            )
    }
}

/// The views of a sequence of chunks.
pub open spec fn chunk_views(chunks: Seq<RawChunk>) -> Seq<RawChunkView> {
    Seq::new(chunks.len(), |i: int| chunks[i]@)
}

/// Every chunk can be processed.
pub open spec fn chunks_valid(chunks: Seq<RawChunk>) -> bool {
    forall|i: int| 0 <= i < chunks.len() ==> chunk_valid((#[trigger] chunks[i])@)
}

/// Processes the chunks of a page from the top and collects the regions.
/// Lines are merged within a chunk only, never across two.
pub fn process_chunks(chunks: Vec<RawChunk>, config: &MergeConfig) -> (out: Vec<OcrResult>)
    requires
        chunks_valid(chunks@),
    ensures
        is_page_result(views(out@), chunk_views(chunks@), *config, chunks@.len() as int),
{
    let ghost all = chunk_views(chunks@);
    let total: usize = chunks.len();
    let mut chunks: Vec<RawChunk> = chunks;
    let mut out: Vec<OcrResult> = Vec::new();
    let mut done: Vec<RawChunk> = Vec::new();
    let mut k: usize = 0;
    // The chunks are taken from the back and set aside, then processed in
    // their own order.
    while chunks.len() > 0
        invariant
            all.len() == total,
            chunks@.len() + done@.len() == total,
            forall|i: int| 0 <= i < chunks@.len() ==> (#[trigger] chunks@[i])@ == all[i],
            forall|i: int| 0 <= i < done@.len() ==> (#[trigger] done@[i])@ == all[total - 1 - i],
            forall|i: int| 0 <= i < total ==> chunk_valid(#[trigger] all[i]),
        decreases chunks@.len(),
    {
        let ghost before = chunks@;
        let last: Option<RawChunk> = chunks.pop();
        match last {
            Some(chunk) => {
                assert(chunk == before[before.len() - 1]);
                done.push(chunk);
            },
            None => {},
        }
    }
    while done.len() > 0
        invariant
            all.len() == total,
            k + done@.len() == total,
            forall|i: int| 0 <= i < done@.len() ==> (#[trigger] done@[i])@ == all[total - 1 - i],
            forall|i: int| 0 <= i < total ==> chunk_valid(#[trigger] all[i]),
            is_page_result(views(out@), all, *config, k as int),
        decreases done@.len(),
    {
        let ghost before = done@;
        let ghost head = views(out@);
        let next: Option<RawChunk> = done.pop();
        match next {
            Some(chunk) => {
                assert(chunk == before[before.len() - 1]);
                assert(chunk@ == all[k as int]);
                assert(chunk_valid(all[k as int]));
                let mut part: Vec<OcrResult> = process_chunk(chunk, config);
                let ghost tail = views(part@);
                out.append(&mut part);
                proof {
                    assert(views(out@) =~= head + tail);
                    assert(joins(views(out@), head, tail));
                    assert(is_page_result(head, all, *config, k as int));
                    assert(is_chunk_result(tail, all[k as int], *config));
                }
                k = k + 1;
            },
            None => {},
        }
    }
    out
}

/// Tests `chunks_valid`.
pub fn check_chunks(chunks: &Vec<RawChunk>) -> (ok: bool)
    ensures
        ok == chunks_valid(chunks@),
{
    let mut i: usize = 0;
    while i < chunks.len()
        invariant
            i <= chunks@.len(),
            forall|k: int| 0 <= k < i ==> chunk_valid((#[trigger] chunks@[k])@),
        decreases chunks@.len() - i,
    {
        if !chunks[i].check_valid() {
            return false;
        }
        i = i + 1;
    }
    true
}

/// Processes the chunks of a page if every chunk can be processed, and
/// returns nothing if one cannot.
pub fn process_page(chunks: Vec<RawChunk>, config: &MergeConfig) -> (out: Option<Vec<OcrResult>>)
    ensures
        match out {
            Some(regions) => chunks_valid(chunks@) && is_page_result(
                views(regions@),
                chunk_views(chunks@),
                *config,
                chunks@.len() as int,
            ),
            None => !chunks_valid(chunks@),
        },
{
    if check_chunks(&chunks) {
        Some(process_chunks(chunks, config))
    } else {
        None
    }
}

/// The path that a URL parser finds in `url`, where it accepts `url` as an
/// absolute URL.
pub uninterp spec fn url_path_of(url: Seq<char>) -> Option<Seq<char>>;

/// Parses `url` with `reqwest::Url::parse` and, where that succeeds, copies
/// what `Url::path` returns. Nothing is proved of the parser: the contract
/// only names its result, which depends on the text of `url` alone.
#[verifier::external_body]
fn parsed_path(url: &str) -> (path: Option<String>)
    ensures
        match path {
            Some(p) => url_path_of(url@) == Some(p@),
            None => url_path_of(url@) is None,
        },
{
    match reqwest::Url::parse(url) {
        Ok(parsed) => Some(parsed.path().to_string()),
        Err(_) => None,
    }
}

/// Position of the first `?` at or after `from`, or the length of `url`
/// where there is none.
pub open spec fn query_start(url: Seq<char>, from: int) -> int
    decreases url.len() - from,
{
    if from >= url.len() {
        url.len() as int
    } else if url[from] == '?' {
        from
    } else {
        query_start(url, from + 1)
    }
}

/// The key under which the results for `url` are cached: the path of a URL
/// that parses, without scheme, host and query; of any other text, what
/// stands before the first `?`.
pub open spec fn cache_key(url: Seq<char>, parsed: Option<Seq<char>>) -> Seq<char> {
    match parsed {
        Some(path) => path,
        None => url.take(query_start(url, 0)),
    }
}

/// Computes `cache_key` from a URL and the path that the parser found in
/// it, if it found one.
pub fn cache_key_from(url: &str, parsed: Option<String>) -> (key: String)
    ensures
        key@ == cache_key(
            url@,
            match parsed {
                Some(p) => Some(p@),
                None => None,
            },
        ),
{
    match parsed {
        Some(path) => path,
        None => {
            let n: usize = url.unicode_len();
            let mut rest = url.chars();
            let mut i: usize = 0;
            loop
                invariant_except_break
                    rest.remaining() == url@.subrange(i as int, url@.len() as int),
                invariant
                    n == url@.len(),
                    i <= url@.len(),
                    query_start(url@, 0) == query_start(url@, i as int),
                ensures
                    i == query_start(url@, 0),
                    i <= url@.len(),
                decreases url@.len() - i,
            {
                match rest.next() {
                    Some(c) => {
                        assert(c == url@[i as int]);
                        if c == '?' {
                            break;
                        }
                        proof {
                            assert(url@.subrange(i as int, url@.len() as int).drop_first()
                                =~= url@.subrange(i + 1, url@.len() as int));
                        }
                        i = i + 1;
                    },
                    None => {
                        break;
                    },
                }
            }
            String::from_str(url.substring_char(0, i))
        },
    }
}

/// The cache key of a URL. Two URLs that differ in scheme, host, port or
/// query only have one key.
pub fn get_cache_key(url: &str) -> (key: String)
    ensures
        key@ == cache_key(url@, url_path_of(url@)),
{
    let parsed: Option<String> = parsed_path(url);
    cache_key_from(url, parsed)
}

/// Reduces samples of sixteen bits to eight by keeping the high byte.
pub fn downsample_high_byte(samples: &Vec<u16>) -> (bytes: Vec<u8>)
    ensures
        bytes@.len() == samples@.len(),
        forall|i: int| 0 <= i < samples@.len() ==> #[trigger] bytes@[i] == samples@[i] / 256,
{
    let mut bytes: Vec<u8> = Vec::new();
    let mut i: usize = 0;
    while i < samples.len()
        invariant
            i <= samples@.len(),
            bytes@.len() == i,
            forall|k: int| 0 <= k < i ==> #[trigger] bytes@[k] == samples@[k] / 256,
        decreases samples@.len() - i,
    {
        let sample: u16 = samples[i];
        let high: u16 = sample >> 8;
        assert(high == sample / 256 && high < 256) by (bit_vector)
            requires
                high == sample >> 8,
        ;
        bytes.push(high as u8);
        i = i + 1;
    }
    bytes
}

/// Copies a sequence of regions.
pub fn clone_lines(lines: &Vec<OcrResult>) -> (copy: Vec<OcrResult>)
    ensures
        views(copy@) == views(lines@),
{
    let mut copy: Vec<OcrResult> = Vec::new();
    let mut i: usize = 0;
    while i < lines.len()
        invariant
            i <= lines@.len(),
            copy@.len() == i,
            forall|k: int| 0 <= k < i ==> (#[trigger] copy@[k])@ == lines@[k]@,
        decreases lines@.len() - i,
    {
        copy.push(lines[i].clone());
        i = i + 1;
    }
    assert(views(copy@) =~= views(lines@));
    copy
}

/// Where the work on a page can fail. Each failure carries its message.
#[derive(Debug, PartialEq, Eq)]
pub enum PipelineError {
    /// The image could not be fetched: the network failed, the credentials
    /// were refused, or the server answered with an error.
    Fetch(String),
    /// The image could not be decoded.
    Decode(String),
    /// The line detector failed.
    Oracle(String),
    /// The cache could not be written.
    Persistence(String),
}

impl PipelineError {
    /// Whether the failure is reported to the one who asked. A failure to
    /// write the cache is logged only: the next change of the cache writes
    /// it again.
    pub open spec fn is_surfaced(&self) -> bool {
        !(self is Persistence)
    }

    /// The HTTP status with which the failure is reported, if it is.
    pub fn status_code(&self) -> (status: Option<u16>)
        ensures
            status == if self.is_surfaced() {
                Some(500u16)
            } else {
                None::<u16>
            },
    {
        match self {
            PipelineError::Persistence(_) => None,
            _ => Some(500),
        }
    }

    /// The message of the failure.
    pub fn message(&self) -> (message: &String)
        ensures
            message == match *self {
                PipelineError::Fetch(m) => m,
                PipelineError::Decode(m) => m,
                PipelineError::Oracle(m) => m,
                PipelineError::Persistence(m) => m,
            },
    {
        match self {
            PipelineError::Fetch(m) => m,
            PipelineError::Decode(m) => m,
            PipelineError::Oracle(m) => m,
            PipelineError::Persistence(m) => m,
        }
    }
}

} // verus!
