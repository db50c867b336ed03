//! From the detector's geometry to boxes in a band: the extent of a rotated
//! box, and the direction of its text.
//!
//! The detector reports a line by its centre and size as fractions of the
//! band, and by a rotation about the centre. Fractions and the sine and
//! cosine of the rotation are held in millionths, the rotation itself in
//! millionths of a radian.

use vstd::prelude::*;
use vstd::string::*;
use crate::logic::{BoundingBox, OcrResult, OcrResultView, Orientation};
use crate::text::{strip_whitespace, stripped};

verus! {

/// Largest fraction of a band that a valid line may report, in millionths.
pub const FRACTION_LIMIT: i64 = 4_000_000;

/// A quarter turn in millionths of a radian.
pub const QUARTER_TURN: i64 = 1_570_796;

/// A rotation up to this size is read as none, in millionths of a radian.
pub const UPRIGHT_TOLERANCE: i64 = 100_000;

/// A rotation this close to a quarter turn marks vertical text, in
/// millionths of a radian.
pub const QUARTER_TURN_TOLERANCE: i64 = 500_000;

/// A line as the detector reports it.
#[derive(Debug)]
pub struct OracleLine {
    pub text: String,
    /// Centre, as a fraction of the band's width.
    pub center_x: i64,
    /// Centre, as a fraction of the band's height.
    pub center_y: i64,
    /// Width before rotation, as a fraction of the band's width.
    pub width: i64,
    /// Height before rotation, as a fraction of the band's height.
    pub height: i64,
    /// Rotation about the centre.
    pub rotation: i64,
    /// Cosine of the rotation.
    pub cos: i64,
    /// Sine of the rotation.
    pub sin: i64,
}

/// The numbers of an `OracleLine`.
pub struct Placement {
    pub center_x: i64,
    pub center_y: i64,
    pub width: i64,
    pub height: i64,
    pub rotation: i64,
    pub cos: i64,
    pub sin: i64,
}

/// What an `OracleLine` says: its text and where it lies.
pub struct OracleLineView {
    pub text: Seq<char>,
    pub placement: Placement,
}

impl View for OracleLine {
    type V = OracleLineView;

    open spec fn view(&self) -> OracleLineView {
        OracleLineView { text: self.text@, placement: self.placement() }
    }
}

impl OracleLine {
    /// Where the line lies.
    pub open spec fn placement(&self) -> Placement {
        Placement {
            center_x: self.center_x,
            center_y: self.center_y,
            width: self.width,
            height: self.height,
            rotation: self.rotation,
            cos: self.cos,
            sin: self.sin,
        }
    }

    /// Tests `placement_valid`.
    pub fn check_valid(&self) -> (ok: bool)
        ensures
            ok == placement_valid(self.placement()),
    {
        -FRACTION_LIMIT <= self.center_x && self.center_x <= FRACTION_LIMIT && -FRACTION_LIMIT
            <= self.center_y && self.center_y <= FRACTION_LIMIT && 0 <= self.width && self.width
            <= FRACTION_LIMIT && 0 <= self.height && self.height <= FRACTION_LIMIT && -1_000_000
            <= self.cos && self.cos <= 1_000_000 && -1_000_000 <= self.sin && self.sin
            <= 1_000_000
    }
}

/// Centre and size are within `FRACTION_LIMIT`, sizes are not negative, and
/// sine and cosine are at most one.
pub open spec fn placement_valid(p: Placement) -> bool {
    &&& -FRACTION_LIMIT <= p.center_x <= FRACTION_LIMIT
    &&& -FRACTION_LIMIT <= p.center_y <= FRACTION_LIMIT
    &&& 0 <= p.width <= FRACTION_LIMIT
    &&& 0 <= p.height <= FRACTION_LIMIT
    &&& -1_000_000 <= p.cos <= 1_000_000
    &&& -1_000_000 <= p.sin <= 1_000_000
}

pub open spec fn abs_int(v: int) -> int {
    if v < 0 {
        -v
    } else {
        v
    }
}

pub open spec fn min4(a: int, b: int, c: int, d: int) -> int {
    let ab = if a <= b {
        a
    } else {
        b
    };
    let cd = if c <= d {
        c
    } else {
        d
    };
    if ab <= cd {
        ab
    } else {
        cd
    }
}

pub open spec fn max4(a: int, b: int, c: int, d: int) -> int {
    let ab = if a >= b {
        a
    } else {
        b
    };
    let cd = if c >= d {
        c
    } else {
        d
    };
    if ab >= cd {
        ab
    } else {
        cd
    }
}

/// Horizontal offset from the centre of the corner that lies `sx` half
/// widths and `sy` half heights from it before rotation, for a line in a
/// band of `w` by `h` pixels. The offset is in millionths of a pixel,
/// doubled and multiplied by a million.
pub open spec fn corner_dx(p: Placement, w: u32, h: u32, sx: int, sy: int) -> int {
    sx * ((p.width * w) * p.cos) - sy * ((p.height * h) * p.sin)
}

/// Vertical offset of the same corner, in the same unit.
pub open spec fn corner_dy(p: Placement, w: u32, h: u32, sx: int, sy: int) -> int {
    sx * ((p.width * w) * p.sin) + sy * ((p.height * h) * p.cos)
}

/// The tight axis-aligned box of a rotated line, in millionths of a pixel
/// of the band: its edges are the least and greatest coordinates of the
/// four rotated corners, rounded down. A rotation of zero is not recorded.
pub open spec fn band_box(p: Placement, w: u32, h: u32) -> BoundingBox {
    let cx = p.center_x * w;
    let cy = p.center_y * h;
    let left = cx + min4(
        corner_dx(p, w, h, -1, -1),
        corner_dx(p, w, h, 1, -1),
        corner_dx(p, w, h, 1, 1),
        corner_dx(p, w, h, -1, 1),
    ) / 2_000_000;
    let right = cx + max4(
        corner_dx(p, w, h, -1, -1),
        corner_dx(p, w, h, 1, -1),
        corner_dx(p, w, h, 1, 1),
        corner_dx(p, w, h, -1, 1),
    ) / 2_000_000;
    let top = cy + min4(
        corner_dy(p, w, h, -1, -1),
        corner_dy(p, w, h, 1, -1),
        corner_dy(p, w, h, 1, 1),
        corner_dy(p, w, h, -1, 1),
    ) / 2_000_000;
    let bottom = cy + max4(
        corner_dy(p, w, h, -1, -1),
        corner_dy(p, w, h, 1, -1),
        corner_dy(p, w, h, 1, 1),
        corner_dy(p, w, h, -1, 1),
    ) / 2_000_000;
    BoundingBox {
        x: left as i64,
        y: top as i64,
        width: (right - left) as i64,
        height: (bottom - top) as i64,
        rotation: if p.rotation == 0 {
            None
        } else {
            Some(p.rotation)
        },
    }
}

/// The direction of the text in a box. A rotation of more than a tenth of a
/// radian decides by itself: the text is vertical when the rotation is
/// within half a radian of a quarter turn either way. Without such a
/// rotation a box that is at most as wide as it is high holds vertical
/// text.
pub open spec fn orientation_of(rotation: int, b: BoundingBox) -> Orientation {
    let turn = abs_int(rotation);
    if turn > UPRIGHT_TOLERANCE {
        if abs_int(turn - QUARTER_TURN) < QUARTER_TURN_TOLERANCE {
            Orientation::Vertical
        } else {
            Orientation::Horizontal
        }
    } else if b.width <= b.height {
        Orientation::Vertical
    } else {
        Orientation::Horizontal
    }
}

/// Computes `orientation_of`.
pub fn classify_orientation(rotation: i64, b: &BoundingBox) -> (orientation: Orientation)
    ensures
        orientation == orientation_of(rotation as int, *b),
{
    let turn: i128 = if rotation < 0 {
        -(rotation as i128)
    } else {
        rotation as i128
    };
    if turn > 100_000 {
        let off: i128 = if turn < 1_570_796 {
            1_570_796 - turn
        } else {
            turn - 1_570_796
        };
        if off < 500_000 {
            Orientation::Vertical
        } else {
            Orientation::Horizontal
        }
    } else if b.width <= b.height {
        Orientation::Vertical
    } else {
        Orientation::Horizontal
    }
}

/// The product of two bounded numbers is bounded by the product of the
/// bounds.
proof fn lemma_product_bound(a: int, b: int, amax: int, bmax: int)
    requires
        -amax <= a <= amax,
        -bmax <= b <= bmax,
    ensures
        -(amax * bmax) <= a * b <= amax * bmax,
{
    assert(-(amax * bmax) <= a * b <= amax * bmax) by (nonlinear_arith)
        requires
            -amax <= a <= amax,
            -bmax <= b <= bmax,
    ;
}

fn product(a: i128, b: i128, Ghost(amax): Ghost<int>, Ghost(bmax): Ghost<int>) -> (p: i128)
    requires
        -amax <= a <= amax,
        -bmax <= b <= bmax,
        amax * bmax <= 0x4000_0000_0000_0000_0000_0000_0000_0000,
    ensures
        p == a * b,
        -(amax * bmax) <= p <= amax * bmax,
{
    proof {
        lemma_product_bound(a as int, b as int, amax, bmax);
    }
    a * b
}

fn least4(a: i128, b: i128, c: i128, d: i128) -> (m: i128)
    ensures
        m == min4(a as int, b as int, c as int, d as int),
{
    let ab: i128 = if a <= b {
        a
    } else {
        b
    };
    let cd: i128 = if c <= d {
        c
    } else {
        d
    };
    if ab <= cd {
        ab
    } else {
        cd
    }
}

fn greatest4(a: i128, b: i128, c: i128, d: i128) -> (m: i128)
    ensures
        m == max4(a as int, b as int, c as int, d as int),
{
    let ab: i128 = if a >= b {
        a
    } else {
        b
    };
    let cd: i128 = if c >= d {
        c
    } else {
        d
    };
    if ab >= cd {
        ab
    } else {
        cd
    }
}

/// Computes `band_box`.
pub fn rotated_extent(line: &OracleLine, w: u32, h: u32) -> (b: BoundingBox)
    requires
        placement_valid(line.placement()),
    ensures
        b == band_box(line.placement(), w, h),
        b.is_valid(),
{
    let ghost p = line.placement();
    let ghost dim: int = 0x1_0000_0000;
    let ghost span: int = 0x3D_0900_0000_0000;
    let wide: i128 = product(line.width as i128, w as i128, Ghost(4_000_000), Ghost(dim));
    let high: i128 = product(line.height as i128, h as i128, Ghost(4_000_000), Ghost(dim));
    let wc: i128 = product(wide, line.cos as i128, Ghost(span), Ghost(1_000_000));
    let ws: i128 = product(wide, line.sin as i128, Ghost(span), Ghost(1_000_000));
    let hc: i128 = product(high, line.cos as i128, Ghost(span), Ghost(1_000_000));
    let hs: i128 = product(high, line.sin as i128, Ghost(span), Ghost(1_000_000));
    let cx: i128 = product(line.center_x as i128, w as i128, Ghost(4_000_000), Ghost(dim));
    let cy: i128 = product(line.center_y as i128, h as i128, Ghost(4_000_000), Ghost(dim));
    let dx0: i128 = -wc + hs;
    let dx1: i128 = wc + hs;
    let dx2: i128 = wc - hs;
    let dx3: i128 = -wc - hs;
    let dy0: i128 = -ws - hc;
    let dy1: i128 = ws - hc;
    let dy2: i128 = ws + hc;
    let dy3: i128 = -ws + hc;
    assert(dx0 == corner_dx(p, w, h, -1, -1));
    assert(dx1 == corner_dx(p, w, h, 1, -1));
    assert(dx2 == corner_dx(p, w, h, 1, 1));
    assert(dx3 == corner_dx(p, w, h, -1, 1));
    assert(dy0 == corner_dy(p, w, h, -1, -1));
    assert(dy1 == corner_dy(p, w, h, 1, -1));
    assert(dy2 == corner_dy(p, w, h, 1, 1));
    assert(dy3 == corner_dy(p, w, h, -1, 1));
    let lo_x: i128 = least4(dx0, dx1, dx2, dx3);
    let hi_x: i128 = greatest4(dx0, dx1, dx2, dx3);
    let lo_y: i128 = least4(dy0, dy1, dy2, dy3);
    let hi_y: i128 = greatest4(dy0, dy1, dy2, dy3);
    proof {
        crate::logic::lemma_quotient_bounds(lo_x as int, 2_000_000);
        crate::logic::lemma_quotient_bounds(hi_x as int, 2_000_000);
        crate::logic::lemma_quotient_bounds(lo_y as int, 2_000_000);
        crate::logic::lemma_quotient_bounds(hi_y as int, 2_000_000);
        vstd::arithmetic::div_mod::lemma_div_is_ordered(lo_x as int, hi_x as int, 2_000_000);
        vstd::arithmetic::div_mod::lemma_div_is_ordered(lo_y as int, hi_y as int, 2_000_000);
        let reach: int = 2_000_000 * span;
        vstd::arithmetic::div_mod::lemma_div_is_ordered(hi_x as int, reach, 2_000_000);
        vstd::arithmetic::div_mod::lemma_div_is_ordered(hi_y as int, reach, 2_000_000);
        vstd::arithmetic::div_mod::lemma_div_is_ordered(-reach, lo_x as int, 2_000_000);
        vstd::arithmetic::div_mod::lemma_div_is_ordered(-reach, lo_y as int, 2_000_000);
        assert(reach / 2_000_000 == span);
        assert((-reach) / 2_000_000 == -span);
    }
    let left: i128 = cx + crate::logic::floor_div(lo_x, 2_000_000);
    let right: i128 = cx + crate::logic::floor_div(hi_x, 2_000_000);
    let top: i128 = cy + crate::logic::floor_div(lo_y, 2_000_000);
    let bottom: i128 = cy + crate::logic::floor_div(hi_y, 2_000_000);
    BoundingBox {
        x: left as i64,
        y: top as i64,
        width: (right - left) as i64,
        height: (bottom - top) as i64,
        rotation: if line.rotation == 0 {
            None
        } else {
            Some(line.rotation)
        },
    }
}

/// What a reported line becomes in its band: nothing when no text is left
/// after stripping, else a region with the stripped text, the tight box,
/// and the direction of the text.
pub open spec fn normalized(line: OracleLineView, w: u32, h: u32) -> Option<OcrResultView> {
    let text = line.text;
    let p = line.placement;
    if stripped(text).len() == 0 {
        None
    } else {
        Some(
            OcrResultView {
                text: stripped(text),
                tight_bounding_box: band_box(p, w, h),
                is_merged: Some(false),
                forced_orientation: Some(orientation_of(p.rotation as int, band_box(p, w, h))),
            },
        )
    }
}

/// Computes `normalized` for a line in a band of `w` by `h` pixels.
pub fn normalize_line(line: &OracleLine, w: u32, h: u32) -> (region: Option<OcrResult>)
    requires
        placement_valid(line.placement()),
    ensures
        match region {
            Some(r) => normalized(line@, w, h) == Some(r@) && r.tight_bounding_box.is_valid(),
            None => normalized(line@, w, h) is None,
        },
{
    let text: String = strip_whitespace(line.text.as_str());
    if text.as_str().unicode_len() == 0 {
        return None;
    }
    let b: BoundingBox = rotated_extent(line, w, h);
    let orientation: Orientation = classify_orientation(line.rotation, &b);
    Some(
        OcrResult {
            text,
            tight_bounding_box: b,
            is_merged: Some(false),
            forced_orientation: Some(orientation),
        },
    )
}

} // verus!
