//! Which lines of a band belong together: sub-bands, their calibration, and
//! the connected components of the link relation.
//!
//! Everything here speaks of positions in a sequence of boxes that is taken
//! in the order given, top line first.

use vstd::prelude::*;
use crate::logic::BoundingBox;
use crate::merge::{is_vertical_box, links, should_link, thickness, MergeConfig, RobustSize};
use crate::union_find::UnionFind;
use crate::sorting::{lemma_median_of_two, median, median_twice, placed};

verus! {

/// A band and the lines found in it.
pub struct Scene {
    /// The boxes of the lines, top line first.
    pub boxes: Seq<BoundingBox>,
    /// Width of the band in length units.
    pub width: int,
    /// Height of the band in length units.
    pub height: int,
    /// The thresholds in force.
    pub config: MergeConfig,
}

/// The scene of a band of `w` by `h` pixels.
pub open spec fn scene_of(boxes: Seq<BoundingBox>, w: u32, h: u32, config: MergeConfig) -> Scene {
    Scene { boxes, width: w * 1_000_000, height: h * 1_000_000, config }
}

/// A length is more than 3000 units of the space in which the band is 1000
/// units wide.
pub open spec fn exceeds_subband(len: int, width: int) -> bool {
    len * 1000 > 3000 * width
}

/// The line at `p` ends within a sub-band's height of the top of the line at
/// `first`.
pub open spec fn fits_subband(s: Scene, first: int, p: int) -> bool {
    !exceeds_subband(s.boxes[p].bottom() - s.boxes[first].y, s.width)
}

/// The position at which the sub-band of `p` starts. A band that is not too
/// tall is one sub-band. In a tall band a line opens a new sub-band when it
/// does not fit the one its predecessor is in.
pub open spec fn subband_start(s: Scene, p: int) -> int
    decreases p,
{
    if p <= 0 {
        0
    } else {
        let prev = subband_start(s, p - 1);
        if !exceeds_subband(s.height, s.width) || fits_subband(s, prev, p) {
            prev
        } else {
            p
        }
    }
}

/// The sizes of the lines before position `k` that lie in the sub-band
/// starting at `first` and have the given orientation.
pub open spec fn band_sizes(s: Scene, first: int, vertical: bool, k: int) -> Seq<i64>
    decreases k,
{
    if k <= 0 {
        Seq::empty()
    } else {
        let rest = band_sizes(s, first, vertical, k - 1);
        if subband_start(s, k - 1) == first && is_vertical_box(s.boxes[k - 1]) == vertical {
            rest.push(thickness(s.boxes[k - 1]))
        } else {
            rest
        }
    }
}

/// The robust size for `sizes`: their median, or 20 units of the normalised
/// space where there is no positive median.
pub open spec fn robust_size(sizes: Seq<i64>, width: int) -> RobustSize {
    let twice = median_twice(sizes);
    if twice > 0 {
        RobustSize { num: twice as i128, den: 2 }
    } else {
        RobustSize { num: (20 * width) as i128, den: 1000 }
    }
}

/// The robust size of one orientation in the sub-band starting at `first`.
pub open spec fn band_calibration(s: Scene, first: int, vertical: bool) -> RobustSize {
    robust_size(band_sizes(s, first, vertical, s.boxes.len() as int), s.width)
}

/// The lines at `p < q` share a sub-band and an orientation and satisfy the
/// link rule under their sub-band's calibration.
pub open spec fn edge(s: Scene, p: int, q: int) -> bool {
    &&& 0 <= p < q < s.boxes.len()
    &&& subband_start(s, p) == subband_start(s, q)
    &&& is_vertical_box(s.boxes[p]) == is_vertical_box(s.boxes[q])
    &&& should_link(
        s.boxes[p],
        s.boxes[q],
        band_calibration(s, subband_start(s, p), is_vertical_box(s.boxes[p])),
        s.config,
    )
}

/// The lines at `p` and `q` are linked directly, in either order.
pub open spec fn adjacent(s: Scene, p: int, q: int) -> bool {
    edge(s, p, q) || edge(s, q, p)
}

/// Step `k` of the chain `c` joins two adjacent lines.
pub open spec fn chain_step(s: Scene, c: Seq<int>, k: int) -> bool {
    adjacent(s, c[k], c[k + 1])
}

/// `c` leads from `p` to `q` over adjacent lines.
pub open spec fn is_chain(s: Scene, c: Seq<int>, p: int, q: int) -> bool {
    &&& c.len() >= 1
    &&& c[0] == p
    &&& c[c.len() - 1] == q
    &&& forall|k: int| 0 <= k < c.len() - 1 ==> #[trigger] chain_step(s, c, k)
}

/// The lines at `p` and `q` belong to one reading unit: a chain of directly
/// linked lines leads from one to the other.
pub open spec fn linked(s: Scene, p: int, q: int) -> bool {
    exists|c: Seq<int>| is_chain(s, c, p, q)
}

/// Every line is linked to itself.
pub proof fn lemma_linked_refl(s: Scene, p: int)
    ensures
        linked(s, p, p),
{
    assert(is_chain(s, seq![p], p, p));
}

/// Adjacent lines are linked.
pub proof fn lemma_linked_adjacent(s: Scene, p: int, q: int)
    requires
        adjacent(s, p, q),
    ensures
        linked(s, p, q),
{
    let c = seq![p, q];
    assert(chain_step(s, c, 0));
    assert(is_chain(s, c, p, q));
}

/// Being linked is symmetric.
pub proof fn lemma_linked_sym(s: Scene, p: int, q: int)
    requires
        linked(s, p, q),
    ensures
        linked(s, q, p),
{
    let c = choose|c: Seq<int>| is_chain(s, c, p, q);
    let r = Seq::new(c.len(), |k: int| c[c.len() - 1 - k]);
    assert forall|k: int| 0 <= k < r.len() - 1 implies #[trigger] chain_step(s, r, k) by {
        assert(chain_step(s, c, c.len() - 2 - k));
    }
    assert(is_chain(s, r, q, p));
}

/// Being linked is transitive.
pub proof fn lemma_linked_trans(s: Scene, p: int, q: int, r: int)
    requires
        linked(s, p, q),
        linked(s, q, r),
    ensures
        linked(s, p, r),
{
    let c1 = choose|c: Seq<int>| is_chain(s, c, p, q);
    let c2 = choose|c: Seq<int>| is_chain(s, c, q, r);
    let c = Seq::new((c1.len() + c2.len() - 1) as nat, |k: int| if k < c1.len() {
        c1[k]
    } else {
        c2[k - c1.len() + 1]
    });
    assert forall|k: int| 0 <= k < c.len() - 1 implies #[trigger] chain_step(s, c, k) by {
        if k < c1.len() - 1 {
            assert(chain_step(s, c1, k));
        } else {
            assert(chain_step(s, c2, k - c1.len() + 1));
        }
    }
    assert(is_chain(s, c, p, r));
}

/// A sub-band starts at or before each of its lines, and never before the
/// sub-band of an earlier line.
pub proof fn lemma_subband_start_bounds(s: Scene, p: int, q: int)
    requires
        0 <= p <= q,
    ensures
        0 <= subband_start(s, p) <= p,
        subband_start(s, p) <= subband_start(s, q),
        subband_start(s, q) <= p ==> subband_start(s, q) == subband_start(s, p),
    decreases q,
{
    if q > 0 {
        if p < q {
            lemma_subband_start_bounds(s, p, q - 1);
        }
        lemma_subband_start_bounds(s, q - 1, q - 1);
        if p == q && p > 0 {
            lemma_subband_start_bounds(s, p - 1, p - 1);
        }
    }
}

/// Linked lines share their sub-band.
pub proof fn lemma_chain_keeps_subband(s: Scene, c: Seq<int>, k: int)
    requires
        c.len() >= 1,
        forall|i: int| 0 <= i < c.len() - 1 ==> #[trigger] chain_step(s, c, i),
        0 <= k < c.len(),
    ensures
        subband_start(s, c[k]) == subband_start(s, c[0]),
        c.len() >= 2 ==> 0 <= c[k] < s.boxes.len(),
    decreases k,
{
    if k > 0 {
        lemma_chain_keeps_subband(s, c, k - 1);
        assert(chain_step(s, c, k - 1));
    } else if c.len() >= 2 {
        assert(chain_step(s, c, 0));
    }
}

/// Positions `first..=last` are exactly the lines of the sub-band that
/// starts at `first`.
pub open spec fn is_subband(s: Scene, first: int, last: int) -> bool {
    &&& 0 <= first <= last < s.boxes.len()
    &&& forall|x: int|
        0 <= x < s.boxes.len() ==> ((#[trigger] subband_start(s, x)) == first <==> first <= x
            <= last)
}

/// Every box is valid.
pub open spec fn all_valid(boxes: Seq<BoundingBox>) -> bool {
    forall|i: int| 0 <= i < boxes.len() ==> (#[trigger] boxes[i]).is_valid()
}

/// No line before a sub-band contributes to its sizes.
proof fn lemma_band_sizes_before(s: Scene, first: int, vertical: bool, k: int)
    requires
        0 <= k <= first,
    ensures
        band_sizes(s, first, vertical, k) == Seq::<i64>::empty(),
    decreases k,
{
    if k > 0 {
        lemma_band_sizes_before(s, first, vertical, k - 1);
        lemma_subband_start_bounds(s, k - 1, k - 1);
    }
}

/// No line after a sub-band contributes to its sizes.
proof fn lemma_band_sizes_after(s: Scene, first: int, last: int, vertical: bool, k: int)
    requires
        is_subband(s, first, last),
        last < k <= s.boxes.len(),
    ensures
        band_sizes(s, first, vertical, k) == band_sizes(s, first, vertical, last + 1),
    decreases k,
{
    if k > last + 1 {
        lemma_band_sizes_after(s, first, last, vertical, k - 1);
        assert(subband_start(s, k - 1) != first);
    }
}

/// Finds the last line of the sub-band that starts at `first`.
fn subband_last(boxes: &Vec<BoundingBox>, first: usize, w: u32, h: u32, config: &MergeConfig) -> (last:
    usize)
    requires
        all_valid(boxes@),
        first < boxes@.len(),
        subband_start(scene_of(boxes@, w, h, *config), first as int) == first,
    ensures
        is_subband(scene_of(boxes@, w, h, *config), first as int, last as int),
{
    let ghost s = scene_of(boxes@, w, h, *config);
    let n: usize = boxes.len();
    let width: i128 = (w as i128) * 1_000_000;
    let height: i128 = (h as i128) * 1_000_000;
    let tall: bool = height * 1000 > 3000 * width;
    let top: i128 = boxes[first].y as i128;
    let mut last: usize = first;
    while last + 1 < n
        invariant_except_break
            subband_start(s, last as int) == first,
        invariant
            s == scene_of(boxes@, w, h, *config),
            all_valid(boxes@),
            n == boxes@.len(),
            first <= last < n,
            width == s.width,
            tall == exceeds_subband(s.height, s.width),
            top == boxes@[first as int].y,
            forall|x: int| first <= x <= last ==> #[trigger] subband_start(s, x) == first,
        ensures
            last + 1 == n || subband_start(s, last + 1) == last + 1,
        decreases n - last,
    {
        let next: usize = last + 1;
        assert(boxes@[next as int].is_valid());
        assert(boxes@[first as int].is_valid());
        let bottom: i128 = boxes[next].y as i128 + boxes[next].height as i128;
        if tall && (bottom - top) * 1000 > 3000 * width {
            assert(!fits_subband(s, first as int, next as int));
            break;
        }
        assert(subband_start(s, next as int) == first);
        last = next;
    }
    proof {
        assert forall|x: int| 0 <= x < s.boxes.len() implies ((#[trigger] subband_start(s, x))
            == first <==> first <= x <= last) by {
            lemma_subband_start_bounds(s, x, x);
            if x > last {
                lemma_subband_start_bounds(s, last + 1, x);
            }
        }
    }
    last
}

/// Computes the robust size of one orientation in a sub-band.
fn calibrate(
    boxes: &Vec<BoundingBox>,
    first: usize,
    last: usize,
    vertical: bool,
    w: u32,
    h: u32,
    config: &MergeConfig,
) -> (rob: RobustSize)
    requires
        all_valid(boxes@),
        is_subband(scene_of(boxes@, w, h, *config), first as int, last as int),
    ensures
        rob == band_calibration(scene_of(boxes@, w, h, *config), first as int, vertical),
        rob.wf(),
{
    let ghost s = scene_of(boxes@, w, h, *config);
    let n: usize = boxes.len();
    let mut sizes: Vec<i64> = Vec::new();
    let mut x: usize = first;
    proof {
        lemma_band_sizes_before(s, first as int, vertical, first as int);
    }
    while x <= last
        invariant
            s == scene_of(boxes@, w, h, *config),
            last < n == boxes@.len(),
            all_valid(boxes@),
            is_subband(s, first as int, last as int),
            first <= x <= last + 1,
            sizes@ == band_sizes(s, first as int, vertical, x as int),
            forall|k: int| 0 <= k < sizes@.len() ==> 0 <= #[trigger] sizes@[k] <= 0x2000_0000_0000_0000,
        decreases last + 1 - x,
    {
        assert(boxes@[x as int].is_valid());
        assert(subband_start(s, x as int) == first);
        let b: &BoundingBox = &boxes[x];
        if (b.width <= b.height) == vertical {
            let size: i64 = if b.width <= b.height {
                b.width
            } else {
                b.height
            };
            sizes.push(size);
        }
        x = x + 1;
    }
    proof {
        if last + 1 < s.boxes.len() {
            lemma_band_sizes_after(s, first as int, last as int, vertical, s.boxes.len() as int);
        }
    }
    let twice: i128 = median(&sizes);
    if twice > 0 {
        RobustSize { num: twice, den: 2 }
    } else {
        RobustSize { num: 20 * ((w as i128) * 1_000_000), den: 1000 }
    }
}

/// Inside a sub-band whose direct links all join members of one set, every
/// chain stays in the sub-band and in one set.
proof fn lemma_chain_same_set(s: Scene, uf: UnionFind, first: int, last: int, c: Seq<int>, k: int)
    requires
        uf.wf(),
        uf.size() == last - first + 1,
        is_subband(s, first, last),
        forall|p: int, q: int|
            first <= p < q <= last && #[trigger] edge(s, p, q) ==> uf.same_set(p - first, q - first),
        c.len() >= 1,
        first <= c[0] <= last,
        forall|i: int| 0 <= i < c.len() - 1 ==> #[trigger] chain_step(s, c, i),
        0 <= k < c.len(),
    ensures
        first <= c[k] <= last,
        uf.same_set(c[0] - first, c[k] - first),
    decreases k,
{
    if k > 0 {
        lemma_chain_same_set(s, uf, first, last, c, k - 1);
        lemma_chain_keeps_subband(s, c, k);
        lemma_chain_keeps_subband(s, c, k - 1);
        assert(chain_step(s, c, k - 1));
        assert(subband_start(s, c[0]) == first);
        assert(subband_start(s, c[k]) == first);
        if edge(s, c[k - 1], c[k]) {
            assert(uf.same_set(c[k - 1] - first, c[k] - first));
        } else {
            assert(edge(s, c[k], c[k - 1]));
            assert(uf.same_set(c[k] - first, c[k - 1] - first));
        }
    }
}

/// A line outside a sub-band is linked to none inside it.
proof fn lemma_not_linked_across(s: Scene, first: int, last: int, p: int, q: int)
    requires
        is_subband(s, first, last),
        first <= p <= last,
        0 <= q < first || last < q,
    ensures
        !linked(s, p, q),
        !linked(s, q, p),
{
    if linked(s, p, q) {
        let c = choose|c: Seq<int>| is_chain(s, c, p, q);
        lemma_chain_keeps_subband(s, c, c.len() - 1);
        assert(subband_start(s, p) == first);
        assert(c.len() >= 2);
        assert(subband_start(s, q) == first);
    }
    if linked(s, q, p) {
        lemma_linked_sym(s, q, p);
    }
}

/// Joins the lines of one sub-band into the sets of linked lines. Element
/// `a` of the result stands for the line at `first + a`.
fn link_band(
    boxes: &Vec<BoundingBox>,
    first: usize,
    last: usize,
    w: u32,
    h: u32,
    config: &MergeConfig,
) -> (uf: UnionFind)
    requires
        all_valid(boxes@),
        is_subband(scene_of(boxes@, w, h, *config), first as int, last as int),
    ensures
        uf.wf(),
        uf.size() == last - first + 1,
        forall|a: int, b: int|
            0 <= a <= last - first && 0 <= b <= last - first ==> (#[trigger] uf.same_set(a, b)
                <==> linked(scene_of(boxes@, w, h, *config), first + a, first + b)),
{
    let ghost s = scene_of(boxes@, w, h, *config);
    let rob_h: RobustSize = calibrate(boxes, first, last, false, w, h, config);
    let rob_v: RobustSize = calibrate(boxes, first, last, true, w, h, config);
    let n: usize = boxes.len();
    assert(first <= last < n);
    let m: usize = last - first + 1;
    let mut uf: UnionFind = UnionFind::new(m);
    proof {
        assert forall|a: int, b: int| 0 <= a < m && 0 <= b < m && #[trigger] uf.same_set(
            a,
            b,
        ) implies linked(s, first + a, first + b) by {
            lemma_linked_refl(s, first + a);
        }
    }
    let mut i: usize = 0;
    while i < m
        invariant
            s == scene_of(boxes@, w, h, *config),
            all_valid(boxes@),
            is_subband(s, first as int, last as int),
            last < boxes@.len(),
            m == last - first + 1,
            rob_h == band_calibration(s, first as int, false),
            rob_v == band_calibration(s, first as int, true),
            rob_h.wf(),
            rob_v.wf(),
            i <= m,
            uf.wf(),
            uf.size() == m,
            forall|a: int, b: int|
                0 <= a < m && 0 <= b < m && #[trigger] uf.same_set(a, b) ==> linked(
                    s,
                    first + a,
                    first + b,
                ),
            forall|p: int, q: int|
                first <= p < q <= last && p < first + i && #[trigger] edge(s, p, q) ==> uf.same_set(
                    p - first,
                    q - first,
                ),
        decreases m - i,
    {
        let mut j: usize = i + 1;
        while j < m
            invariant
                s == scene_of(boxes@, w, h, *config),
                all_valid(boxes@),
                is_subband(s, first as int, last as int),
                last < boxes@.len(),
                m == last - first + 1,
                rob_h == band_calibration(s, first as int, false),
                rob_v == band_calibration(s, first as int, true),
                rob_h.wf(),
                rob_v.wf(),
                i < m,
                i < j <= m,
                uf.wf(),
                uf.size() == m,
                forall|a: int, b: int|
                    0 <= a < m && 0 <= b < m && #[trigger] uf.same_set(a, b) ==> linked(
                        s,
                        first + a,
                        first + b,
                    ),
                forall|p: int, q: int|
                    first <= p < q <= last && p < first + i && #[trigger] edge(s, p, q)
                        ==> uf.same_set(p - first, q - first),
                forall|q: int|
                    first + i < q < first + j && #[trigger] edge(s, first + i, q) ==> uf.same_set(
                        i as int,
                        q - first,
                    ),
            decreases m - j,
        {
            let p_at: usize = first + i;
            let q_at: usize = first + j;
            assert(boxes@[p_at as int].is_valid());
            assert(boxes@[q_at as int].is_valid());
            assert(subband_start(s, p_at as int) == first);
            assert(subband_start(s, q_at as int) == first);
            let la: &BoundingBox = &boxes[p_at];
            let lb: &BoundingBox = &boxes[q_at];
            let va: bool = la.width <= la.height;
            let vb: bool = lb.width <= lb.height;
            let mut join: bool = false;
            if va == vb {
                if va {
                    join = links(la, lb, &rob_v, config);
                } else {
                    join = links(la, lb, &rob_h, config);
                }
            }
            assert(join == edge(s, p_at as int, q_at as int));
            if join {
                let ghost before = uf;
                uf.union(i, j);
                proof {
                    lemma_linked_adjacent(s, p_at as int, q_at as int);
                    lemma_linked_sym(s, p_at as int, q_at as int);
                    assert forall|a: int, b: int| 0 <= a < m && 0 <= b < m && #[trigger] uf.same_set(
                        a,
                        b,
                    ) implies linked(s, first + a, first + b) by {
                        if before.same_set(a, b) {
                        } else if before.same_set(a, i as int) && before.same_set(b, j as int) {
                            assert(before.same_set(j as int, b));
                            lemma_linked_trans(s, first + a, p_at as int, q_at as int);
                            lemma_linked_trans(s, first + a, q_at as int, first + b);
                        } else {
                            assert(before.same_set(a, j as int) && before.same_set(b, i as int));
                            assert(before.same_set(i as int, b));
                            lemma_linked_trans(s, first + a, q_at as int, p_at as int);
                            lemma_linked_trans(s, first + a, p_at as int, first + b);
                        }
                    }
                    assert forall|p: int, q: int|
                        first <= p < q <= last && p < first + i && #[trigger] edge(
                            s,
                            p,
                            q,
                        ) implies uf.same_set(p - first, q - first) by {
                        assert(before.same_set(p - first, q - first));
                    }
                    assert forall|q: int|
                        first + i < q < first + j + 1 && #[trigger] edge(
                            s,
                            first + i,
                            q,
                        ) implies uf.same_set(i as int, q - first) by {
                        if q < first + j {
                            assert(before.same_set(i as int, q - first));
                        }
                    }
                }
            }
            j = j + 1;
        }
        i = i + 1;
    }
    proof {
        assert forall|a: int, b: int| 0 <= a <= last - first && 0 <= b <= last - first implies (
        #[trigger] uf.same_set(a, b) <==> linked(s, first + a, first + b)) by {
            if linked(s, first + a, first + b) {
                let pa = first + a;
                let pb = first + b;
                let c = choose|c: Seq<int>| is_chain(s, c, pa, pb);
                lemma_chain_same_set(s, uf, first as int, last as int, c, c.len() - 1);
            }
        }
    }
    uf
}

/// Member `i` of group `g`.
pub open spec fn member(groups: Seq<Seq<int>>, g: int, i: int) -> int {
    groups[g][i]
}

/// Position `p` is a member of some group.
pub open spec fn has_member(groups: Seq<Seq<int>>, p: int) -> bool {
    exists|g: int, i: int|
        0 <= g < groups.len() && 0 <= i < groups[g].len() && #[trigger] member(groups, g, i) == p
}

/// `groups` are the reading units of the scene: every line is in exactly
/// one group, two lines share a group exactly when they are linked, the
/// members of a group ascend, and the groups come in the order of their
/// first members.
pub open spec fn is_clustering(groups: Seq<Seq<int>>, s: Scene) -> bool {
    &&& forall|g: int| 0 <= g < groups.len() ==> (#[trigger] groups[g]).len() > 0
    &&& forall|g: int, i: int|
        0 <= g < groups.len() && 0 <= i < groups[g].len() ==> 0 <= #[trigger] member(groups, g, i)
            < s.boxes.len()
    &&& forall|g: int, i: int, j: int|
        0 <= g < groups.len() && 0 <= i < j < groups[g].len() ==> #[trigger] member(groups, g, i)
            < #[trigger] member(groups, g, j)
    &&& forall|g: int, h: int|
        0 <= g < h < groups.len() ==> #[trigger] member(groups, g, 0) < #[trigger] member(
            groups,
            h,
            0,
        )
    &&& forall|p: int| 0 <= p < s.boxes.len() ==> #[trigger] has_member(groups, p)
    &&& forall|g: int, i: int, h: int, j: int|
        0 <= g < groups.len() && 0 <= i < groups[g].len() && 0 <= h < groups.len() && 0 <= j
            < groups[h].len() ==> (g == h <==> linked(
            s,
            #[trigger] member(groups, g, i),
            #[trigger] member(groups, h, j),
        ))
}

/// The groups as sequences of positions.
pub open spec fn positions(groups: Seq<Vec<usize>>) -> Seq<Seq<int>> {
    Seq::new(groups.len(), |g: int| Seq::new(groups[g]@.len(), |i: int| groups[g]@[i] as int))
}

/// `label` numbers the reading units of the first `k` lines in the order in
/// which they first occur; `firsts` holds the first line of each.
pub open spec fn is_labelling(label: Seq<usize>, firsts: Seq<int>, s: Scene, k: int) -> bool {
    &&& label.len() == k
    &&& firsts.len() <= k
    &&& forall|p: int| 0 <= p < k ==> #[trigger] label[p] < firsts.len()
    &&& forall|p: int, q: int|
        #![trigger label[p], label[q]]
        0 <= p < k && 0 <= q < k ==> (label[p] == label[q] <==> linked(s, p, q))
    &&& forall|g: int|
        0 <= g < firsts.len() ==> 0 <= #[trigger] firsts[g] < k && label[firsts[g]] == g
    &&& forall|g: int, p: int|
        #![trigger firsts[g], label[p]]
        0 <= g < firsts.len() && 0 <= p < firsts[g] ==> label[p] != g
    &&& forall|g: int, h: int|
        0 <= g < h < firsts.len() ==> #[trigger] firsts[g] < #[trigger] firsts[h]
}

/// Labels the lines of one sub-band, given the labels of all lines before.
fn label_band(
    boxes: &Vec<BoundingBox>,
    first: usize,
    last: usize,
    w: u32,
    h: u32,
    config: &MergeConfig,
    label: &mut Vec<usize>,
    count: usize,
    Ghost(firsts): Ghost<Seq<int>>,
) -> (res: (usize, Ghost<Seq<int>>))
    requires
        all_valid(boxes@),
        is_subband(scene_of(boxes@, w, h, *config), first as int, last as int),
        is_labelling(old(label)@, firsts, scene_of(boxes@, w, h, *config), first as int),
        count == firsts.len(),
    ensures
        is_labelling(final(label)@, res.1@, scene_of(boxes@, w, h, *config), last + 1),
        res.0 == res.1@.len(),
{
    let ghost s = scene_of(boxes@, w, h, *config);
    let n: usize = boxes.len();
    assert(first <= last < n);
    let m: usize = last - first + 1;
    let mut uf: UnionFind = link_band(boxes, first, last, w, h, config);
    let ghost uf0 = uf;
    let mut slot: Vec<Option<usize>> = Vec::new();
    let mut r0: usize = 0;
    while r0 < m
        invariant
            r0 <= m,
            slot@.len() == r0,
            forall|r: int| 0 <= r < r0 ==> #[trigger] slot@[r] is None,
        decreases m - r0,
    {
        slot.push(None);
        r0 = r0 + 1;
    }
    let ghost mut seen: Seq<int> = Seq::new(m as nat, |r: int| 0int);
    let ghost mut fs: Seq<int> = firsts;
    let mut count: usize = count;
    let mut a: usize = 0;
    proof {
        assert forall|x: int| 0 <= x < m implies 0 <= #[trigger] uf0.root(x) < m by {
            uf0.lemma_root_in_range(x);
        }
    }
    while a < m
        invariant
            s == scene_of(boxes@, w, h, *config),
            is_subband(s, first as int, last as int),
            first <= last < n,
            n == boxes@.len(),
            m == last - first + 1,
            a <= m,
            uf.wf(),
            uf.size() == m,
            uf0.wf(),
            uf0.size() == m,
            forall|x: int| 0 <= x < m ==> uf.root(x) == #[trigger] uf0.root(x),
            forall|x: int| 0 <= x < m ==> 0 <= #[trigger] uf0.root(x) < m,
            forall|x: int, y: int|
                0 <= x < m && 0 <= y < m ==> (#[trigger] uf0.same_set(x, y) <==> linked(
                    s,
                    first + x,
                    first + y,
                )),
            is_labelling(label@, fs, s, first + a),
            count == fs.len(),
            slot@.len() == m,
            seen.len() == m,
            forall|b: int| 0 <= b < a ==> slot@[#[trigger] uf0.root(b)] == Some(label@[first + b]),
            forall|r: int|
                0 <= r < m && (#[trigger] slot@[r]) is Some ==> 0 <= seen[r] < a && uf0.root(seen[r])
                    == r,
        decreases m - a,
    {
        let ghost label0 = label@;
        let ghost slot0 = slot@;
        let ghost k = first + a;
        let r: usize = uf.find(a);
        assert(r == uf0.root(a as int));
        match slot[r] {
            Some(g) => {
                label.push(g);
                proof {
                    let b0 = seen[r as int];
                    let x = first + b0;
                    assert(slot0[uf0.root(b0)] == Some(label0[x]));
                    assert(label0[x] == g);
                    assert(uf0.same_set(a as int, b0));
                    assert(uf0.same_set(b0, a as int));
                    assert(linked(s, k, x));
                    assert(linked(s, x, k));
                    assert(label0[x] < fs.len());
                    assert forall|p: int, q: int|
                        #![trigger label@[p], label@[q]]
                        0 <= p < k + 1 && 0 <= q < k + 1 implies (label@[p] == label@[q] <==> linked(
                        s,
                        p,
                        q,
                    )) by {
                        if p < k && q < k {
                            assert(label0[p] == label0[q] <==> linked(s, p, q));
                        } else if p == k && q == k {
                            lemma_linked_refl(s, k);
                        } else if p == k {
                            assert(label0[x] == label0[q] <==> linked(s, x, q));
                            if linked(s, x, q) {
                                lemma_linked_trans(s, k, x, q);
                            }
                            if linked(s, k, q) {
                                lemma_linked_trans(s, x, k, q);
                            }
                        } else {
                            assert(label0[p] == label0[x] <==> linked(s, p, x));
                            if linked(s, p, x) {
                                lemma_linked_trans(s, p, x, k);
                            }
                            if linked(s, p, k) {
                                lemma_linked_trans(s, p, k, x);
                            }
                        }
                    }
                    assert forall|g2: int|
                        0 <= g2 < fs.len() implies 0 <= #[trigger] fs[g2] < k + 1 && label@[fs[g2]]
                        == g2 by {
                        assert(label0[fs[g2]] == g2);
                    }
                    assert forall|g2: int, p: int|
                        #![trigger fs[g2], label@[p]]
                        0 <= g2 < fs.len() && 0 <= p < fs[g2] implies label@[p] != g2 by {
                        assert(label0[p] != g2);
                    }
                    assert forall|p: int| 0 <= p < k + 1 implies #[trigger] label@[p] < fs.len() by {
                        if p < k {
                            assert(label0[p] < fs.len());
                        }
                    }
                    assert(is_labelling(label@, fs, s, k + 1));
                    assert forall|b: int| 0 <= b < a + 1 implies slot@[#[trigger] uf0.root(b)]
                        == Some(label@[first + b]) by {
                        if b < a {
                            assert(slot0[uf0.root(b)] == Some(label0[first + b]));
                        }
                    }
                }
            },
            None => {
                label.push(count);
                slot.set(r, Some(count));
                proof {
                    let fs0 = fs;
                    seen = seen.update(r as int, a as int);
                    fs = fs.push(k);
                    assert forall|b: int| 0 <= b < a implies uf0.root(b) != r by {
                        assert(slot0[uf0.root(b)] == Some(label0[first + b]));
                    }
                    assert forall|q: int| 0 <= q < k implies !linked(s, k, q) && !linked(s, q, k) by {
                        if q < first {
                            lemma_not_linked_across(s, first as int, last as int, k, q);
                        } else {
                            let b = q - first;
                            assert(uf0.root(b) != r);
                            assert(!uf0.same_set(a as int, b));
                            assert(!uf0.same_set(b, a as int));
                        }
                    }
                    assert forall|p: int| 0 <= p < k + 1 implies #[trigger] label@[p] < fs.len() by {
                        if p < k {
                            assert(label0[p] < fs0.len());
                        }
                    }
                    assert forall|p: int, q: int|
                        #![trigger label@[p], label@[q]]
                        0 <= p < k + 1 && 0 <= q < k + 1 implies (label@[p] == label@[q] <==> linked(
                        s,
                        p,
                        q,
                    )) by {
                        if p < k && q < k {
                            assert(label0[p] == label0[q] <==> linked(s, p, q));
                        } else if p == k && q == k {
                            lemma_linked_refl(s, k);
                        } else if p == k {
                            assert(label0[q] < fs0.len());
                        } else {
                            assert(label0[p] < fs0.len());
                        }
                    }
                    assert forall|g2: int|
                        0 <= g2 < fs.len() implies 0 <= #[trigger] fs[g2] < k + 1 && label@[fs[g2]]
                        == g2 by {
                        if g2 < fs0.len() {
                            assert(0 <= fs0[g2] < k);
                            assert(label0[fs0[g2]] == g2);
                        }
                    }
                    assert forall|g2: int, p: int|
                        #![trigger fs[g2], label@[p]]
                        0 <= g2 < fs.len() && 0 <= p < fs[g2] implies label@[p] != g2 by {
                        if g2 < fs0.len() {
                            assert(0 <= fs0[g2] < k);
                            assert(label0[p] != g2);
                        } else {
                            assert(label0[p] < fs0.len());
                        }
                    }
                    assert forall|g2: int, h2: int| 0 <= g2 < h2 < fs.len() implies #[trigger] fs[g2]
                        < #[trigger] fs[h2] by {
                        assert(0 <= fs0[g2] < k);
                        if h2 < fs0.len() {
                            assert(fs0[g2] < fs0[h2]);
                        }
                    }
                    assert(is_labelling(label@, fs, s, k + 1));
                    assert forall|b: int| 0 <= b < a + 1 implies slot@[#[trigger] uf0.root(b)]
                        == Some(label@[first + b]) by {
                        if b < a {
                            assert(slot0[uf0.root(b)] == Some(label0[first + b]));
                            assert(uf0.root(b) != r);
                        }
                    }
                    assert forall|r2: int|
                        0 <= r2 < m && (#[trigger] slot@[r2]) is Some implies 0 <= seen[r2] < a + 1
                        && uf0.root(seen[r2]) == r2 by {
                        if r2 != r {
                            assert(slot0[r2] is Some);
                        }
                    }
                }
                count = count + 1;
            },
        }
        a = a + 1;
    }
    (count, Ghost(fs))
}

/// Gathers the lines of each label, in ascending order of position.
fn collect_groups(
    label: &Vec<usize>,
    count: usize,
    Ghost(firsts): Ghost<Seq<int>>,
    Ghost(s): Ghost<Scene>,
) -> (groups: Vec<Vec<usize>>)
    requires
        is_labelling(label@, firsts, s, label@.len() as int),
        s.boxes.len() == label@.len(),
        count == firsts.len(),
    ensures
        is_clustering(positions(groups@), s),
{
    let n: usize = label.len();
    let mut groups: Vec<Vec<usize>> = Vec::new();
    let mut g: usize = 0;
    while g < count
        invariant
            n == label@.len(),
            is_labelling(label@, firsts, s, n as int),
            count == firsts.len(),
            g <= count,
            groups@.len() == g,
            forall|h: int, i: int|
                0 <= h < g && 0 <= i < groups@[h]@.len() ==> (#[trigger] groups@[h]@[i]) < n
                    && label@[groups@[h]@[i] as int] == h,
            forall|h: int, i: int, j: int|
                0 <= h < g && 0 <= i < j < groups@[h]@.len() ==> (#[trigger] groups@[h]@[i])
                    < #[trigger] groups@[h]@[j],
            forall|h: int, q: int|
                0 <= h < g && 0 <= q < n && #[trigger] label@[q] == h ==> #[trigger] placed(
                    groups@[h]@,
                    q,
                ),
        decreases count - g,
    {
        let mut members: Vec<usize> = Vec::new();
        let mut p: usize = 0;
        while p < n
            invariant
                n == label@.len(),
                p <= n,
                forall|i: int|
                    0 <= i < members@.len() ==> (#[trigger] members@[i]) < p && label@[members@[i] as int]
                        == g,
                forall|i: int, j: int|
                    0 <= i < j < members@.len() ==> (#[trigger] members@[i]) < #[trigger] members@[j],
                forall|q: int| 0 <= q < p && #[trigger] label@[q] == g ==> placed(members@, q),
            decreases n - p,
        {
            if label[p] == g {
                let ghost before = members@;
                members.push(p);
                proof {
                    assert forall|q: int| 0 <= q < p + 1 && #[trigger] label@[q] == g implies placed(
                        members@,
                        q,
                    ) by {
                        if q < p {
                            assert(placed(before, q));
                            let i = choose|i: int| 0 <= i < before.len() && before[i] == q;
                            assert(members@[i] == q);
                        } else {
                            assert(members@[before.len() as int] == q);
                        }
                    }
                }
            }
            p = p + 1;
        }
        let ghost prior = groups@;
        groups.push(members);
        proof {
            assert forall|h: int, i: int| 0 <= h < g + 1 && 0 <= i < groups@[h]@.len() implies (
            #[trigger] groups@[h]@[i]) < n && label@[groups@[h]@[i] as int] == h by {
                if h < g {
                    assert(groups@[h] == prior[h]);
                }
            }
            assert forall|h: int, i: int, j: int|
                0 <= h < g + 1 && 0 <= i < j < groups@[h]@.len() implies (#[trigger] groups@[h]@[i])
                < #[trigger] groups@[h]@[j] by {
                if h < g {
                    assert(groups@[h] == prior[h]);
                }
            }
            assert forall|h: int, q: int|
                0 <= h < g + 1 && 0 <= q < n && #[trigger] label@[q] == h implies #[trigger] placed(
                groups@[h]@,
                q,
            ) by {
                if h < g {
                    assert(groups@[h] == prior[h]);
                    assert(placed(prior[h]@, q));
                }
            }
        }
        g = g + 1;
    }
    proof {
        let gs = positions(groups@);
        assert forall|h: int| 0 <= h < gs.len() implies (#[trigger] gs[h]).len() > 0 && member(
            gs,
            h,
            0,
        ) == firsts[h] by {
            let f = firsts[h];
            assert(label@[f] == h);
            assert(placed(groups@[h]@, f));
            let i = choose|i: int| 0 <= i < groups@[h]@.len() && groups@[h]@[i] == f;
            let lead = groups@[h]@[0];
            assert(label@[lead as int] == h);
            if lead < f {
                assert(label@[lead as int] != h);
            }
            if i > 0 {
                assert(groups@[h]@[0] < groups@[h]@[i]);
            }
            assert(gs[h][0] == lead);
        }
        assert forall|h: int, i: int| 0 <= h < gs.len() && 0 <= i < gs[h].len() implies 0
            <= #[trigger] member(gs, h, i) < s.boxes.len() && label@[member(gs, h, i)] == h by {
            assert(groups@[h]@[i] < n);
        }
        assert forall|h: int, i: int, j: int|
            0 <= h < gs.len() && 0 <= i < j < gs[h].len() implies #[trigger] member(gs, h, i)
            < #[trigger] member(gs, h, j) by {
            assert(groups@[h]@[i] < groups@[h]@[j]);
        }
        assert forall|h: int, h2: int| 0 <= h < h2 < gs.len() implies #[trigger] member(gs, h, 0)
            < #[trigger] member(gs, h2, 0) by {
            assert(gs[h].len() > 0);
            assert(gs[h2].len() > 0);
            assert(firsts[h] < firsts[h2]);
        }
        assert forall|p: int| 0 <= p < s.boxes.len() implies #[trigger] has_member(gs, p) by {
            let h = label@[p] as int;
            assert(h < firsts.len());
            assert(placed(groups@[h]@, p));
            let i = choose|i: int| 0 <= i < groups@[h]@.len() && groups@[h]@[i] == p;
            assert(member(gs, h, i) == p);
        }
        assert forall|h: int, i: int, h2: int, j: int|
            0 <= h < gs.len() && 0 <= i < gs[h].len() && 0 <= h2 < gs.len() && 0 <= j
                < gs[h2].len() implies (h == h2 <==> linked(
            s,
            #[trigger] member(gs, h, i),
            #[trigger] member(gs, h2, j),
        )) by {
            let p = member(gs, h, i);
            let q = member(gs, h2, j);
            assert(label@[p] == h);
            assert(label@[q] == h2);
            assert(label@[p] == label@[q] <==> linked(s, p, q));
        }
    }
    groups
}

/// Clusters the lines of a band into reading units. `boxes` holds the lines
/// top line first; each group lists positions in `boxes`.
pub fn cluster(boxes: &Vec<BoundingBox>, w: u32, h: u32, config: &MergeConfig) -> (groups: Vec<
    Vec<usize>,
>)
    requires
        all_valid(boxes@),
    ensures
        is_clustering(positions(groups@), scene_of(boxes@, w, h, *config)),
{
    let ghost s = scene_of(boxes@, w, h, *config);
    let n: usize = boxes.len();
    let mut label: Vec<usize> = Vec::new();
    let mut count: usize = 0;
    let ghost mut fs: Seq<int> = Seq::empty();
    let mut first: usize = 0;
    while first < n
        invariant
            s == scene_of(boxes@, w, h, *config),
            all_valid(boxes@),
            n == boxes@.len(),
            first <= n,
            is_labelling(label@, fs, s, first as int),
            count == fs.len(),
            first < n ==> subband_start(s, first as int) == first,
        decreases n - first,
    {
        let last: usize = subband_last(boxes, first, w, h, config);
        let res = label_band(boxes, first, last, w, h, config, &mut label, count, Ghost(fs));
        count = res.0;
        proof {
            fs = res.1@;
            if last + 1 < n {
                assert(subband_start(s, last as int) == first);
                assert(subband_start(s, last + 1) != first);
            }
        }
        first = last + 1;
    }
    collect_groups(&label, count, Ghost(fs), Ghost(s))
}

/// In a band of two lines the two are linked exactly when they are linked
/// directly.
pub proof fn lemma_pair_linked(s: Scene)
    requires
        s.boxes.len() == 2,
    ensures
        linked(s, 0, 1) <==> edge(s, 0, 1),
{
    if edge(s, 0, 1) {
        lemma_linked_adjacent(s, 0, 1);
    }
    if linked(s, 0, 1) {
        let c = choose|c: Seq<int>| is_chain(s, c, 0, 1);
        assert(c.len() >= 2);
        assert(chain_step(s, c, 0));
    }
}

/// Two lines of one orientation in a band that is one sub-band are
/// calibrated on the mean of their sizes, where that is positive.
pub proof fn lemma_pair_calibration(s: Scene)
    requires
        s.boxes.len() == 2,
        !exceeds_subband(s.height, s.width),
        is_vertical_box(s.boxes[0]) == is_vertical_box(s.boxes[1]),
        thickness(s.boxes[0]) + thickness(s.boxes[1]) > 0,
    ensures
        subband_start(s, 0) == 0,
        subband_start(s, 1) == 0,
        band_calibration(s, 0, is_vertical_box(s.boxes[0])) == (RobustSize {
            num: (thickness(s.boxes[0]) + thickness(s.boxes[1])) as i128,
            den: 2,
        }),
{
    let vertical = is_vertical_box(s.boxes[0]);
    assert(subband_start(s, 0) == 0);
    assert(subband_start(s, 1) == 0);
    assert(band_sizes(s, 0, vertical, 0) =~= Seq::<i64>::empty());
    assert(band_sizes(s, 0, vertical, 1) =~= seq![thickness(s.boxes[0])]);
    let sizes = band_sizes(s, 0, vertical, 2);
    assert(sizes =~= seq![thickness(s.boxes[0]), thickness(s.boxes[1])]);
    lemma_median_of_two(sizes);
}

/// A clustering of two lines has one group where the lines are linked, and
/// two where they are not.
pub proof fn lemma_pair_clustering(groups: Seq<Seq<int>>, s: Scene)
    requires
        s.boxes.len() == 2,
        is_clustering(groups, s),
    ensures
        linked(s, 0, 1) ==> groups.len() == 1 && groups[0] == seq![0int, 1int],
        !linked(s, 0, 1) ==> groups.len() == 2 && groups[0] == seq![0int] && groups[1] == seq![
            1int,
        ],
{
    lemma_linked_refl(s, 0);
    lemma_linked_refl(s, 1);
    assert(has_member(groups, 0));
    assert(has_member(groups, 1));
    let (g0, i0) = choose|g: int, i: int|
        0 <= g < groups.len() && 0 <= i < groups[g].len() && #[trigger] member(groups, g, i) == 0;
    let (g1, i1) = choose|g: int, i: int|
        0 <= g < groups.len() && 0 <= i < groups[g].len() && #[trigger] member(groups, g, i) == 1;
    // Every group holds one of the two lines, so it is the group of one.
    assert forall|g: int| 0 <= g < groups.len() implies (#[trigger] groups[g]).len() > 0 && (g
        == g0 || g == g1) by {
        assert(groups[g].len() > 0);
        let p = member(groups, g, 0);
        assert(0 <= p < 2);
        if p == 0 {
            assert(g == g0 <==> linked(s, member(groups, g, 0), member(groups, g0, i0)));
        } else {
            assert(g == g1 <==> linked(s, member(groups, g, 0), member(groups, g1, i1)));
        }
    }
    // A group lists each line once, in ascending order.
    assert forall|g: int, i: int| 0 <= g < groups.len() && 0 <= i < groups[g].len() implies i
        <= #[trigger] member(groups, g, i) by {
        if i > 0 {
            assert(member(groups, g, 0) < member(groups, g, i));
            assert(0 <= member(groups, g, 0));
        }
        if i > 1 {
            assert(member(groups, g, 1) < member(groups, g, i));
            assert(member(groups, g, 0) < member(groups, g, 1));
        }
    }
    assert(g0 == g1 <==> linked(s, member(groups, g0, i0), member(groups, g1, i1)));
    if linked(s, 0, 1) {
        assert(g0 == g1);
        assert(groups.len() == 1) by {
            if groups.len() > 1 {
                assert(groups[0].len() > 0);
                assert(groups[1].len() > 0);
            }
        }
        assert(i0 <= 0 && i1 <= 1);
        assert(i0 == 0);
        assert(i1 == 1) by {
            assert(i1 != i0);
        }
        assert(groups[0].len() == 2) by {
            if groups[0].len() > 2 {
                assert(2 <= member(groups, 0, 2));
                assert(member(groups, 0, 2) < 2);
            }
        }
        assert(groups[0] =~= seq![0int, 1int]);
    } else {
        assert(g0 != g1);
        assert(groups.len() == 2) by {
            if groups.len() > 2 {
                assert(groups[0].len() > 0);
                assert(groups[1].len() > 0);
                assert(groups[2].len() > 0);
            }
        }
        assert(member(groups, 0, 0) < member(groups, 1, 0));
        assert(0 <= member(groups, 0, 0));
        assert(member(groups, 1, 0) < 2);
        assert(member(groups, 0, 0) == 0 && member(groups, 1, 0) == 1);
        assert(groups[0].len() == 1) by {
            if groups[0].len() > 1 {
                assert(1 <= member(groups, 0, 1) < 2);
                assert(0 == 1 <==> linked(s, member(groups, 0, 1), member(groups, 1, 0)));
            }
        }
        assert(groups[1].len() == 1) by {
            if groups[1].len() > 1 {
                assert(member(groups, 1, 0) < member(groups, 1, 1));
                assert(member(groups, 1, 1) < 2);
            }
        }
        assert(groups[0] =~= seq![0int]);
        assert(groups[1] =~= seq![1int]);
    }
}

} // verus!
