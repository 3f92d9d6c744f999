use vstd::prelude::*;
use crate::display::{FrameBuffer, FrameBufferView, lemma_frame_buffer_view, pixel_offset};
use crate::raster::{
    Rgb, encode, encoded, clear, paint, on_screen, addressable, visit_fits, same_shape,
    lemma_paint_pixel, lemma_paint_same, put_pixel, lemma_offset_bounds, lemma_paint_nothing,
    lemma_paint_shape, covers, lemma_paint_overwrites, lemma_paint_keeps, layout_ok,
    lemma_paint_layout,
};

verus! {

broadcast use lemma_frame_buffer_view, vstd::array::group_array_axioms;

/// Background color.
pub const BG: Rgb = (248, 249, 252);

pub const O_C1: Rgb = (200, 20, 10);
pub const O_C2: Rgb = (255, 140, 0);
pub const O_C3: Rgb = (255, 210, 10);
pub const O_C4: Rgb = (100, 240, 40);
pub const O_C5: Rgb = (10, 200, 245);
pub const O_C6: Rgb = (60, 30, 240);
pub const O_C7: Rgb = (240, 80, 220);
pub const S_C1: Rgb = (240, 80, 220);
pub const S_C2: Rgb = (10, 200, 245);
pub const S_C3: Rgb = (60, 30, 240);
pub const S_C4: Rgb = (255, 210, 10);
pub const S_C5: Rgb = (200, 20, 10);
pub const S_C6: Rgb = (255, 140, 0);
pub const S_C7: Rgb = (100, 240, 40);

/// A point in pixel coordinates.
#[derive(Clone, Copy)]
pub struct Pt {
    pub x: i32,
    pub y: i32,
}

/// A tangram piece: a triangle or a quadrilateral, corners in order.
pub enum Shape {
    Tri([Pt; 3]),
    Quad([Pt; 4]),
}

impl Shape {
    /// The corners of the piece.
    pub open spec fn corners(self) -> Seq<Pt> {
        match self {
            Shape::Tri(v) => v@,
            Shape::Quad(v) => v@,
        }
    }
}

/// The point `(x, y)` of a figure drawn in units of `u` pixels from `(ox, oy)`.
pub open spec fn pt(x: int, y: int, ox: int, oy: int, u: int) -> Pt {
    Pt { x: (ox + x * u) as i32, y: (oy + y * u) as i32 }
}

/// Computing `pt(x, y, ox, oy, u)` stays within `i32`.
pub open spec fn pt_fits(x: int, y: int, ox: int, oy: int, u: int) -> bool {
    &&& i32::MIN <= x * u <= i32::MAX
    &&& i32::MIN <= ox + x * u <= i32::MAX
    &&& i32::MIN <= y * u <= i32::MAX
    &&& i32::MIN <= oy + y * u <= i32::MAX
}

/// Maps figure coordinates to pixel coordinates.
pub fn p(x: i32, y: i32, ox: i32, oy: i32, u: i32) -> (r: Pt)
    requires
        pt_fits(x as int, y as int, ox as int, oy as int, u as int),
    ensures
        r == pt(x as int, y as int, ox as int, oy as int, u as int),
{
    Pt { x: ox + x * u, y: oy + y * u }
}

/// The cross product of edge `i` of the polygon with the vector from the
/// edge's start to `(px, py)`; its sign says on which side of the edge the
/// point lies.
pub open spec fn edge_cross(pts: Seq<Pt>, i: int, px: int, py: int) -> int {
    let a = pts[i];
    let b = pts[(i + 1) % pts.len() as int];
    (b.x - a.x) * (py - a.y) - (b.y - a.y) * (px - a.x)
}

/// Every step of computing `edge_cross(pts, i, px, py)` in `i32` stays in range.
pub open spec fn cross_fits(pts: Seq<Pt>, i: int, px: int, py: int) -> bool {
    let a = pts[i];
    let b = pts[(i + 1) % pts.len() as int];
    &&& i32::MIN <= b.x - a.x <= i32::MAX
    &&& i32::MIN <= py - a.y <= i32::MAX
    &&& i32::MIN <= (b.x - a.x) * (py - a.y) <= i32::MAX
    &&& i32::MIN <= b.y - a.y <= i32::MAX
    &&& i32::MIN <= px - a.x <= i32::MAX
    &&& i32::MIN <= (b.y - a.y) * (px - a.x) <= i32::MAX
    &&& i32::MIN <= edge_cross(pts, i, px, py) <= i32::MAX
}

/// `(px, py)` is on the same side of every edge of the polygon, or on an
/// edge: no edge has it strictly left while another has it strictly right.
pub open spec fn inside_poly(pts: Seq<Pt>, px: int, py: int) -> bool {
    forall|i: int, j: int|
        0 <= i < pts.len() && 0 <= j < pts.len() ==> !(#[trigger] edge_cross(pts, i, px, py) > 0 && #[trigger] edge_cross(
            pts,
            j,
            px,
            py,
        ) < 0)
}

/// Among the first `i` edges, one has `(px, py)` strictly on its left and
/// another strictly on its right, so the inside test has already answered.
pub open spec fn mixed_before(pts: Seq<Pt>, i: int, px: int, py: int) -> bool {
    exists|k: int, j: int|
        0 <= k < i && 0 <= j < i && #[trigger] edge_cross(pts, k, px, py) > 0 && #[trigger] edge_cross(
            pts,
            j,
            px,
            py,
        ) < 0
}

/// Every cross product the inside test computes for `(px, py)` fits in
/// `i32`: that of each edge the test reaches before it has answered.
pub open spec fn crosses_fit(pts: Seq<Pt>, px: int, py: int) -> bool {
    forall|i: int|
        0 <= i < pts.len() && !mixed_before(pts, i, px, py) ==> #[trigger] cross_fits(pts, i, px, py)
}

/// The corners of `pts` listed from corner `k` on, wrapping around.
pub open spec fn rotated(pts: Seq<Pt>, k: int) -> Seq<Pt> {
    Seq::new(pts.len(), |i: int| pts[(i + k) % pts.len() as int])
}

/// The corners of `pts` listed in the opposite direction.
pub open spec fn reversed(pts: Seq<Pt>) -> Seq<Pt> {
    Seq::new(pts.len(), |i: int| pts[pts.len() - 1 - i])
}

/// Starting the corner list at another corner does not change which points
/// are inside.
pub proof fn lemma_inside_rotated(pts: Seq<Pt>, k: int, px: int, py: int)
    requires
        0 <= k < pts.len(),
    ensures
        inside_poly(rotated(pts, k), px, py) == inside_poly(pts, px, py),
{
    let n = pts.len() as int;
    let r = rotated(pts, k);
    assert forall|i: int| 0 <= i < n implies #[trigger] edge_cross(r, i, px, py) == edge_cross(
        pts,
        (i + k) % n,
        px,
        py,
    ) by {
        vstd::arithmetic::div_mod::lemma_mod_bound(i + 1, n);
        vstd::arithmetic::div_mod::lemma_mod_bound(i + k, n);
        vstd::arithmetic::div_mod::lemma_add_mod_noop(i + 1, k, n);
        vstd::arithmetic::div_mod::lemma_add_mod_noop(i + k, 1, n);
        vstd::arithmetic::div_mod::lemma_small_mod(k as nat, n as nat);
        if n > 1 {
            vstd::arithmetic::div_mod::lemma_small_mod(1, n as nat);
        }
        assert(r[(i + 1) % n] == pts[((i + 1) % n + k) % n]);
    }
    if !inside_poly(pts, px, py) {
        let (a, b) = choose|a: int, b: int|
            0 <= a < n && 0 <= b < n && #[trigger] edge_cross(pts, a, px, py) > 0 && #[trigger] edge_cross(
                pts,
                b,
                px,
                py,
            ) < 0;
        let ia = lemma_rotated_index(n, k, a);
        let ib = lemma_rotated_index(n, k, b);
        assert(edge_cross(r, ia, px, py) > 0 && edge_cross(r, ib, px, py) < 0);
    }
    if !inside_poly(r, px, py) {
        let (a, b) = choose|a: int, b: int|
            0 <= a < n && 0 <= b < n && #[trigger] edge_cross(r, a, px, py) > 0 && #[trigger] edge_cross(
                r,
                b,
                px,
                py,
            ) < 0;
        vstd::arithmetic::div_mod::lemma_mod_bound(a + k, n);
        vstd::arithmetic::div_mod::lemma_mod_bound(b + k, n);
        assert(edge_cross(pts, (a + k) % n, px, py) > 0 && edge_cross(pts, (b + k) % n, px, py) < 0);
    }
}

/// The index of the rotated list that names corner `j`.
proof fn lemma_rotated_index(n: int, k: int, j: int) -> (i: int)
    requires
        0 <= k < n,
        0 <= j < n,
    ensures
        0 <= i < n,
        (i + k) % n == j,
{
    let i = if j >= k { j - k } else { j - k + n };
    vstd::arithmetic::div_mod::lemma_small_mod(j as nat, n as nat);
    vstd::arithmetic::div_mod::lemma_mod_add_multiples_vanish(j, n);
    i
}

/// The edge from `b` to `a` sees every point on the other side than the
/// edge from `a` to `b`.
proof fn lemma_cross_flip(a: Pt, b: Pt, px: int, py: int)
    ensures
        (a.x - b.x) * (py - b.y) - (a.y - b.y) * (px - b.x) == -((b.x - a.x) * (py - a.y) - (b.y - a.y)
            * (px - a.x)),
{
    assert((a.x - b.x) * (py - b.y) - (a.y - b.y) * (px - b.x) == -((b.x - a.x) * (py - a.y) - (b.y
        - a.y) * (px - a.x))) by (nonlinear_arith);
}

/// Listing the corners in the opposite direction does not change which
/// points are inside.
pub proof fn lemma_inside_reversed(pts: Seq<Pt>, px: int, py: int)
    requires
        pts.len() > 0,
    ensures
        inside_poly(reversed(pts), px, py) == inside_poly(pts, px, py),
{
    let n = pts.len() as int;
    let r = reversed(pts);
    // Edge `i` of `r` is edge `mirror(i)` of `pts` walked backwards.
    assert forall|i: int| 0 <= i < n implies #[trigger] edge_cross(r, i, px, py) == -edge_cross(
        pts,
        if i < n - 1 { n - 2 - i } else { n - 1 },
        px,
        py,
    ) by {
        let m = if i < n - 1 { n - 2 - i } else { n - 1 };
        if i < n - 1 {
            vstd::arithmetic::div_mod::lemma_small_mod((i + 1) as nat, n as nat);
            vstd::arithmetic::div_mod::lemma_small_mod((m + 1) as nat, n as nat);
            assert(r[(i + 1) % n] == pts[m]);
            assert(pts[(m + 1) % n] == pts[n - 1 - i]);
        } else {
            vstd::arithmetic::div_mod::lemma_mod_self_0(n);
            assert((i + 1) % n == 0);
            assert(r[0] == pts[n - 1]);
            assert(((n - 1) + 1) % n == 0);
            assert(r[i] == pts[0]);
        }
        lemma_cross_flip(pts[m], pts[(m + 1) % n], px, py);
    }
    if !inside_poly(pts, px, py) {
        let (a, b) = choose|a: int, b: int|
            0 <= a < n && 0 <= b < n && #[trigger] edge_cross(pts, a, px, py) > 0 && #[trigger] edge_cross(
                pts,
                b,
                px,
                py,
            ) < 0;
        let ia = if a < n - 1 { n - 2 - a } else { n - 1 };
        let ib = if b < n - 1 { n - 2 - b } else { n - 1 };
        assert(edge_cross(r, ib, px, py) > 0 && edge_cross(r, ia, px, py) < 0);
    }
    if !inside_poly(r, px, py) {
        let (a, b) = choose|a: int, b: int|
            0 <= a < n && 0 <= b < n && #[trigger] edge_cross(r, a, px, py) > 0 && #[trigger] edge_cross(
                r,
                b,
                px,
                py,
            ) < 0;
        let ma = if a < n - 1 { n - 2 - a } else { n - 1 };
        let mb = if b < n - 1 { n - 2 - b } else { n - 1 };
        assert(edge_cross(pts, mb, px, py) > 0 && edge_cross(pts, ma, px, py) < 0);
    }
}

/// Whether `(px, py)` lies inside the convex polygon of the first `n` points
/// of `pts` or on its boundary.
pub fn inside(px: i32, py: i32, pts: &[Pt; 4], n: usize) -> (r: bool)
    requires
        n <= 4,
        crosses_fit(pts@.take(n as int), px as int, py as int),
    ensures
        r == inside_poly(pts@.take(n as int), px as int, py as int),
{
    let ghost poly = pts@.take(n as int);
    let mut sign = 0i32;
    let mut i: usize = 0;
    while i < n
        invariant
            i <= n <= 4,
            poly == pts@.take(n as int),
            crosses_fit(poly, px as int, py as int),
            sign == 0 ==> forall|k: int| 0 <= k < i ==> edge_cross(poly, k, px as int, py as int) == 0,
            sign == 1 ==> forall|k: int| 0 <= k < i ==> edge_cross(poly, k, px as int, py as int) >= 0,
            sign == -1 ==> forall|k: int| 0 <= k < i ==> edge_cross(poly, k, px as int, py as int) <= 0,
            sign == 1 ==> exists|k: int| 0 <= k < i && edge_cross(poly, k, px as int, py as int) > 0,
            sign == -1 ==> exists|k: int| 0 <= k < i && edge_cross(poly, k, px as int, py as int) < 0,
            sign == 0 || sign == 1 || sign == -1,
        decreases n - i,
    {
        let a = pts[i];
        let b = pts[(i + 1) % n];
        proof {
            assert(poly[i as int] == a);
            assert(poly[(i as int + 1) % (n as int)] == b);
            assert(!mixed_before(poly, i as int, px as int, py as int)) by {
                if mixed_before(poly, i as int, px as int, py as int) {
                    let (k, j) = choose|k: int, j: int|
                        0 <= k < i && 0 <= j < i && #[trigger] edge_cross(poly, k, px as int, py as int) > 0
                            && #[trigger] edge_cross(poly, j, px as int, py as int) < 0;
                    assert(edge_cross(poly, k, px as int, py as int) > 0);
                    assert(edge_cross(poly, j, px as int, py as int) < 0);
                }
            }
            assert(cross_fits(poly, i as int, px as int, py as int));
        }
        let cross = (b.x - a.x) * (py - a.y) - (b.y - a.y) * (px - a.x);
        assert(cross == edge_cross(poly, i as int, px as int, py as int));
        let s = if cross > 0 {
            1
        } else if cross < 0 {
            -1
        } else {
            0
        };
        if s == 0 {
            i += 1;
            continue;
        }
        if sign == 0 {
            sign = s;
        } else if sign != s {
            proof {
                let k = choose|k: int| 0 <= k < i && (if sign == 1 {
                    edge_cross(poly, k, px as int, py as int) > 0
                } else {
                    edge_cross(poly, k, px as int, py as int) < 0
                });
                if sign == 1 {
                    assert(edge_cross(poly, k, px as int, py as int) > 0 && edge_cross(
                        poly,
                        i as int,
                        px as int,
                        py as int,
                    ) < 0);
                } else {
                    assert(edge_cross(poly, i as int, px as int, py as int) > 0 && edge_cross(
                        poly,
                        k,
                        px as int,
                        py as int,
                    ) < 0);
                }
            }
            return false;
        }
        i += 1;
    }
    proof {
        assert forall|k: int, j: int|
            0 <= k < poly.len() && 0 <= j < poly.len() implies !(#[trigger] edge_cross(
            poly,
            k,
            px as int,
            py as int,
        ) > 0 && #[trigger] edge_cross(poly, j, px as int, py as int) < 0) by {}
    }
    true
}

/// The smallest x (or y, when `vertical`) among the first `k` points, or the
/// largest `i32` when `k` is zero.
pub open spec fn min_upto(pts: Seq<Pt>, k: int, vertical: bool) -> int
    decreases k,
{
    if k <= 0 {
        i32::MAX as int
    } else {
        let m = min_upto(pts, k - 1, vertical);
        let c = if vertical {
            pts[k - 1].y as int
        } else {
            pts[k - 1].x as int
        };
        if c < m {
            c
        } else {
            m
        }
    }
}

/// The largest x (or y, when `vertical`) among the first `k` points, or the
/// smallest `i32` when `k` is zero.
pub open spec fn max_upto(pts: Seq<Pt>, k: int, vertical: bool) -> int
    decreases k,
{
    if k <= 0 {
        i32::MIN as int
    } else {
        let m = max_upto(pts, k - 1, vertical);
        let c = if vertical {
            pts[k - 1].y as int
        } else {
            pts[k - 1].x as int
        };
        if c > m {
            c
        } else {
            m
        }
    }
}

/// The first pixel index of a box edge at coordinate `m`: negative
/// coordinates start at 0.
pub open spec fn low_edge(m: int) -> int {
    if m <= 0 {
        0
    } else {
        m
    }
}

/// The last pixel index of a box edge at coordinate `m`, one past it, cut to
/// the last pixel of a side of length `limit`.
pub open spec fn high_edge(m: i32, limit: usize) -> int {
    let e = if (m as usize) as int + 1 > usize::MAX {
        usize::MAX as int
    } else {
        (m as usize) as int + 1
    };
    let l = if limit == 0 {
        0
    } else {
        limit - 1
    };
    if e < l {
        e
    } else {
        l
    }
}

/// The pixel box `(min_x, max_x, min_y, max_y)` around the first `n` points,
/// inclusive, grown by one pixel to the right and bottom and cut to a `w` x
/// `h` framebuffer.
pub open spec fn box_of(pts: Seq<Pt>, n: int, w: usize, h: usize) -> (int, int, int, int) {
    (
        low_edge(min_upto(pts, n, false)),
        high_edge(max_upto(pts, n, false) as i32, w),
        low_edge(min_upto(pts, n, true)),
        high_edge(max_upto(pts, n, true) as i32, h),
    )
}

/// Returns the pixel box around the first `n` of the points (see `box_of`).
pub fn bounds(v: &[Pt; 4], n: usize, w: usize, h: usize) -> (r: (usize, usize, usize, usize))
    ensures
        r.0 == box_of(v@, if n < 4 { n as int } else { 4 }, w, h).0,
        r.1 == box_of(v@, if n < 4 { n as int } else { 4 }, w, h).1,
        r.2 == box_of(v@, if n < 4 { n as int } else { 4 }, w, h).2,
        r.3 == box_of(v@, if n < 4 { n as int } else { 4 }, w, h).3,
{
    let mut min_x = i32::MAX;
    let mut min_y = i32::MAX;
    let mut max_x = i32::MIN;
    let mut max_y = i32::MIN;
    let mut i: usize = 0;
    while i < n && i < 4
        invariant
            i <= 4,
            i <= n,
            min_x == min_upto(v@, i as int, false),
            min_y == min_upto(v@, i as int, true),
            max_x == max_upto(v@, i as int, false),
            max_y == max_upto(v@, i as int, true),
        decreases 4 - i,
    {
        let p = v[i];
        if p.x < min_x {
            min_x = p.x;
        }
        if p.y < min_y {
            min_y = p.y;
        }
        if p.x > max_x {
            max_x = p.x;
        }
        if p.y > max_y {
            max_y = p.y;
        }
        i += 1;
    }
    let min_x = if min_x <= 0 {
        0
    } else {
        min_x as usize
    };
    let min_y = if min_y <= 0 {
        0
    } else {
        min_y as usize
    };
    let ex = (max_x as usize).saturating_add(1);
    let lx = w.saturating_sub(1);
    let max_x = if ex < lx {
        ex
    } else {
        lx
    };
    let ey = (max_y as usize).saturating_add(1);
    let ly = h.saturating_sub(1);
    let max_y = if ey < ly {
        ey
    } else {
        ly
    };
    (min_x, max_x, min_y, max_y)
}

/// The pixels `fill_shape` colors: those in the box around the polygon that
/// lie inside it.
pub open spec fn shape_sel(pts: Seq<Pt>, w: usize, h: usize) -> spec_fn(int, int) -> bool {
    let b = box_of(pts, pts.len() as int, w, h);
    |c: int, r: int| b.0 <= c <= b.1 && b.2 <= r <= b.3 && inside_poly(pts, c, r)
}

/// The box around the polygon ends within `i32`, and every cross product
/// the inside test computes for a pixel of the box fits in `i32`.
pub open spec fn shape_fits(pts: Seq<Pt>, w: usize, h: usize) -> bool {
    let b = box_of(pts, pts.len() as int, w, h);
    &&& b.1 <= i32::MAX
    &&& b.3 <= i32::MAX
    &&& forall|c: int, r: int| b.0 <= c <= b.1 && b.2 <= r <= b.3 ==> #[trigger] crosses_fit(pts, c, r)
}

/// Colors the pixels of the piece (see `shape_sel`) with `color`.
pub fn fill_shape(fb: &mut FrameBuffer, shape: &Shape, color: Rgb)
    requires
        visit_fits(old(fb)@),
        shape_fits(shape.corners(), old(fb)@.width, old(fb)@.height),
    ensures
        same_shape(final(fb)@, old(fb)@),
        final(fb)@ == paint(
            old(fb)@,
            shape_sel(shape.corners(), old(fb)@.width, old(fb)@.height),
            encoded(color, old(fb)@.format),
        ),
{
    let ghost v0 = fb@;
    let ghost poly = shape.corners();
    let width = fb.width;
    let height = fb.height;
    let stride = fb.stride;
    let bpp = fb.bytes_per_pixel;
    let (pts4, n) = match shape {
        Shape::Tri(v) => ([v[0], v[1], v[2], Pt { x: 0, y: 0 }], 3usize),
        Shape::Quad(v) => ([v[0], v[1], v[2], v[3]], 4usize),
    };
    proof {
        assert(pts4@.take(n as int) =~= poly);
        lemma_box_prefix(pts4@, poly, n as int, width, height);
    }
    let (min_x, max_x, min_y, max_y) = bounds(&pts4, n, width, height);
    let px = encode(color, fb.format);
    let ghost sel = shape_sel(poly, width, height);
    let data = fb.as_bytes_mut();
    let mut y = min_y;
    proof {
        lemma_paint_nothing(v0, |c: int, r: int| sel(c, r) && r < y, px@);
    }
    while y <= max_y
        invariant
            min_y <= y,
            y <= max_y + 1 || y == min_y,
            max_y < usize::MAX,
            data@.len() == v0.bytes.len(),
            width == v0.width,
            height == v0.height,
            stride == v0.stride,
            bpp == v0.bytes_per_pixel,
            visit_fits(v0),
            poly == pts4@.take(n as int),
            n == poly.len(),
            n <= 4,
            (min_x as int, max_x as int, min_y as int, max_y as int) == box_of(poly, n as int, width, height),
            shape_fits(poly, width, height),
            px@ == encoded(color, v0.format),
            sel == shape_sel(poly, width, height),
            data@ == paint(
                v0,
                |c: int, r: int| sel(c, r) && r < y,
                px@,
            ).bytes,
        decreases max_y + 1 - y,
    {
        let mut x = min_x;
        proof {
            lemma_paint_same(
                v0,
                |c: int, r: int| sel(c, r) && r < y,
                |c: int, r: int| sel(c, r) && (r < y || (r == y && c < x)),
                px@,
            );
        }
        while x <= max_x
            invariant
                min_y <= y <= max_y,
                min_x <= x,
                x <= max_x + 1 || x == min_x,
                max_x < usize::MAX,
                max_y < usize::MAX,
                data@.len() == v0.bytes.len(),
                width == v0.width,
                height == v0.height,
                stride == v0.stride,
                bpp == v0.bytes_per_pixel,
                visit_fits(v0),
                poly == pts4@.take(n as int),
                n == poly.len(),
                n <= 4,
                (min_x as int, max_x as int, min_y as int, max_y as int) == box_of(poly, n as int, width, height),
                shape_fits(poly, width, height),
                px@ == encoded(color, v0.format),
                sel == shape_sel(poly, width, height),
                data@ == paint(
                    v0,
                    |c: int, r: int| sel(c, r) && (r < y || (r == y && c < x)),
                    px@,
                ).bytes,
            decreases max_x + 1 - x,
        {
            proof {
                assert(crosses_fit(poly, x as int, y as int));
            }
            let hit = inside(x as i32, y as i32, &pts4, n);
            if hit {
                proof {
                    lemma_offset_bounds(
                        v0,
                        x as int,
                        y as int,
                        if width == 0 { 1 } else { width as int },
                        if height == 0 { 1 } else { height as int },
                    );
                }
                let off = y * stride + x * bpp;
                put_pixel(data, off, &px);
                proof {
                    lemma_paint_pixel(
                        v0,
                        |c: int, r: int| sel(c, r) && (r < y || (r == y && c < x)),
                        |c: int, r: int| sel(c, r) && (r < y || (r == y && c < x + 1)),
                        px@,
                        x as int,
                        y as int,
                        data@,
                    );
                }
            } else {
                proof {
                    lemma_paint_same(
                        v0,
                        |c: int, r: int| sel(c, r) && (r < y || (r == y && c < x)),
                        |c: int, r: int| sel(c, r) && (r < y || (r == y && c < x + 1)),
                        px@,
                    );
                }
            }
            x += 1;
        }
        proof {
            lemma_paint_same(
                v0,
                |c: int, r: int| sel(c, r) && (r < y || (r == y && c < x)),
                |c: int, r: int| sel(c, r) && r < y + 1,
                px@,
            );
        }
        y += 1;
    }
    proof {
        lemma_paint_same(v0, |c: int, r: int| sel(c, r) && r < y, sel, px@);
        lemma_paint_shape(v0, sel, px@);
    }
}

/// The box around the first `n` points of a padded corner array is the box
/// around the corners.
proof fn lemma_box_prefix(pts4: Seq<Pt>, poly: Seq<Pt>, n: int, w: usize, h: usize)
    requires
        0 <= n <= 4,
        pts4.len() == 4,
        poly == pts4.take(n),
    ensures
        box_of(pts4, n, w, h) == box_of(poly, n, w, h),
{
    lemma_box_prefix_k(pts4, poly, n, n, false);
    lemma_box_prefix_k(pts4, poly, n, n, true);
}

proof fn lemma_box_prefix_k(pts4: Seq<Pt>, poly: Seq<Pt>, n: int, k: int, vertical: bool)
    requires
        0 <= n <= 4,
        pts4.len() == 4,
        poly == pts4.take(n),
        0 <= k <= n,
    ensures
        min_upto(pts4, k, vertical) == min_upto(poly, k, vertical),
        max_upto(pts4, k, vertical) == max_upto(poly, k, vertical),
    decreases k,
{
    if k > 0 {
        lemma_box_prefix_k(pts4, poly, n, k - 1, vertical);
    }
}

/// The framebuffer with each piece, in order, filled with its color.
pub open spec fn paint_shapes(v: FrameBufferView, shapes: Seq<(Seq<Pt>, Rgb)>) -> FrameBufferView
    decreases shapes.len(),
{
    if shapes.len() == 0 {
        v
    } else {
        let prev = paint_shapes(v, shapes.drop_last());
        paint(
            prev,
            shape_sel(shapes.last().0, v.width, v.height),
            encoded(shapes.last().1, v.format),
        )
    }
}

/// Size of one figure unit in pixels: as many whole multiples of a 240 x 100
/// figure as fit, at least 1.
pub open spec fn tangram_scale(w: usize, h: usize) -> usize {
    let a = w / 240;
    let b = h / 100;
    let m = if a < b {
        a
    } else {
        b
    };
    if m < 1 {
        1
    } else {
        m
    }
}

/// The figure unit as the `i32` the drawing uses.
pub open spec fn tangram_unit(w: usize, h: usize) -> int {
    (tangram_scale(w, h) as i32) as int
}

/// Half of a surplus, or 0 when there is none.
pub open spec fn centered(d: int) -> int {
    if d < 0 {
        0
    } else {
        d / 2
    }
}

/// Left edge of the "O" figure.
pub open spec fn tangram_ox(w: usize, h: usize) -> int {
    centered((w as i32) as int - 220 * tangram_unit(w, h))
}

/// Top edge of both figures.
pub open spec fn tangram_oy(w: usize, h: usize) -> int {
    centered((h as i32) as int - 84 * tangram_unit(w, h))
}

/// Left edge of the "S" figure.
pub open spec fn tangram_sx(w: usize, h: usize) -> int {
    tangram_ox(w, h) + 120 * tangram_unit(w, h)
}

/// The fourteen pieces of the "OS" picture, with their colors, in drawing
/// order: seven for the "O", then seven for the "S".
pub open spec fn tangram_scene(w: usize, h: usize) -> Seq<(Seq<Pt>, Rgb)> {
    let u = tangram_unit(w, h);
    let ox = tangram_ox(w, h);
    let oy = tangram_oy(w, h);
    let sx = tangram_sx(w, h);
    seq![
        (seq![pt(0, 0, ox, oy, u), pt(42, 0, ox, oy, u), pt(0, 42, ox, oy, u)], (200, 20, 10)),
        (seq![pt(0, 0, ox, oy, u), pt(42, 42, ox, oy, u), pt(0, 84, ox, oy, u)], (255, 140, 0)),
        (seq![pt(42, 42, ox, oy, u), pt(84, 0, ox, oy, u), pt(84, 84, ox, oy, u)], (255, 210, 10)),
        (seq![pt(18, 84, ox, oy, u), pt(60, 84, ox, oy, u), pt(39, 63, ox, oy, u)], (100, 240, 40)),
        (seq![pt(24, 24, ox, oy, u), pt(39, 9, ox, oy, u), pt(54, 24, ox, oy, u), pt(39, 39, ox, oy, u)], (10, 200, 245)),
        (seq![pt(24, 60, ox, oy, u), pt(54, 60, ox, oy, u), pt(39, 45, ox, oy, u)], (60, 30, 240)),
        (seq![pt(54, 24, ox, oy, u), pt(84, 24, ox, oy, u), pt(84, 54, ox, oy, u)], (240, 80, 220)),
        (seq![pt(0, 0, sx, oy, u), pt(84, 0, sx, oy, u), pt(42, 42, sx, oy, u)], (240, 80, 220)),
        (seq![pt(0, 0, sx, oy, u), pt(42, 42, sx, oy, u), pt(0, 84, sx, oy, u)], (10, 200, 245)),
        (seq![pt(84, 0, sx, oy, u), pt(84, 42, sx, oy, u), pt(42, 42, sx, oy, u)], (60, 30, 240)),
        (seq![pt(0, 84, sx, oy, u), pt(84, 84, sx, oy, u), pt(42, 42, sx, oy, u)], (255, 210, 10)),
        (seq![pt(24, 24, sx, oy, u), pt(42, 6, sx, oy, u), pt(60, 24, sx, oy, u), pt(42, 42, sx, oy, u)], (200, 20, 10)),
        (seq![pt(24, 60, sx, oy, u), pt(42, 42, sx, oy, u), pt(60, 60, sx, oy, u)], (255, 140, 0)),
        (seq![pt(42, 42, sx, oy, u), pt(84, 42, sx, oy, u), pt(84, 84, sx, oy, u)], (100, 240, 40)),
    ]
}

/// The figure's pieces, in drawing order, with corners in figure units
/// (multiples of the unit `u`) from the origin of the "O" (the first seven)
/// or of the "S" (the last seven), and their colors.
pub proof fn lemma_tangram_pieces(w: usize, h: usize, u: int)
    requires
        u == tangram_unit(w, h),
    ensures
        tangram_scene(w, h).len() == 14,
        tangram_scene(w, h)[0] == (seq![
            Pt { x: (tangram_ox(w, h) + 0 * u) as i32, y: (tangram_oy(w, h) + 0 * u) as i32 },
            Pt { x: (tangram_ox(w, h) + 42 * u) as i32, y: (tangram_oy(w, h) + 0 * u) as i32 },
            Pt { x: (tangram_ox(w, h) + 0 * u) as i32, y: (tangram_oy(w, h) + 42 * u) as i32 },
        ], (200u8, 20u8, 10u8)),
        tangram_scene(w, h)[1] == (seq![
            Pt { x: (tangram_ox(w, h) + 0 * u) as i32, y: (tangram_oy(w, h) + 0 * u) as i32 },
            Pt { x: (tangram_ox(w, h) + 42 * u) as i32, y: (tangram_oy(w, h) + 42 * u) as i32 },
            Pt { x: (tangram_ox(w, h) + 0 * u) as i32, y: (tangram_oy(w, h) + 84 * u) as i32 },
        ], (255u8, 140u8, 0u8)),
        tangram_scene(w, h)[2] == (seq![
            Pt { x: (tangram_ox(w, h) + 42 * u) as i32, y: (tangram_oy(w, h) + 42 * u) as i32 },
            Pt { x: (tangram_ox(w, h) + 84 * u) as i32, y: (tangram_oy(w, h) + 0 * u) as i32 },
            Pt { x: (tangram_ox(w, h) + 84 * u) as i32, y: (tangram_oy(w, h) + 84 * u) as i32 },
        ], (255u8, 210u8, 10u8)),
        tangram_scene(w, h)[3] == (seq![
            Pt { x: (tangram_ox(w, h) + 18 * u) as i32, y: (tangram_oy(w, h) + 84 * u) as i32 },
            Pt { x: (tangram_ox(w, h) + 60 * u) as i32, y: (tangram_oy(w, h) + 84 * u) as i32 },
            Pt { x: (tangram_ox(w, h) + 39 * u) as i32, y: (tangram_oy(w, h) + 63 * u) as i32 },
        ], (100u8, 240u8, 40u8)),
        tangram_scene(w, h)[4] == (seq![
            Pt { x: (tangram_ox(w, h) + 24 * u) as i32, y: (tangram_oy(w, h) + 24 * u) as i32 },
            Pt { x: (tangram_ox(w, h) + 39 * u) as i32, y: (tangram_oy(w, h) + 9 * u) as i32 },
            Pt { x: (tangram_ox(w, h) + 54 * u) as i32, y: (tangram_oy(w, h) + 24 * u) as i32 },
            Pt { x: (tangram_ox(w, h) + 39 * u) as i32, y: (tangram_oy(w, h) + 39 * u) as i32 },
        ], (10u8, 200u8, 245u8)),
        tangram_scene(w, h)[5] == (seq![
            Pt { x: (tangram_ox(w, h) + 24 * u) as i32, y: (tangram_oy(w, h) + 60 * u) as i32 },
            Pt { x: (tangram_ox(w, h) + 54 * u) as i32, y: (tangram_oy(w, h) + 60 * u) as i32 },
            Pt { x: (tangram_ox(w, h) + 39 * u) as i32, y: (tangram_oy(w, h) + 45 * u) as i32 },
        ], (60u8, 30u8, 240u8)),
        tangram_scene(w, h)[6] == (seq![
            Pt { x: (tangram_ox(w, h) + 54 * u) as i32, y: (tangram_oy(w, h) + 24 * u) as i32 },
            Pt { x: (tangram_ox(w, h) + 84 * u) as i32, y: (tangram_oy(w, h) + 24 * u) as i32 },
            Pt { x: (tangram_ox(w, h) + 84 * u) as i32, y: (tangram_oy(w, h) + 54 * u) as i32 },
        ], (240u8, 80u8, 220u8)),
        tangram_scene(w, h)[7] == (seq![
            Pt { x: (tangram_sx(w, h) + 0 * u) as i32, y: (tangram_oy(w, h) + 0 * u) as i32 },
            Pt { x: (tangram_sx(w, h) + 84 * u) as i32, y: (tangram_oy(w, h) + 0 * u) as i32 },
            Pt { x: (tangram_sx(w, h) + 42 * u) as i32, y: (tangram_oy(w, h) + 42 * u) as i32 },
        ], (240u8, 80u8, 220u8)),
        tangram_scene(w, h)[8] == (seq![
            Pt { x: (tangram_sx(w, h) + 0 * u) as i32, y: (tangram_oy(w, h) + 0 * u) as i32 },
            Pt { x: (tangram_sx(w, h) + 42 * u) as i32, y: (tangram_oy(w, h) + 42 * u) as i32 },
            Pt { x: (tangram_sx(w, h) + 0 * u) as i32, y: (tangram_oy(w, h) + 84 * u) as i32 },
        ], (10u8, 200u8, 245u8)),
        tangram_scene(w, h)[9] == (seq![
            Pt { x: (tangram_sx(w, h) + 84 * u) as i32, y: (tangram_oy(w, h) + 0 * u) as i32 },
            Pt { x: (tangram_sx(w, h) + 84 * u) as i32, y: (tangram_oy(w, h) + 42 * u) as i32 },
            Pt { x: (tangram_sx(w, h) + 42 * u) as i32, y: (tangram_oy(w, h) + 42 * u) as i32 },
        ], (60u8, 30u8, 240u8)),
        tangram_scene(w, h)[10] == (seq![
            Pt { x: (tangram_sx(w, h) + 0 * u) as i32, y: (tangram_oy(w, h) + 84 * u) as i32 },
            Pt { x: (tangram_sx(w, h) + 84 * u) as i32, y: (tangram_oy(w, h) + 84 * u) as i32 },
            Pt { x: (tangram_sx(w, h) + 42 * u) as i32, y: (tangram_oy(w, h) + 42 * u) as i32 },
        ], (255u8, 210u8, 10u8)),
        tangram_scene(w, h)[11] == (seq![
            Pt { x: (tangram_sx(w, h) + 24 * u) as i32, y: (tangram_oy(w, h) + 24 * u) as i32 },
            Pt { x: (tangram_sx(w, h) + 42 * u) as i32, y: (tangram_oy(w, h) + 6 * u) as i32 },
            Pt { x: (tangram_sx(w, h) + 60 * u) as i32, y: (tangram_oy(w, h) + 24 * u) as i32 },
            Pt { x: (tangram_sx(w, h) + 42 * u) as i32, y: (tangram_oy(w, h) + 42 * u) as i32 },
        ], (200u8, 20u8, 10u8)),
        tangram_scene(w, h)[12] == (seq![
            Pt { x: (tangram_sx(w, h) + 24 * u) as i32, y: (tangram_oy(w, h) + 60 * u) as i32 },
            Pt { x: (tangram_sx(w, h) + 42 * u) as i32, y: (tangram_oy(w, h) + 42 * u) as i32 },
            Pt { x: (tangram_sx(w, h) + 60 * u) as i32, y: (tangram_oy(w, h) + 60 * u) as i32 },
        ], (255u8, 140u8, 0u8)),
        tangram_scene(w, h)[13] == (seq![
            Pt { x: (tangram_sx(w, h) + 42 * u) as i32, y: (tangram_oy(w, h) + 42 * u) as i32 },
            Pt { x: (tangram_sx(w, h) + 84 * u) as i32, y: (tangram_oy(w, h) + 42 * u) as i32 },
            Pt { x: (tangram_sx(w, h) + 84 * u) as i32, y: (tangram_oy(w, h) + 84 * u) as i32 },
        ], (100u8, 240u8, 40u8)),
{
}

/// The figure arithmetic in `i32` does not overflow for a `w` x `h`
/// framebuffer: the unit, origins and corner points fit, and so does every
/// cross product the inside tests compute.
pub open spec fn tangram_fits(w: usize, h: usize) -> bool {
    let u = tangram_unit(w, h);
    let ox = tangram_ox(w, h);
    let oy = tangram_oy(w, h);
    let sx = tangram_sx(w, h);
    &&& i32::MIN <= 220 * u <= i32::MAX
    &&& i32::MIN <= 84 * u <= i32::MAX
    &&& i32::MIN <= 120 * u <= i32::MAX
    &&& i32::MIN <= (w as i32) as int - 220 * u <= i32::MAX
    &&& i32::MIN <= (h as i32) as int - 84 * u <= i32::MAX
    &&& i32::MIN <= sx <= i32::MAX
    &&& pt_fits(0, 0, ox, oy, u)
    &&& pt_fits(42, 0, ox, oy, u)
    &&& pt_fits(0, 42, ox, oy, u)
    &&& pt_fits(42, 42, ox, oy, u)
    &&& pt_fits(0, 84, ox, oy, u)
    &&& pt_fits(84, 0, ox, oy, u)
    &&& pt_fits(84, 84, ox, oy, u)
    &&& pt_fits(18, 84, ox, oy, u)
    &&& pt_fits(60, 84, ox, oy, u)
    &&& pt_fits(39, 63, ox, oy, u)
    &&& pt_fits(24, 24, ox, oy, u)
    &&& pt_fits(39, 9, ox, oy, u)
    &&& pt_fits(54, 24, ox, oy, u)
    &&& pt_fits(39, 39, ox, oy, u)
    &&& pt_fits(24, 60, ox, oy, u)
    &&& pt_fits(54, 60, ox, oy, u)
    &&& pt_fits(39, 45, ox, oy, u)
    &&& pt_fits(84, 24, ox, oy, u)
    &&& pt_fits(84, 54, ox, oy, u)
    &&& pt_fits(0, 0, sx, oy, u)
    &&& pt_fits(84, 0, sx, oy, u)
    &&& pt_fits(42, 42, sx, oy, u)
    &&& pt_fits(0, 84, sx, oy, u)
    &&& pt_fits(84, 42, sx, oy, u)
    &&& pt_fits(84, 84, sx, oy, u)
    &&& pt_fits(24, 24, sx, oy, u)
    &&& pt_fits(42, 6, sx, oy, u)
    &&& pt_fits(60, 24, sx, oy, u)
    &&& pt_fits(24, 60, sx, oy, u)
    &&& pt_fits(60, 60, sx, oy, u)
    &&& forall|k: int|
        0 <= k < tangram_scene(w, h).len() ==> shape_fits(#[trigger] tangram_scene(w, h)[k].0, w, h)
}

/// A point whose coordinates both lie in `0..=30000`.
pub open spec fn small_pt(q: Pt) -> bool {
    0 <= q.x <= 30000 && 0 <= q.y <= 30000
}

/// The extremes of points with coordinates in `0..=30000` lie there too.
proof fn lemma_extremes_small(pts: Seq<Pt>, k: int, vertical: bool)
    requires
        0 < k <= pts.len(),
        forall|j: int| 0 <= j < pts.len() ==> small_pt(#[trigger] pts[j]),
    ensures
        0 <= min_upto(pts, k, vertical) <= 30000,
        0 <= max_upto(pts, k, vertical) <= 30000,
    decreases k,
{
    assert(small_pt(pts[k - 1]));
    if k > 1 {
        lemma_extremes_small(pts, k - 1, vertical);
    } else {
        assert(min_upto(pts, 0, vertical) == i32::MAX);
        assert(max_upto(pts, 0, vertical) == i32::MIN);
    }
}

/// With corners in `0..=30000` and the pixel in `0..=30001`, every step of
/// the cross product of an edge fits in `i32`.
proof fn lemma_cross_fits_small(pts: Seq<Pt>, i: int, px: int, py: int)
    requires
        0 <= i < pts.len(),
        forall|j: int| 0 <= j < pts.len() ==> small_pt(#[trigger] pts[j]),
        0 <= px <= 30001,
        0 <= py <= 30001,
    ensures
        cross_fits(pts, i, px, py),
{
    let n = pts.len() as int;
    vstd::arithmetic::div_mod::lemma_mod_bound(i + 1, n);
    let a = pts[i];
    let b = pts[(i + 1) % n];
    assert(small_pt(a) && small_pt(b));
    let d1 = b.x - a.x;
    let d2 = py - a.y;
    let d3 = b.y - a.y;
    let d4 = px - a.x;
    assert(-900060001 <= d1 * d2 <= 900060001) by (nonlinear_arith)
        requires
            -30001 <= d1 <= 30001,
            -30001 <= d2 <= 30001,
    ;
    assert(-900060001 <= d3 * d4 <= 900060001) by (nonlinear_arith)
        requires
            -30001 <= d3 <= 30001,
            -30001 <= d4 <= 30001,
    ;
}

/// A piece of three or four corners in `0..=30000` can be filled on any
/// framebuffer.
proof fn lemma_shape_fits_small(pts: Seq<Pt>, w: usize, h: usize)
    requires
        pts.len() == 3 || pts.len() == 4,
        small_pt(pts[0]),
        small_pt(pts[1]),
        small_pt(pts[2]),
        pts.len() == 4 ==> small_pt(pts[3]),
    ensures
        shape_fits(pts, w, h),
{
    let n = pts.len() as int;
    assert forall|j: int| 0 <= j < n implies small_pt(#[trigger] pts[j]) by {
        if j == 3 {
            assert(n == 4);
        }
    }
    lemma_extremes_small(pts, n, false);
    lemma_extremes_small(pts, n, true);
    let b = box_of(pts, n, w, h);
    assert(b.1 <= 30001 && b.3 <= 30001);
    assert forall|c: int, r: int| b.0 <= c <= b.1 && b.2 <= r <= b.3 implies #[trigger] crosses_fit(
        pts,
        c,
        r,
    ) by {
        assert forall|i: int| 0 <= i < n && !mixed_before(pts, i, c, r) implies #[trigger] cross_fits(
            pts,
            i,
            c,
            r,
        ) by {
            lemma_cross_fits_small(pts, i, c, r);
        }
    }
}

/// A corner of the figure: it fits in `i32` and lies in `0..=30000`.
proof fn lemma_corner_small(x: int, y: int, ox: int, oy: int, u: int)
    requires
        0 <= x <= 84,
        0 <= y <= 84,
        0 <= u <= 68,
        0 <= ox <= 16352,
        0 <= oy <= 8192,
    ensures
        pt_fits(x, y, ox, oy, u),
        small_pt(pt(x, y, ox, oy, u)),
{
    assert(0 <= x * u <= 5712 && 0 <= y * u <= 5712) by (nonlinear_arith)
        requires
            0 <= x <= 84,
            0 <= y <= 84,
            0 <= u <= 68,
    ;
}

/// On every screen up to 16384 pixels on a side the figure's arithmetic
/// fits in `i32`.
pub proof fn lemma_tangram_in_range(w: usize, h: usize)
    requires
        w <= 16384,
        h <= 16384,
    ensures
        tangram_fits(w, h),
{
    let s = tangram_scale(w, h);
    assert(1 <= s <= 68);
    let u = tangram_unit(w, h);
    assert(u == s);
    let ox = tangram_ox(w, h);
    let oy = tangram_oy(w, h);
    let sx = tangram_sx(w, h);
    assert(0 <= ox <= 8192);
    assert(0 <= oy <= 8192);
    assert(0 <= sx <= 16352);
    lemma_corner_small(0, 0, ox, oy, u);
    lemma_corner_small(0, 42, ox, oy, u);
    lemma_corner_small(0, 84, ox, oy, u);
    lemma_corner_small(18, 84, ox, oy, u);
    lemma_corner_small(24, 24, ox, oy, u);
    lemma_corner_small(24, 60, ox, oy, u);
    lemma_corner_small(39, 9, ox, oy, u);
    lemma_corner_small(39, 39, ox, oy, u);
    lemma_corner_small(39, 45, ox, oy, u);
    lemma_corner_small(39, 63, ox, oy, u);
    lemma_corner_small(42, 0, ox, oy, u);
    lemma_corner_small(42, 42, ox, oy, u);
    lemma_corner_small(54, 24, ox, oy, u);
    lemma_corner_small(54, 60, ox, oy, u);
    lemma_corner_small(60, 84, ox, oy, u);
    lemma_corner_small(84, 0, ox, oy, u);
    lemma_corner_small(84, 24, ox, oy, u);
    lemma_corner_small(84, 54, ox, oy, u);
    lemma_corner_small(84, 84, ox, oy, u);
    lemma_corner_small(0, 0, sx, oy, u);
    lemma_corner_small(0, 84, sx, oy, u);
    lemma_corner_small(24, 24, sx, oy, u);
    lemma_corner_small(24, 60, sx, oy, u);
    lemma_corner_small(42, 6, sx, oy, u);
    lemma_corner_small(42, 42, sx, oy, u);
    lemma_corner_small(60, 24, sx, oy, u);
    lemma_corner_small(60, 60, sx, oy, u);
    lemma_corner_small(84, 0, sx, oy, u);
    lemma_corner_small(84, 42, sx, oy, u);
    lemma_corner_small(84, 84, sx, oy, u);
    let scene = tangram_scene(w, h);
    assert forall|k: int| 0 <= k < scene.len() implies shape_fits(#[trigger] scene[k].0, w, h) by {
        if k == 0 {
            lemma_shape_fits_small(scene[0].0, w, h);
        } else if k == 1 {
            lemma_shape_fits_small(scene[1].0, w, h);
        } else if k == 2 {
            lemma_shape_fits_small(scene[2].0, w, h);
        } else if k == 3 {
            lemma_shape_fits_small(scene[3].0, w, h);
        } else if k == 4 {
            lemma_shape_fits_small(scene[4].0, w, h);
        } else if k == 5 {
            lemma_shape_fits_small(scene[5].0, w, h);
        } else if k == 6 {
            lemma_shape_fits_small(scene[6].0, w, h);
        } else if k == 7 {
            lemma_shape_fits_small(scene[7].0, w, h);
        } else if k == 8 {
            lemma_shape_fits_small(scene[8].0, w, h);
        } else if k == 9 {
            lemma_shape_fits_small(scene[9].0, w, h);
        } else if k == 10 {
            lemma_shape_fits_small(scene[10].0, w, h);
        } else if k == 11 {
            lemma_shape_fits_small(scene[11].0, w, h);
        } else if k == 12 {
            lemma_shape_fits_small(scene[12].0, w, h);
        } else {
            lemma_shape_fits_small(scene[13].0, w, h);
        }
    }
}

/// The framebuffer is one `render_tangram_os` draws on: pixels of at least
/// four bytes, at least one column and row, and `stride * height` bytes.
pub open spec fn tangram_drawable(v: FrameBufferView) -> bool {
    &&& v.bytes_per_pixel >= 4
    &&& v.width > 0
    &&& v.height > 0
    &&& v.stride * v.height <= usize::MAX
    &&& v.stride * v.height <= v.bytes.len()
}

/// The framebuffer with the "OS" picture drawn on it: cleared to the
/// background color, then the fourteen pieces of `tangram_scene` filled.
pub open spec fn tangram_picture(v: FrameBufferView) -> FrameBufferView {
    paint_shapes(paint(v, on_screen(v), encoded(BG, v.format)), tangram_scene(v.width, v.height))
}

/// The picture does not depend on the old pixels: two framebuffers of one
/// geometry whose bytes differ only in bytes of on-screen pixels end up the
/// same.
pub proof fn lemma_tangram_ignores_old_pixels(v: FrameBufferView, v2: FrameBufferView)
    requires
        v2 == (FrameBufferView { bytes: v2.bytes, ..v }),
        v2.bytes.len() == v.bytes.len(),
        forall|i: int|
            0 <= i < v.bytes.len() && v.bytes[i] != v2.bytes[i] ==> exists|c: int, r: int|
                #[trigger] covers(v, on_screen(v), c, r, i),
    ensures
        tangram_picture(v) == tangram_picture(v2),
{
    let bg = encoded(BG, v.format);
    lemma_paint_same(v2, on_screen(v2), on_screen(v), bg);
    lemma_paint_overwrites(v, v2, on_screen(v), bg, v.width as int, v.height as int);
}

/// Every pixel a piece selects lies on a framebuffer with columns and rows.
proof fn lemma_shape_sel_on_screen(pts: Seq<Pt>, w: usize, h: usize, c: int, r: int)
    requires
        w > 0,
        h > 0,
        shape_sel(pts, w, h)(c, r),
    ensures
        c < w,
        r < h,
{
}

/// Filling pieces keeps every byte that no on-screen pixel covers.
proof fn lemma_shapes_keep(v: FrameBufferView, shapes: Seq<(Seq<Pt>, Rgb)>, i: int)
    requires
        v.width > 0,
        v.height > 0,
        0 <= i < v.bytes.len(),
        forall|c: int, r: int| !#[trigger] covers(v, on_screen(v), c, r, i),
    ensures
        same_shape(paint_shapes(v, shapes), v),
        paint_shapes(v, shapes).bytes[i] == v.bytes[i],
    decreases shapes.len(),
{
    if shapes.len() > 0 {
        let prev = paint_shapes(v, shapes.drop_last());
        lemma_shapes_keep(v, shapes.drop_last(), i);
        let sel = shape_sel(shapes.last().0, v.width, v.height);
        lemma_paint_shape(prev, sel, encoded(shapes.last().1, v.format));
        assert forall|c: int, r: int| !#[trigger] covers(prev, sel, c, r, i) by {
            if covers(prev, sel, c, r, i) {
                lemma_shape_sel_on_screen(shapes.last().0, v.width, v.height, c, r);
                assert(covers(v, on_screen(v), c, r, i));
            }
        }
        lemma_paint_keeps(prev, sel, encoded(shapes.last().1, v.format), i);
    }
}

/// The color pixel `(c, r)` shows once the pieces are filled in order over a
/// background of color `bg`: that of the last piece that covers it, or `bg`.
pub open spec fn piece_color_at(shapes: Seq<(Seq<Pt>, Rgb)>, w: usize, h: usize, c: int, r: int, bg: Rgb) -> Rgb
    decreases shapes.len(),
{
    if shapes.len() == 0 {
        bg
    } else if shape_sel(shapes.last().0, w, h)(c, r) {
        shapes.last().1
    } else {
        piece_color_at(shapes.drop_last(), w, h, c, r, bg)
    }
}

/// In a framebuffer with columns, rows and pixels that do not overlap, each
/// pixel in the buffer ends up in the color of the last piece covering it,
/// or keeps its old bytes when no piece covers it.
proof fn lemma_shapes_pixel(
    v: FrameBufferView,
    shapes: Seq<(Seq<Pt>, Rgb)>,
    c: int,
    r: int,
    k: int,
    bg: Rgb,
)
    requires
        layout_ok(v),
        v.width > 0,
        v.height > 0,
        0 <= c < v.width,
        0 <= r < v.height,
        0 <= k < 4,
        pixel_offset(v, c, r) + 4 <= v.bytes.len(),
        v.bytes.subrange(pixel_offset(v, c, r), pixel_offset(v, c, r) + 4) == encoded(bg, v.format),
    ensures
        paint_shapes(v, shapes).bytes[pixel_offset(v, c, r) + k] == encoded(
            piece_color_at(shapes, v.width, v.height, c, r, bg),
            v.format,
        )[k],
    decreases shapes.len(),
{
    if shapes.len() == 0 {
        assert(v.bytes[pixel_offset(v, c, r) + k] == v.bytes.subrange(
            pixel_offset(v, c, r),
            pixel_offset(v, c, r) + 4,
        )[k]);
    } else {
        let prev = paint_shapes(v, shapes.drop_last());
        lemma_shapes_pixel(v, shapes.drop_last(), c, r, k, bg);
        lemma_shapes_keep_shape(v, shapes.drop_last());
        let sel = shape_sel(shapes.last().0, v.width, v.height);
        assert forall|c2: int, r2: int| #[trigger] sel(c2, r2) implies c2 < prev.width by {
            lemma_shape_sel_on_screen(shapes.last().0, v.width, v.height, c2, r2);
        }
        lemma_paint_layout(prev, sel, encoded(shapes.last().1, v.format), c, r, k);
    }
}

/// Each pixel of the picture shows the color of the last piece covering it,
/// or the background color: on a framebuffer with columns, rows and pixels
/// that do not overlap, the four bytes of every pixel in the buffer encode
/// `piece_color_at` over the scene.
pub proof fn lemma_tangram_pixel(v: FrameBufferView, c: int, r: int, k: int)
    requires
        layout_ok(v),
        v.width > 0,
        v.height > 0,
        0 <= c < v.width,
        0 <= r < v.height,
        0 <= k < 4,
        pixel_offset(v, c, r) + 4 <= v.bytes.len(),
    ensures
        tangram_picture(v).bytes[pixel_offset(v, c, r) + k] == encoded(
            piece_color_at(tangram_scene(v.width, v.height), v.width, v.height, c, r, BG),
            v.format,
        )[k],
{
    let bg = encoded(BG, v.format);
    let cl = paint(v, on_screen(v), bg);
    lemma_paint_shape(v, on_screen(v), bg);
    assert forall|j: int| 0 <= j < 4 implies #[trigger] cl.bytes[pixel_offset(v, c, r) + j] == bg[j] by {
        lemma_paint_layout(v, on_screen(v), bg, c, r, j);
    }
    assert(bg.len() == 4);
    let o = pixel_offset(v, c, r);
    assert forall|j: int| 0 <= j < 4 implies #[trigger] cl.bytes.subrange(o, o + 4)[j] == bg[j] by {
        assert(cl.bytes.subrange(o, o + 4)[j] == cl.bytes[o + j]);
    }
    assert(cl.bytes.subrange(o, o + 4) =~= bg);
    lemma_shapes_pixel(cl, tangram_scene(v.width, v.height), c, r, k, BG);
}

/// Drawing the picture a second time changes nothing.
pub proof fn lemma_tangram_twice(v: FrameBufferView)
    requires
        v.width > 0,
        v.height > 0,
    ensures
        tangram_picture(tangram_picture(v)) == tangram_picture(v),
{
    let bg = encoded(BG, v.format);
    let cl = paint(v, on_screen(v), bg);
    let t = tangram_picture(v);
    lemma_paint_shape(v, on_screen(v), bg);
    assert forall|i: int| 0 <= i < v.bytes.len() && v.bytes[i] != t.bytes[i] implies exists|c: int, r: int|
        #[trigger] covers(v, on_screen(v), c, r, i) by {
        if forall|c: int, r: int| !#[trigger] covers(v, on_screen(v), c, r, i) {
            lemma_paint_keeps(v, on_screen(v), bg, i);
            assert forall|c: int, r: int| !#[trigger] covers(cl, on_screen(cl), c, r, i) by {
                assert(!covers(v, on_screen(v), c, r, i));
            }
            lemma_shapes_keep(cl, tangram_scene(v.width, v.height), i);
        }
    }
    lemma_shapes_keep_shape(cl, tangram_scene(v.width, v.height));
    lemma_tangram_ignores_old_pixels(v, t);
}

/// Filling pieces keeps the framebuffer's geometry and size.
proof fn lemma_shapes_keep_shape(v: FrameBufferView, shapes: Seq<(Seq<Pt>, Rgb)>)
    ensures
        same_shape(paint_shapes(v, shapes), v),
        paint_shapes(v, shapes) == (FrameBufferView { bytes: paint_shapes(v, shapes).bytes, ..v }),
    decreases shapes.len(),
{
    if shapes.len() > 0 {
        lemma_shapes_keep_shape(v, shapes.drop_last());
        let prev = paint_shapes(v, shapes.drop_last());
        lemma_paint_shape(
            prev,
            shape_sel(shapes.last().0, v.width, v.height),
            encoded(shapes.last().1, v.format),
        );
        reveal(paint);
    }
}

/// Draws the "OS" tangram picture: clears to the background color and fills
/// the fourteen pieces of `tangram_scene`, centered and scaled to the
/// framebuffer. Leaves a framebuffer it cannot draw on untouched.
pub fn render_tangram_os(fb: &mut FrameBuffer)
    requires
        tangram_drawable(old(fb)@) ==> addressable(old(fb)@) && tangram_fits(
            old(fb)@.width,
            old(fb)@.height,
        ),
    ensures
        same_shape(final(fb)@, old(fb)@),
        !tangram_drawable(old(fb)@) ==> final(fb)@ == old(fb)@,
        tangram_drawable(old(fb)@) ==> final(fb)@ == tangram_picture(old(fb)@),
{
    let ghost v0 = fb@;
    let width = fb.width;
    let height = fb.height;
    let stride = fb.stride;
    let bpp = fb.bytes_per_pixel;
    if bpp < 4 || width == 0 || height == 0 {
        return;
    }
    let len = match stride.checked_mul(height) {
        Some(v) => v,
        None => return,
    };
    let data_len = fb.as_bytes_mut().len();
    if data_len < len {
        return;
    }
    clear(fb, BG);
    let ghost v1 = fb@;
    let a = width / 240;
    let b = height / 100;
    let m = if a < b {
        a
    } else {
        b
    };
    let scale = if m < 1 {
        1
    } else {
        m
    };
    let unit = scale as i32;
    let total_w = 220 * unit;
    let total_h = 84 * unit;
    let dx = (width as i32 - total_w) / 2;
    let ox = if dx < 0 {
        0
    } else {
        dx
    };
    let dy = (height as i32 - total_h) / 2;
    let oy = if dy < 0 {
        0
    } else {
        dy
    };
    proof {
        assert(ox == tangram_ox(width, height));
        assert(oy == tangram_oy(width, height));
    }
    let o_shapes: [(Shape, Rgb); 7] = [
        (
            Shape::Tri([
                p(0, 0, ox, oy, unit),
                p(42, 0, ox, oy, unit),
                p(0, 42, ox, oy, unit),
            ]),
            O_C1,
        ),
        (
            Shape::Tri([
                p(0, 0, ox, oy, unit),
                p(42, 42, ox, oy, unit),
                p(0, 84, ox, oy, unit),
            ]),
            O_C2,
        ),
        (
            Shape::Tri([
                p(42, 42, ox, oy, unit),
                p(84, 0, ox, oy, unit),
                p(84, 84, ox, oy, unit),
            ]),
            O_C3,
        ),
        (
            Shape::Tri([
                p(18, 84, ox, oy, unit),
                p(60, 84, ox, oy, unit),
                p(39, 63, ox, oy, unit),
            ]),
            O_C4,
        ),
        (
            Shape::Quad([
                p(24, 24, ox, oy, unit),
                p(39, 9, ox, oy, unit),
                p(54, 24, ox, oy, unit),
                p(39, 39, ox, oy, unit),
            ]),
            O_C5,
        ),
        (
            Shape::Tri([
                p(24, 60, ox, oy, unit),
                p(54, 60, ox, oy, unit),
                p(39, 45, ox, oy, unit),
            ]),
            O_C6,
        ),
        (
            Shape::Tri([
                p(54, 24, ox, oy, unit),
                p(84, 24, ox, oy, unit),
                p(84, 54, ox, oy, unit),
            ]),
            O_C7,
        ),
    ];
    let sx = ox + 120 * unit;
    let s_shapes: [(Shape, Rgb); 7] = [
        (
            Shape::Tri([
                p(0, 0, sx, oy, unit),
                p(84, 0, sx, oy, unit),
                p(42, 42, sx, oy, unit),
            ]),
            S_C1,
        ),
        (
            Shape::Tri([
                p(0, 0, sx, oy, unit),
                p(42, 42, sx, oy, unit),
                p(0, 84, sx, oy, unit),
            ]),
            S_C2,
        ),
        (
            Shape::Tri([
                p(84, 0, sx, oy, unit),
                p(84, 42, sx, oy, unit),
                p(42, 42, sx, oy, unit),
            ]),
            S_C3,
        ),
        (
            Shape::Tri([
                p(0, 84, sx, oy, unit),
                p(84, 84, sx, oy, unit),
                p(42, 42, sx, oy, unit),
            ]),
            S_C4,
        ),
        (
            Shape::Quad([
                p(24, 24, sx, oy, unit),
                p(42, 6, sx, oy, unit),
                p(60, 24, sx, oy, unit),
                p(42, 42, sx, oy, unit),
            ]),
            S_C5,
        ),
        (
            Shape::Tri([
                p(24, 60, sx, oy, unit),
                p(42, 42, sx, oy, unit),
                p(60, 60, sx, oy, unit),
            ]),
            S_C6,
        ),
        (
            Shape::Tri([
                p(42, 42, sx, oy, unit),
                p(84, 42, sx, oy, unit),
                p(84, 84, sx, oy, unit),
            ]),
            S_C7,
        ),
    ];
    let ghost scene = tangram_scene(width, height);
    proof {
        assert forall|k: int| 0 <= k < 7 implies (#[trigger] o_shapes@[k]).0.corners() == scene[k].0
            && o_shapes@[k].1 == scene[k].1 by {}
        assert forall|k: int| 0 <= k < 7 implies (#[trigger] s_shapes@[k]).0.corners() == scene[k
            + 7].0 && s_shapes@[k].1 == scene[k + 7].1 by {}
        assert(scene.take(0) =~= Seq::<(Seq<Pt>, Rgb)>::empty());
    }
    let mut k: usize = 0;
    while k < 14
        invariant
            k <= 14,
            same_shape(fb@, v0),
            same_shape(v1, v0),
            addressable(v0),
            tangram_drawable(v0),
            tangram_fits(width, height),
            width == v0.width,
            height == v0.height,
            scene == tangram_scene(width, height),
            forall|j: int| 0 <= j < 7 ==> (#[trigger] o_shapes@[j]).0.corners() == scene[j].0
                && o_shapes@[j].1 == scene[j].1,
            forall|j: int| 0 <= j < 7 ==> (#[trigger] s_shapes@[j]).0.corners() == scene[j + 7].0
                && s_shapes@[j].1 == scene[j + 7].1,
            v1 == paint(v0, on_screen(v0), encoded(BG, v0.format)),
            fb@ == paint_shapes(v1, scene.take(k as int)),
        decreases 14 - k,
    {
        let ghost before = fb@;
        proof {
            assert(shape_fits(scene[k as int].0, width, height));
        }
        if k < 7 {
            fill_shape(fb, &o_shapes[k].0, o_shapes[k].1);
        } else {
            fill_shape(fb, &s_shapes[k - 7].0, s_shapes[k - 7].1);
        }
        proof {
            assert(scene.take(k + 1).drop_last() =~= scene.take(k as int));
        }
        k += 1;
    }
    proof {
        assert(scene.take(14) =~= scene);
    }
}

} // verus!
