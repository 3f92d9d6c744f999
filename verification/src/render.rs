use vstd::prelude::*;
use crate::display::{FrameBuffer, FrameBufferView, lemma_frame_buffer_view, pixel_offset};
use crate::raster::{
    Rgb, encode, encoded, clear, paint, on_screen, addressable, visit_fits,
    same_shape, lemma_paint_pixel, lemma_paint_same, put_pixel, lemma_offset_bounds,
    lemma_paint_nothing, lemma_paint_shape, layout_ok, lemma_paint_layout,
};
use crate::tangram::{Pt, p, pt, pt_fits, small_pt, inside_poly, edge_cross};

verus! {

broadcast use lemma_frame_buffer_view, vstd::array::group_array_axioms;

/// Background color.
pub const BG: Rgb = (248, 249, 252);

/// Triangles drawn for each application that has run.
pub const CHUNK_SIZE: usize = 3;

/// Triangles of the whole picture.
pub const TOTAL_TRIANGLES: usize = 24;

/// A colored triangle.
#[derive(Clone, Copy)]
pub struct Tri {
    pub p0: Pt,
    pub p1: Pt,
    pub p2: Pt,
    pub color: Rgb,
}

/// Builds a triangle.
pub fn tri(p0: Pt, p1: Pt, p2: Pt, color: Rgb) -> (t: Tri)
    ensures
        t == (Tri { p0, p1, p2, color }),
{
    Tri { p0, p1, p2, color }
}

/// Twice the signed area of the triangle `a`, `b`, `(px, py)`: positive on
/// one side of the line through `a` and `b`, negative on the other.
pub open spec fn edge_val(a: Pt, b: Pt, px: int, py: int) -> int {
    (b.x - a.x) * (py - a.y) - (b.y - a.y) * (px - a.x)
}

/// Every step of computing `edge_val(a, b, px, py)` in `i32` stays in range.
pub open spec fn edge_fits(a: Pt, b: Pt, px: int, py: int) -> bool {
    &&& i32::MIN <= b.x - a.x <= i32::MAX
    &&& i32::MIN <= py - a.y <= i32::MAX
    &&& i32::MIN <= (b.x - a.x) * (py - a.y) <= i32::MAX
    &&& i32::MIN <= b.y - a.y <= i32::MAX
    &&& i32::MIN <= px - a.x <= i32::MAX
    &&& i32::MIN <= (b.y - a.y) * (px - a.x) <= i32::MAX
    &&& i32::MIN <= edge_val(a, b, px, py) <= i32::MAX
}

/// The edge function of `a`, `b` at `(px, py)`.
pub fn edge(a: Pt, b: Pt, px: i32, py: i32) -> (r: i32)
    requires
        edge_fits(a, b, px as int, py as int),
    ensures
        r == edge_val(a, b, px as int, py as int),
{
    (b.x - a.x) * (py - a.y) - (b.y - a.y) * (px - a.x)
}

/// `(px, py)` lies in the triangle `a`, `b`, `c` or on its boundary: it is on
/// the same side of all three edges, or on an edge.
pub open spec fn in_triangle(a: Pt, b: Pt, c: Pt, px: int, py: int) -> bool {
    let s1 = edge_val(a, b, px, py);
    let s2 = edge_val(b, c, px, py);
    let s3 = edge_val(c, a, px, py);
    (s1 >= 0 && s2 >= 0 && s3 >= 0) || (s1 <= 0 && s2 <= 0 && s3 <= 0)
}

/// The three edge functions at `(px, py)` compute within `i32`.
pub open spec fn tri_test_fits(a: Pt, b: Pt, c: Pt, px: int, py: int) -> bool {
    edge_fits(a, b, px, py) && edge_fits(b, c, px, py) && edge_fits(c, a, px, py)
}

/// Whether `(px, py)` lies in the triangle `a`, `b`, `c` or on its boundary.
pub fn inside_tri(px: i32, py: i32, a: Pt, b: Pt, c: Pt) -> (r: bool)
    requires
        tri_test_fits(a, b, c, px as int, py as int),
    ensures
        r == in_triangle(a, b, c, px as int, py as int),
{
    let s1 = edge(a, b, px, py);
    let s2 = edge(b, c, px, py);
    let s3 = edge(c, a, px, py);
    (s1 >= 0 && s2 >= 0 && s3 >= 0) || (s1 <= 0 && s2 <= 0 && s3 <= 0)
}

/// Each corner of a triangle lies in it.
pub proof fn lemma_corners_inside(a: Pt, b: Pt, c: Pt)
    ensures
        in_triangle(a, b, c, a.x as int, a.y as int),
        in_triangle(a, b, c, b.x as int, b.y as int),
        in_triangle(a, b, c, c.x as int, c.y as int),
{
    assert(edge_val(c, a, a.x as int, a.y as int) == 0) by (nonlinear_arith);
    assert(edge_val(a, b, b.x as int, b.y as int) == 0) by (nonlinear_arith);
    assert(edge_val(b, c, c.x as int, c.y as int) == 0) by (nonlinear_arith);
    assert(edge_val(a, b, a.x as int, a.y as int) == 0) by (nonlinear_arith);
    assert(edge_val(b, c, b.x as int, b.y as int) == 0) by (nonlinear_arith);
    assert(edge_val(c, a, c.x as int, c.y as int) == 0) by (nonlinear_arith);
}

/// Whether a point lies in a triangle does not depend on which corner is
/// named first or on the direction the corners are listed in.
pub proof fn lemma_corner_order(a: Pt, b: Pt, c: Pt, px: int, py: int)
    ensures
        in_triangle(a, b, c, px, py) == in_triangle(b, c, a, px, py),
        in_triangle(a, b, c, px, py) == in_triangle(a, c, b, px, py),
{
    assert(edge_val(a, c, px, py) == -edge_val(c, a, px, py)) by (nonlinear_arith);
    assert(edge_val(c, b, px, py) == -edge_val(b, c, px, py)) by (nonlinear_arith);
    assert(edge_val(b, a, px, py) == -edge_val(a, b, px, py)) by (nonlinear_arith);
}

/// The triangle test agrees with the polygon test of the tangram on the
/// three corners: a point is in the triangle exactly when no two edges see
/// it on opposite sides.
pub proof fn lemma_inside_tri_is_inside(a: Pt, b: Pt, c: Pt, px: int, py: int)
    ensures
        in_triangle(a, b, c, px, py) == inside_poly(seq![a, b, c], px, py),
{
    let s = seq![a, b, c];
    let e0 = edge_val(a, b, px, py);
    let e1 = edge_val(b, c, px, py);
    let e2 = edge_val(c, a, px, py);
    assert(s.len() == 3 && s[0] == a && s[1] == b && s[2] == c);
    assert((0int + 1) % 3 == 1 && (1int + 1) % 3 == 2 && (2int + 1) % 3 == 0);
    assert(edge_cross(s, 0, px, py) == e0);
    assert(edge_cross(s, 1, px, py) == e1);
    assert(edge_cross(s, 2, px, py) == e2);
    assert forall|i: int| 0 <= i < 3 implies #[trigger] edge_cross(s, i, px, py) == if i == 0 {
        e0
    } else if i == 1 {
        e1
    } else {
        e2
    } by {}
    if !in_triangle(a, b, c, px, py) {
        let pos = if e0 > 0 { 0int } else if e1 > 0 { 1int } else { 2int };
        let neg = if e0 < 0 { 0int } else if e1 < 0 { 1int } else { 2int };
        assert(edge_cross(s, pos, px, py) > 0 && edge_cross(s, neg, px, py) < 0);
    }
}

/// The smallest of three coordinates.
pub open spec fn min3(a: int, b: int, c: int) -> int {
    let m = if b < a {
        b
    } else {
        a
    };
    if c < m {
        c
    } else {
        m
    }
}

/// The largest of three coordinates.
pub open spec fn max3(a: int, b: int, c: int) -> int {
    let m = if b > a {
        b
    } else {
        a
    };
    if c > m {
        c
    } else {
        m
    }
}

/// The pixel box `(min_x, max_x, min_y, max_y)`, inclusive, around the
/// triangle, cut to a `w` x `h` framebuffer.
pub open spec fn tri_box(t: Tri, w: usize, h: usize) -> (int, int, int, int) {
    let lx = min3(t.p0.x as int, t.p1.x as int, t.p2.x as int);
    let ly = min3(t.p0.y as int, t.p1.y as int, t.p2.y as int);
    let hx = ((max3(t.p0.x as int, t.p1.x as int, t.p2.x as int) as i32) as usize) as int;
    let hy = ((max3(t.p0.y as int, t.p1.y as int, t.p2.y as int) as i32) as usize) as int;
    let wl = if w == 0 {
        0
    } else {
        w - 1
    };
    let hl = if h == 0 {
        0
    } else {
        h - 1
    };
    (
        if lx < 0 {
            0
        } else {
            lx
        },
        if hx < wl {
            hx
        } else {
            wl
        },
        if ly < 0 {
            0
        } else {
            ly
        },
        if hy < hl {
            hy
        } else {
            hl
        },
    )
}

/// The pixels `fill_triangle` colors: those of the box that lie in the
/// triangle.
pub open spec fn tri_sel(t: Tri, w: usize, h: usize) -> spec_fn(int, int) -> bool {
    let b = tri_box(t, w, h);
    |c: int, r: int| b.0 <= c <= b.1 && b.2 <= r <= b.3 && in_triangle(t.p0, t.p1, t.p2, c, r)
}

/// The box ends within `i32` and the inside test computes within `i32` for
/// every pixel of the box.
pub open spec fn tri_fits(t: Tri, w: usize, h: usize) -> bool {
    let b = tri_box(t, w, h);
    &&& b.1 <= i32::MAX
    &&& b.3 <= i32::MAX
    &&& forall|c: int, r: int|
        b.0 <= c <= b.1 && b.2 <= r <= b.3 ==> #[trigger] tri_test_fits(t.p0, t.p1, t.p2, c, r)
}

/// Fills the triangle (see `tri_sel`) with its color.
pub fn fill_triangle(fb: &mut FrameBuffer, tri: &Tri)
    requires
        visit_fits(old(fb)@),
        tri_fits(*tri, old(fb)@.width, old(fb)@.height),
    ensures
        same_shape(final(fb)@, old(fb)@),
        final(fb)@ == paint(
            old(fb)@,
            tri_sel(*tri, old(fb)@.width, old(fb)@.height),
            encoded(tri.color, old(fb)@.format),
        ),
{
    let ghost v0 = fb@;
    let width = fb.width;
    let height = fb.height;
    let stride = fb.stride;
    let bpp = fb.bytes_per_pixel;
    let px = encode(tri.color, fb.format);
    let lx0 = if tri.p1.x < tri.p0.x {
        tri.p1.x
    } else {
        tri.p0.x
    };
    let lx1 = if tri.p2.x < lx0 {
        tri.p2.x
    } else {
        lx0
    };
    let min_x = (if lx1 < 0 {
        0
    } else {
        lx1
    }) as usize;
    let ly0 = if tri.p1.y < tri.p0.y {
        tri.p1.y
    } else {
        tri.p0.y
    };
    let ly1 = if tri.p2.y < ly0 {
        tri.p2.y
    } else {
        ly0
    };
    let min_y = (if ly1 < 0 {
        0
    } else {
        ly1
    }) as usize;
    let hx0 = if tri.p1.x > tri.p0.x {
        tri.p1.x
    } else {
        tri.p0.x
    };
    let hx1 = if tri.p2.x > hx0 {
        tri.p2.x
    } else {
        hx0
    };
    let wl = width.saturating_sub(1);
    let hxu = #[verifier::truncate] (hx1 as usize);
    let max_x = if hxu < wl {
        hxu
    } else {
        wl
    };
    let hy0 = if tri.p1.y > tri.p0.y {
        tri.p1.y
    } else {
        tri.p0.y
    };
    let hy1 = if tri.p2.y > hy0 {
        tri.p2.y
    } else {
        hy0
    };
    let hl = height.saturating_sub(1);
    let hyu = #[verifier::truncate] (hy1 as usize);
    let max_y = if hyu < hl {
        hyu
    } else {
        hl
    };
    let ghost sel = tri_sel(*tri, width, height);
    proof {
        assert((min_x as int, max_x as int, min_y as int, max_y as int) == tri_box(*tri, width, height));
    }
    let data = fb.as_bytes_mut();
    let mut y = min_y;
    proof {
        lemma_paint_nothing(v0, |c: int, r: int| sel(c, r) && r < y, px@);
    }
    while y <= max_y
        invariant
            min_y <= y,
            y <= max_y + 1 || y == min_y,
            max_y < usize::MAX,
            data@.len() == v0.bytes.len(),
            width == v0.width,
            height == v0.height,
            stride == v0.stride,
            bpp == v0.bytes_per_pixel,
            visit_fits(v0),
            (min_x as int, max_x as int, min_y as int, max_y as int) == tri_box(*tri, width, height),
            tri_fits(*tri, width, height),
            px@ == encoded(tri.color, v0.format),
            sel == tri_sel(*tri, width, height),
            data@ == paint(v0, |c: int, r: int| sel(c, r) && r < y, px@).bytes,
        decreases max_y + 1 - y,
    {
        let mut x = min_x;
        proof {
            lemma_paint_same(
                v0,
                |c: int, r: int| sel(c, r) && r < y,
                |c: int, r: int| sel(c, r) && (r < y || (r == y && c < x)),
                px@,
            );
        }
        while x <= max_x
            invariant
                min_y <= y <= max_y,
                min_x <= x,
                x <= max_x + 1 || x == min_x,
                max_x < usize::MAX,
                max_y < usize::MAX,
                data@.len() == v0.bytes.len(),
                width == v0.width,
                height == v0.height,
                stride == v0.stride,
                bpp == v0.bytes_per_pixel,
                visit_fits(v0),
                (min_x as int, max_x as int, min_y as int, max_y as int) == tri_box(*tri, width, height),
                tri_fits(*tri, width, height),
                px@ == encoded(tri.color, v0.format),
                sel == tri_sel(*tri, width, height),
                data@ == paint(
                    v0,
                    |c: int, r: int| sel(c, r) && (r < y || (r == y && c < x)),
                    px@,
                ).bytes,
            decreases max_x + 1 - x,
        {
            proof {
                assert(tri_test_fits(tri.p0, tri.p1, tri.p2, x as int, y as int));
            }
            let hit = inside_tri(x as i32, y as i32, tri.p0, tri.p1, tri.p2);
            if hit {
                proof {
                    lemma_offset_bounds(
                        v0,
                        x as int,
                        y as int,
                        if width == 0 { 1 } else { width as int },
                        if height == 0 { 1 } else { height as int },
                    );
                }
                let off = y * stride + x * bpp;
                put_pixel(data, off, &px);
                proof {
                    lemma_paint_pixel(
                        v0,
                        |c: int, r: int| sel(c, r) && (r < y || (r == y && c < x)),
                        |c: int, r: int| sel(c, r) && (r < y || (r == y && c < x + 1)),
                        px@,
                        x as int,
                        y as int,
                        data@,
                    );
                }
            } else {
                proof {
                    lemma_paint_same(
                        v0,
                        |c: int, r: int| sel(c, r) && (r < y || (r == y && c < x)),
                        |c: int, r: int| sel(c, r) && (r < y || (r == y && c < x + 1)),
                        px@,
                    );
                }
            }
            x += 1;
        }
        proof {
            lemma_paint_same(
                v0,
                |c: int, r: int| sel(c, r) && (r < y || (r == y && c < x)),
                |c: int, r: int| sel(c, r) && r < y + 1,
                px@,
            );
        }
        y += 1;
    }
    proof {
        lemma_paint_same(v0, |c: int, r: int| sel(c, r) && r < y, sel, px@);
        lemma_paint_shape(v0, sel, px@);
    }
}

/// Size of one picture unit in pixels: as many whole multiples of a 120 x 56
/// picture as fit, at least 2.
pub open spec fn piece_scale(w: usize, h: usize) -> usize {
    let a = w / 120;
    let b = h / 56;
    let m = if a < b {
        a
    } else {
        b
    };
    if m < 2 {
        2
    } else {
        m
    }
}

/// The picture unit as the `i32` the drawing uses.
pub open spec fn piece_unit(w: usize, h: usize) -> int {
    (piece_scale(w, h) as i32) as int
}

/// Half of a surplus, or 0 when there is none.
pub open spec fn centered(d: int) -> int {
    if d < 0 {
        0
    } else {
        d / 2
    }
}

/// Left edge of the "O".
pub open spec fn piece_ox(w: usize, h: usize) -> int {
    centered((w as i32) as int - 104 * piece_unit(w, h))
}

/// Top edge of the picture.
pub open spec fn piece_oy(w: usize, h: usize) -> int {
    centered((h as i32) as int - 40 * piece_unit(w, h))
}

/// Left edge of the "S".
pub open spec fn piece_sx(w: usize, h: usize) -> int {
    piece_ox(w, h) + 40 * piece_unit(w, h) + 24 * piece_unit(w, h)
}

/// The 24 triangles of the "OS" picture in drawing order: twelve for the
/// "O", then twelve for the "S".
pub open spec fn triangle_scene(w: usize, h: usize) -> Seq<Tri> {
    let u = piece_unit(w, h);
    let ox = piece_ox(w, h);
    let oy = piece_oy(w, h);
    let sx = piece_sx(w, h);
    let sy = oy;
    seq![
        (pt(0, 0, ox, oy, u), pt(12, 0, ox, oy, u), pt(0, 12, ox, oy, u), (200, 20, 10)),
        (pt(12, 0, ox, oy, u), pt(24, 0, ox, oy, u), pt(24, 8, ox, oy, u), (255, 140, 0)),
        (pt(24, 0, ox, oy, u), pt(36, 0, ox, oy, u), pt(36, 12, ox, oy, u), (255, 210, 10)),
        (pt(36, 12, ox, oy, u), pt(40, 20, ox, oy, u), pt(36, 28, ox, oy, u), (100, 240, 40)),
        (pt(36, 12, ox, oy, u), pt(40, 20, ox, oy, u), pt(32, 20, ox, oy, u), (10, 200, 245)),
        (pt(36, 28, ox, oy, u), pt(40, 20, ox, oy, u), pt(32, 20, ox, oy, u), (60, 30, 240)),
        (pt(36, 28, ox, oy, u), pt(36, 40, ox, oy, u), pt(24, 40, ox, oy, u), (240, 80, 220)),
        (pt(24, 40, ox, oy, u), pt(12, 40, ox, oy, u), pt(16, 32, ox, oy, u), (200, 20, 10)),
        (pt(12, 40, ox, oy, u), pt(0, 40, ox, oy, u), pt(0, 28, ox, oy, u), (255, 140, 0)),
        (pt(0, 28, ox, oy, u), pt(0, 12, ox, oy, u), pt(8, 20, ox, oy, u), (255, 210, 10)),
        (pt(0, 12, ox, oy, u), pt(12, 12, ox, oy, u), pt(8, 20, ox, oy, u), (100, 240, 40)),
        (pt(0, 28, ox, oy, u), pt(12, 28, ox, oy, u), pt(8, 20, ox, oy, u), (10, 200, 245)),
        (pt(0, 0, sx, sy, u), pt(14, 0, sx, sy, u), pt(8, 8, sx, sy, u), (60, 30, 240)),
        (pt(14, 0, sx, sy, u), pt(28, 0, sx, sy, u), pt(22, 8, sx, sy, u), (240, 80, 220)),
        (pt(28, 0, sx, sy, u), pt(40, 0, sx, sy, u), pt(32, 10, sx, sy, u), (200, 20, 10)),
        (pt(8, 8, sx, sy, u), pt(0, 16, sx, sy, u), pt(10, 20, sx, sy, u), (255, 140, 0)),
        (pt(10, 20, sx, sy, u), pt(22, 20, sx, sy, u), pt(16, 28, sx, sy, u), (255, 210, 10)),
        (pt(22, 20, sx, sy, u), pt(34, 20, sx, sy, u), pt(28, 28, sx, sy, u), (100, 240, 40)),
        (pt(34, 20, sx, sy, u), pt(40, 30, sx, sy, u), pt(30, 30, sx, sy, u), (10, 200, 245)),
        (pt(30, 30, sx, sy, u), pt(18, 30, sx, sy, u), pt(24, 36, sx, sy, u), (60, 30, 240)),
        (pt(18, 30, sx, sy, u), pt(6, 30, sx, sy, u), pt(12, 38, sx, sy, u), (240, 80, 220)),
        (pt(0, 40, sx, sy, u), pt(12, 40, sx, sy, u), pt(6, 32, sx, sy, u), (200, 20, 10)),
        (pt(12, 40, sx, sy, u), pt(26, 40, sx, sy, u), pt(20, 32, sx, sy, u), (255, 140, 0)),
        (pt(26, 40, sx, sy, u), pt(40, 40, sx, sy, u), pt(34, 32, sx, sy, u), (255, 210, 10)),
    ].map_values(|e: (Pt, Pt, Pt, Rgb)| Tri { p0: e.0, p1: e.1, p2: e.2, color: e.3 })
}

/// The layout arithmetic of the picture in `i32` does not overflow for a
/// `w` x `h` framebuffer: the unit, the origins and every corner fit.
pub open spec fn picture_fits(w: usize, h: usize) -> bool {
    let u = piece_unit(w, h);
    let ox = piece_ox(w, h);
    let oy = piece_oy(w, h);
    let sx = piece_sx(w, h);
    let sy = oy;
    &&& i32::MIN <= 104 * u <= i32::MAX
    &&& i32::MIN <= (w as i32) as int - 104 * u <= i32::MAX
    &&& i32::MIN <= (h as i32) as int - 40 * u <= i32::MAX
    &&& i32::MIN <= ox + 40 * u <= i32::MAX
    &&& i32::MIN <= sx <= i32::MAX
    &&& pt_fits(0, 0, ox, oy, u)
    &&& pt_fits(12, 0, ox, oy, u)
    &&& pt_fits(0, 12, ox, oy, u)
    &&& pt_fits(24, 0, ox, oy, u)
    &&& pt_fits(24, 8, ox, oy, u)
    &&& pt_fits(36, 0, ox, oy, u)
    &&& pt_fits(36, 12, ox, oy, u)
    &&& pt_fits(40, 20, ox, oy, u)
    &&& pt_fits(36, 28, ox, oy, u)
    &&& pt_fits(32, 20, ox, oy, u)
    &&& pt_fits(36, 40, ox, oy, u)
    &&& pt_fits(24, 40, ox, oy, u)
    &&& pt_fits(12, 40, ox, oy, u)
    &&& pt_fits(16, 32, ox, oy, u)
    &&& pt_fits(0, 40, ox, oy, u)
    &&& pt_fits(0, 28, ox, oy, u)
    &&& pt_fits(8, 20, ox, oy, u)
    &&& pt_fits(12, 12, ox, oy, u)
    &&& pt_fits(12, 28, ox, oy, u)
    &&& pt_fits(0, 0, sx, sy, u)
    &&& pt_fits(14, 0, sx, sy, u)
    &&& pt_fits(8, 8, sx, sy, u)
    &&& pt_fits(28, 0, sx, sy, u)
    &&& pt_fits(22, 8, sx, sy, u)
    &&& pt_fits(40, 0, sx, sy, u)
    &&& pt_fits(32, 10, sx, sy, u)
    &&& pt_fits(0, 16, sx, sy, u)
    &&& pt_fits(10, 20, sx, sy, u)
    &&& pt_fits(22, 20, sx, sy, u)
    &&& pt_fits(16, 28, sx, sy, u)
    &&& pt_fits(34, 20, sx, sy, u)
    &&& pt_fits(28, 28, sx, sy, u)
    &&& pt_fits(40, 30, sx, sy, u)
    &&& pt_fits(30, 30, sx, sy, u)
    &&& pt_fits(18, 30, sx, sy, u)
    &&& pt_fits(24, 36, sx, sy, u)
    &&& pt_fits(6, 30, sx, sy, u)
    &&& pt_fits(12, 38, sx, sy, u)
    &&& pt_fits(0, 40, sx, sy, u)
    &&& pt_fits(12, 40, sx, sy, u)
    &&& pt_fits(6, 32, sx, sy, u)
    &&& pt_fits(26, 40, sx, sy, u)
    &&& pt_fits(20, 32, sx, sy, u)
    &&& pt_fits(40, 40, sx, sy, u)
    &&& pt_fits(34, 32, sx, sy, u)
}

/// The first `count` triangles of the picture (all of them when `count` is
/// larger) can be filled without overflow.
pub open spec fn first_triangles_fit(w: usize, h: usize, count: int) -> bool {
    forall|k: int|
        0 <= k < count && k < triangle_scene(w, h).len() ==> tri_fits(
            #[trigger] triangle_scene(w, h)[k],
            w,
            h,
        )
}

/// The picture's triangles, in drawing order, with corners in picture units
/// (multiples of the unit `u`) from the origin of the "O" (the first twelve)
/// or of the "S" (the last twelve).
pub proof fn lemma_picture_triangles(w: usize, h: usize, u: int)
    requires
        u == piece_unit(w, h),
    ensures
        triangle_scene(w, h).len() == 24,
        triangle_scene(w, h)[0] == (Tri {
            p0: Pt { x: (piece_ox(w, h) + 0 * u) as i32, y: (piece_oy(w, h) + 0 * u) as i32 },
            p1: Pt { x: (piece_ox(w, h) + 12 * u) as i32, y: (piece_oy(w, h) + 0 * u) as i32 },
            p2: Pt { x: (piece_ox(w, h) + 0 * u) as i32, y: (piece_oy(w, h) + 12 * u) as i32 },
            color: (200, 20, 10),
        }),
        triangle_scene(w, h)[1] == (Tri {
            p0: Pt { x: (piece_ox(w, h) + 12 * u) as i32, y: (piece_oy(w, h) + 0 * u) as i32 },
            p1: Pt { x: (piece_ox(w, h) + 24 * u) as i32, y: (piece_oy(w, h) + 0 * u) as i32 },
            p2: Pt { x: (piece_ox(w, h) + 24 * u) as i32, y: (piece_oy(w, h) + 8 * u) as i32 },
            color: (255, 140, 0),
        }),
        triangle_scene(w, h)[2] == (Tri {
            p0: Pt { x: (piece_ox(w, h) + 24 * u) as i32, y: (piece_oy(w, h) + 0 * u) as i32 },
            p1: Pt { x: (piece_ox(w, h) + 36 * u) as i32, y: (piece_oy(w, h) + 0 * u) as i32 },
            p2: Pt { x: (piece_ox(w, h) + 36 * u) as i32, y: (piece_oy(w, h) + 12 * u) as i32 },
            color: (255, 210, 10),
        }),
        triangle_scene(w, h)[3] == (Tri {
            p0: Pt { x: (piece_ox(w, h) + 36 * u) as i32, y: (piece_oy(w, h) + 12 * u) as i32 },
            p1: Pt { x: (piece_ox(w, h) + 40 * u) as i32, y: (piece_oy(w, h) + 20 * u) as i32 },
            p2: Pt { x: (piece_ox(w, h) + 36 * u) as i32, y: (piece_oy(w, h) + 28 * u) as i32 },
            color: (100, 240, 40),
        }),
        triangle_scene(w, h)[4] == (Tri {
            p0: Pt { x: (piece_ox(w, h) + 36 * u) as i32, y: (piece_oy(w, h) + 12 * u) as i32 },
            p1: Pt { x: (piece_ox(w, h) + 40 * u) as i32, y: (piece_oy(w, h) + 20 * u) as i32 },
            p2: Pt { x: (piece_ox(w, h) + 32 * u) as i32, y: (piece_oy(w, h) + 20 * u) as i32 },
            color: (10, 200, 245),
        }),
        triangle_scene(w, h)[5] == (Tri {
            p0: Pt { x: (piece_ox(w, h) + 36 * u) as i32, y: (piece_oy(w, h) + 28 * u) as i32 },
            p1: Pt { x: (piece_ox(w, h) + 40 * u) as i32, y: (piece_oy(w, h) + 20 * u) as i32 },
            p2: Pt { x: (piece_ox(w, h) + 32 * u) as i32, y: (piece_oy(w, h) + 20 * u) as i32 },
            color: (60, 30, 240),
        }),
        triangle_scene(w, h)[6] == (Tri {
            p0: Pt { x: (piece_ox(w, h) + 36 * u) as i32, y: (piece_oy(w, h) + 28 * u) as i32 },
            p1: Pt { x: (piece_ox(w, h) + 36 * u) as i32, y: (piece_oy(w, h) + 40 * u) as i32 },
            p2: Pt { x: (piece_ox(w, h) + 24 * u) as i32, y: (piece_oy(w, h) + 40 * u) as i32 },
            color: (240, 80, 220),
        }),
        triangle_scene(w, h)[7] == (Tri {
            p0: Pt { x: (piece_ox(w, h) + 24 * u) as i32, y: (piece_oy(w, h) + 40 * u) as i32 },
            p1: Pt { x: (piece_ox(w, h) + 12 * u) as i32, y: (piece_oy(w, h) + 40 * u) as i32 },
            p2: Pt { x: (piece_ox(w, h) + 16 * u) as i32, y: (piece_oy(w, h) + 32 * u) as i32 },
            color: (200, 20, 10),
        }),
        triangle_scene(w, h)[8] == (Tri {
            p0: Pt { x: (piece_ox(w, h) + 12 * u) as i32, y: (piece_oy(w, h) + 40 * u) as i32 },
            p1: Pt { x: (piece_ox(w, h) + 0 * u) as i32, y: (piece_oy(w, h) + 40 * u) as i32 },
            p2: Pt { x: (piece_ox(w, h) + 0 * u) as i32, y: (piece_oy(w, h) + 28 * u) as i32 },
            color: (255, 140, 0),
        }),
        triangle_scene(w, h)[9] == (Tri {
            p0: Pt { x: (piece_ox(w, h) + 0 * u) as i32, y: (piece_oy(w, h) + 28 * u) as i32 },
            p1: Pt { x: (piece_ox(w, h) + 0 * u) as i32, y: (piece_oy(w, h) + 12 * u) as i32 },
            p2: Pt { x: (piece_ox(w, h) + 8 * u) as i32, y: (piece_oy(w, h) + 20 * u) as i32 },
            color: (255, 210, 10),
        }),
        triangle_scene(w, h)[10] == (Tri {
            p0: Pt { x: (piece_ox(w, h) + 0 * u) as i32, y: (piece_oy(w, h) + 12 * u) as i32 },
            p1: Pt { x: (piece_ox(w, h) + 12 * u) as i32, y: (piece_oy(w, h) + 12 * u) as i32 },
            p2: Pt { x: (piece_ox(w, h) + 8 * u) as i32, y: (piece_oy(w, h) + 20 * u) as i32 },
            color: (100, 240, 40),
        }),
        triangle_scene(w, h)[11] == (Tri {
            p0: Pt { x: (piece_ox(w, h) + 0 * u) as i32, y: (piece_oy(w, h) + 28 * u) as i32 },
            p1: Pt { x: (piece_ox(w, h) + 12 * u) as i32, y: (piece_oy(w, h) + 28 * u) as i32 },
            p2: Pt { x: (piece_ox(w, h) + 8 * u) as i32, y: (piece_oy(w, h) + 20 * u) as i32 },
            color: (10, 200, 245),
        }),
        triangle_scene(w, h)[12] == (Tri {
            p0: Pt { x: (piece_sx(w, h) + 0 * u) as i32, y: (piece_oy(w, h) + 0 * u) as i32 },
            p1: Pt { x: (piece_sx(w, h) + 14 * u) as i32, y: (piece_oy(w, h) + 0 * u) as i32 },
            p2: Pt { x: (piece_sx(w, h) + 8 * u) as i32, y: (piece_oy(w, h) + 8 * u) as i32 },
            color: (60, 30, 240),
        }),
        triangle_scene(w, h)[13] == (Tri {
            p0: Pt { x: (piece_sx(w, h) + 14 * u) as i32, y: (piece_oy(w, h) + 0 * u) as i32 },
            p1: Pt { x: (piece_sx(w, h) + 28 * u) as i32, y: (piece_oy(w, h) + 0 * u) as i32 },
            p2: Pt { x: (piece_sx(w, h) + 22 * u) as i32, y: (piece_oy(w, h) + 8 * u) as i32 },
            color: (240, 80, 220),
        }),
        triangle_scene(w, h)[14] == (Tri {
            p0: Pt { x: (piece_sx(w, h) + 28 * u) as i32, y: (piece_oy(w, h) + 0 * u) as i32 },
            p1: Pt { x: (piece_sx(w, h) + 40 * u) as i32, y: (piece_oy(w, h) + 0 * u) as i32 },
            p2: Pt { x: (piece_sx(w, h) + 32 * u) as i32, y: (piece_oy(w, h) + 10 * u) as i32 },
            color: (200, 20, 10),
        }),
        triangle_scene(w, h)[15] == (Tri {
            p0: Pt { x: (piece_sx(w, h) + 8 * u) as i32, y: (piece_oy(w, h) + 8 * u) as i32 },
            p1: Pt { x: (piece_sx(w, h) + 0 * u) as i32, y: (piece_oy(w, h) + 16 * u) as i32 },
            p2: Pt { x: (piece_sx(w, h) + 10 * u) as i32, y: (piece_oy(w, h) + 20 * u) as i32 },
            color: (255, 140, 0),
        }),
        triangle_scene(w, h)[16] == (Tri {
            p0: Pt { x: (piece_sx(w, h) + 10 * u) as i32, y: (piece_oy(w, h) + 20 * u) as i32 },
            p1: Pt { x: (piece_sx(w, h) + 22 * u) as i32, y: (piece_oy(w, h) + 20 * u) as i32 },
            p2: Pt { x: (piece_sx(w, h) + 16 * u) as i32, y: (piece_oy(w, h) + 28 * u) as i32 },
            color: (255, 210, 10),
        }),
        triangle_scene(w, h)[17] == (Tri {
            p0: Pt { x: (piece_sx(w, h) + 22 * u) as i32, y: (piece_oy(w, h) + 20 * u) as i32 },
            p1: Pt { x: (piece_sx(w, h) + 34 * u) as i32, y: (piece_oy(w, h) + 20 * u) as i32 },
            p2: Pt { x: (piece_sx(w, h) + 28 * u) as i32, y: (piece_oy(w, h) + 28 * u) as i32 },
            color: (100, 240, 40),
        }),
        triangle_scene(w, h)[18] == (Tri {
            p0: Pt { x: (piece_sx(w, h) + 34 * u) as i32, y: (piece_oy(w, h) + 20 * u) as i32 },
            p1: Pt { x: (piece_sx(w, h) + 40 * u) as i32, y: (piece_oy(w, h) + 30 * u) as i32 },
            p2: Pt { x: (piece_sx(w, h) + 30 * u) as i32, y: (piece_oy(w, h) + 30 * u) as i32 },
            color: (10, 200, 245),
        }),
        triangle_scene(w, h)[19] == (Tri {
            p0: Pt { x: (piece_sx(w, h) + 30 * u) as i32, y: (piece_oy(w, h) + 30 * u) as i32 },
            p1: Pt { x: (piece_sx(w, h) + 18 * u) as i32, y: (piece_oy(w, h) + 30 * u) as i32 },
            p2: Pt { x: (piece_sx(w, h) + 24 * u) as i32, y: (piece_oy(w, h) + 36 * u) as i32 },
            color: (60, 30, 240),
        }),
        triangle_scene(w, h)[20] == (Tri {
            p0: Pt { x: (piece_sx(w, h) + 18 * u) as i32, y: (piece_oy(w, h) + 30 * u) as i32 },
            p1: Pt { x: (piece_sx(w, h) + 6 * u) as i32, y: (piece_oy(w, h) + 30 * u) as i32 },
            p2: Pt { x: (piece_sx(w, h) + 12 * u) as i32, y: (piece_oy(w, h) + 38 * u) as i32 },
            color: (240, 80, 220),
        }),
        triangle_scene(w, h)[21] == (Tri {
            p0: Pt { x: (piece_sx(w, h) + 0 * u) as i32, y: (piece_oy(w, h) + 40 * u) as i32 },
            p1: Pt { x: (piece_sx(w, h) + 12 * u) as i32, y: (piece_oy(w, h) + 40 * u) as i32 },
            p2: Pt { x: (piece_sx(w, h) + 6 * u) as i32, y: (piece_oy(w, h) + 32 * u) as i32 },
            color: (200, 20, 10),
        }),
        triangle_scene(w, h)[22] == (Tri {
            p0: Pt { x: (piece_sx(w, h) + 12 * u) as i32, y: (piece_oy(w, h) + 40 * u) as i32 },
            p1: Pt { x: (piece_sx(w, h) + 26 * u) as i32, y: (piece_oy(w, h) + 40 * u) as i32 },
            p2: Pt { x: (piece_sx(w, h) + 20 * u) as i32, y: (piece_oy(w, h) + 32 * u) as i32 },
            color: (255, 140, 0),
        }),
        triangle_scene(w, h)[23] == (Tri {
            p0: Pt { x: (piece_sx(w, h) + 26 * u) as i32, y: (piece_oy(w, h) + 40 * u) as i32 },
            p1: Pt { x: (piece_sx(w, h) + 40 * u) as i32, y: (piece_oy(w, h) + 40 * u) as i32 },
            p2: Pt { x: (piece_sx(w, h) + 34 * u) as i32, y: (piece_oy(w, h) + 32 * u) as i32 },
            color: (255, 210, 10),
        }),
{
}

/// With corners and pixel in `0..=30000`, every step of the edge function
/// fits in `i32`.
proof fn lemma_edge_fits_small(a: Pt, b: Pt, px: int, py: int)
    requires
        small_pt(a),
        small_pt(b),
        0 <= px <= 30000,
        0 <= py <= 30000,
    ensures
        edge_fits(a, b, px, py),
{
    let d1 = b.x - a.x;
    let d2 = py - a.y;
    let d3 = b.y - a.y;
    let d4 = px - a.x;
    assert(-900000000 <= d1 * d2 <= 900000000) by (nonlinear_arith)
        requires
            -30000 <= d1 <= 30000,
            -30000 <= d2 <= 30000,
    ;
    assert(-900000000 <= d3 * d4 <= 900000000) by (nonlinear_arith)
        requires
            -30000 <= d3 <= 30000,
            -30000 <= d4 <= 30000,
    ;
}

/// A triangle with corners in `0..=30000` can be filled on any framebuffer.
proof fn lemma_tri_fits_small(t: Tri, w: usize, h: usize)
    requires
        small_pt(t.p0),
        small_pt(t.p1),
        small_pt(t.p2),
    ensures
        tri_fits(t, w, h),
{
    let b = tri_box(t, w, h);
    assert forall|c: int, r: int| b.0 <= c <= b.1 && b.2 <= r <= b.3 implies #[trigger] tri_test_fits(
        t.p0,
        t.p1,
        t.p2,
        c,
        r,
    ) by {
        lemma_edge_fits_small(t.p0, t.p1, c, r);
        lemma_edge_fits_small(t.p1, t.p2, c, r);
        lemma_edge_fits_small(t.p2, t.p0, c, r);
    }
}

/// A corner of the picture: it fits in `i32` and lies in `0..=30000`.
proof fn lemma_corner_small(x: int, y: int, ox: int, oy: int, u: int)
    requires
        0 <= x <= 40,
        0 <= y <= 40,
        0 <= u <= 136,
        0 <= ox <= 16896,
        0 <= oy <= 8192,
    ensures
        pt_fits(x, y, ox, oy, u),
        small_pt(pt(x, y, ox, oy, u)),
{
    assert(0 <= x * u <= 5440 && 0 <= y * u <= 5440) by (nonlinear_arith)
        requires
            0 <= x <= 40,
            0 <= y <= 40,
            0 <= u <= 136,
    ;
}

/// On every screen up to 16384 pixels on a side the picture's layout fits in
/// `i32` and each of its triangles can be filled.
pub proof fn lemma_picture_in_range(w: usize, h: usize)
    requires
        w <= 16384,
        h <= 16384,
    ensures
        picture_fits(w, h),
        first_triangles_fit(w, h, TOTAL_TRIANGLES as int),
{
    let s = piece_scale(w, h);
    assert(2 <= s <= 136);
    let u = piece_unit(w, h);
    assert(u == s);
    let ox = piece_ox(w, h);
    let oy = piece_oy(w, h);
    let sx = piece_sx(w, h);
    assert(0 <= ox <= 8192);
    assert(0 <= oy <= 8192);
    assert(0 <= sx <= 16896);
    let sy = oy;
    lemma_corner_small(0, 0, ox, oy, u);
    lemma_corner_small(0, 12, ox, oy, u);
    lemma_corner_small(0, 28, ox, oy, u);
    lemma_corner_small(0, 40, ox, oy, u);
    lemma_corner_small(8, 20, ox, oy, u);
    lemma_corner_small(12, 0, ox, oy, u);
    lemma_corner_small(12, 12, ox, oy, u);
    lemma_corner_small(12, 28, ox, oy, u);
    lemma_corner_small(12, 40, ox, oy, u);
    lemma_corner_small(16, 32, ox, oy, u);
    lemma_corner_small(24, 0, ox, oy, u);
    lemma_corner_small(24, 8, ox, oy, u);
    lemma_corner_small(24, 40, ox, oy, u);
    lemma_corner_small(32, 20, ox, oy, u);
    lemma_corner_small(36, 0, ox, oy, u);
    lemma_corner_small(36, 12, ox, oy, u);
    lemma_corner_small(36, 28, ox, oy, u);
    lemma_corner_small(36, 40, ox, oy, u);
    lemma_corner_small(40, 20, ox, oy, u);
    lemma_corner_small(0, 0, sx, sy, u);
    lemma_corner_small(0, 16, sx, sy, u);
    lemma_corner_small(0, 40, sx, sy, u);
    lemma_corner_small(6, 30, sx, sy, u);
    lemma_corner_small(6, 32, sx, sy, u);
    lemma_corner_small(8, 8, sx, sy, u);
    lemma_corner_small(10, 20, sx, sy, u);
    lemma_corner_small(12, 38, sx, sy, u);
    lemma_corner_small(12, 40, sx, sy, u);
    lemma_corner_small(14, 0, sx, sy, u);
    lemma_corner_small(16, 28, sx, sy, u);
    lemma_corner_small(18, 30, sx, sy, u);
    lemma_corner_small(20, 32, sx, sy, u);
    lemma_corner_small(22, 8, sx, sy, u);
    lemma_corner_small(22, 20, sx, sy, u);
    lemma_corner_small(24, 36, sx, sy, u);
    lemma_corner_small(26, 40, sx, sy, u);
    lemma_corner_small(28, 0, sx, sy, u);
    lemma_corner_small(28, 28, sx, sy, u);
    lemma_corner_small(30, 30, sx, sy, u);
    lemma_corner_small(32, 10, sx, sy, u);
    lemma_corner_small(34, 20, sx, sy, u);
    lemma_corner_small(34, 32, sx, sy, u);
    lemma_corner_small(40, 0, sx, sy, u);
    lemma_corner_small(40, 30, sx, sy, u);
    lemma_corner_small(40, 40, sx, sy, u);
    let scene = triangle_scene(w, h);
    assert forall|k: int| 0 <= k < TOTAL_TRIANGLES implies tri_fits(#[trigger] scene[k], w, h) by {
        if k == 0 {
            lemma_tri_fits_small(scene[0], w, h);
        } else if k == 1 {
            lemma_tri_fits_small(scene[1], w, h);
        } else if k == 2 {
            lemma_tri_fits_small(scene[2], w, h);
        } else if k == 3 {
            lemma_tri_fits_small(scene[3], w, h);
        } else if k == 4 {
            lemma_tri_fits_small(scene[4], w, h);
        } else if k == 5 {
            lemma_tri_fits_small(scene[5], w, h);
        } else if k == 6 {
            lemma_tri_fits_small(scene[6], w, h);
        } else if k == 7 {
            lemma_tri_fits_small(scene[7], w, h);
        } else if k == 8 {
            lemma_tri_fits_small(scene[8], w, h);
        } else if k == 9 {
            lemma_tri_fits_small(scene[9], w, h);
        } else if k == 10 {
            lemma_tri_fits_small(scene[10], w, h);
        } else if k == 11 {
            lemma_tri_fits_small(scene[11], w, h);
        } else if k == 12 {
            lemma_tri_fits_small(scene[12], w, h);
        } else if k == 13 {
            lemma_tri_fits_small(scene[13], w, h);
        } else if k == 14 {
            lemma_tri_fits_small(scene[14], w, h);
        } else if k == 15 {
            lemma_tri_fits_small(scene[15], w, h);
        } else if k == 16 {
            lemma_tri_fits_small(scene[16], w, h);
        } else if k == 17 {
            lemma_tri_fits_small(scene[17], w, h);
        } else if k == 18 {
            lemma_tri_fits_small(scene[18], w, h);
        } else if k == 19 {
            lemma_tri_fits_small(scene[19], w, h);
        } else if k == 20 {
            lemma_tri_fits_small(scene[20], w, h);
        } else if k == 21 {
            lemma_tri_fits_small(scene[21], w, h);
        } else if k == 22 {
            lemma_tri_fits_small(scene[22], w, h);
        } else {
            lemma_tri_fits_small(scene[23], w, h);
        }
    }
}

/// Lays out the 24 triangles of the "OS" picture for the framebuffer (see
/// `triangle_scene`).
pub fn build_triangles(fb: &FrameBuffer) -> (tris: [Tri; TOTAL_TRIANGLES])
    requires
        picture_fits(fb@.width, fb@.height),
    ensures
        tris@ == triangle_scene(fb@.width, fb@.height),
{
    let w = fb.width;
    let h = fb.height;
    let a = w / 120;
    let b = h / 56;
    let m = if a < b {
        a
    } else {
        b
    };
    let scale = if m < 2 {
        2
    } else {
        m
    };
    let u = scale as i32;
    let ow = 40 * u;
    let oh = 40 * u;
    let sw = 40 * u;
    let sh = 40 * u;
    let total_w = ow + 24 * u + sw;
    let total_h = if oh > sh {
        oh
    } else {
        sh
    };
    let dx = (w as i32 - total_w) / 2;
    let ox = if dx < 0 {
        0
    } else {
        dx
    };
    let dy = (h as i32 - total_h) / 2;
    let oy = if dy < 0 {
        0
    } else {
        dy
    };
    let sx = ox + ow + 24 * u;
    let sy = oy;
    proof {
        assert(ox == piece_ox(w, h));
        assert(oy == piece_oy(w, h));
    }
    let red: Rgb = (200, 20, 10);
    let orange: Rgb = (255, 140, 0);
    let yellow: Rgb = (255, 210, 10);
    let green: Rgb = (100, 240, 40);
    let cyan: Rgb = (10, 200, 245);
    let blue: Rgb = (60, 30, 240);
    let magenta: Rgb = (240, 80, 220);
    let tris = [
        tri(
            p(0, 0, ox, oy, u),
            p(12, 0, ox, oy, u),
            p(0, 12, ox, oy, u),
            red,
        ),
        tri(
            p(12, 0, ox, oy, u),
            p(24, 0, ox, oy, u),
            p(24, 8, ox, oy, u),
            orange,
        ),
        tri(
            p(24, 0, ox, oy, u),
            p(36, 0, ox, oy, u),
            p(36, 12, ox, oy, u),
            yellow,
        ),
        tri(
            p(36, 12, ox, oy, u),
            p(40, 20, ox, oy, u),
            p(36, 28, ox, oy, u),
            green,
        ),
        tri(
            p(36, 12, ox, oy, u),
            p(40, 20, ox, oy, u),
            p(32, 20, ox, oy, u),
            cyan,
        ),
        tri(
            p(36, 28, ox, oy, u),
            p(40, 20, ox, oy, u),
            p(32, 20, ox, oy, u),
            blue,
        ),
        tri(
            p(36, 28, ox, oy, u),
            p(36, 40, ox, oy, u),
            p(24, 40, ox, oy, u),
            magenta,
        ),
        tri(
            p(24, 40, ox, oy, u),
            p(12, 40, ox, oy, u),
            p(16, 32, ox, oy, u),
            red,
        ),
        tri(
            p(12, 40, ox, oy, u),
            p(0, 40, ox, oy, u),
            p(0, 28, ox, oy, u),
            orange,
        ),
        tri(
            p(0, 28, ox, oy, u),
            p(0, 12, ox, oy, u),
            p(8, 20, ox, oy, u),
            yellow,
        ),
        tri(
            p(0, 12, ox, oy, u),
            p(12, 12, ox, oy, u),
            p(8, 20, ox, oy, u),
            green,
        ),
        tri(
            p(0, 28, ox, oy, u),
            p(12, 28, ox, oy, u),
            p(8, 20, ox, oy, u),
            cyan,
        ),
        tri(
            p(0, 0, sx, sy, u),
            p(14, 0, sx, sy, u),
            p(8, 8, sx, sy, u),
            blue,
        ),
        tri(
            p(14, 0, sx, sy, u),
            p(28, 0, sx, sy, u),
            p(22, 8, sx, sy, u),
            magenta,
        ),
        tri(
            p(28, 0, sx, sy, u),
            p(40, 0, sx, sy, u),
            p(32, 10, sx, sy, u),
            red,
        ),
        tri(
            p(8, 8, sx, sy, u),
            p(0, 16, sx, sy, u),
            p(10, 20, sx, sy, u),
            orange,
        ),
        tri(
            p(10, 20, sx, sy, u),
            p(22, 20, sx, sy, u),
            p(16, 28, sx, sy, u),
            yellow,
        ),
        tri(
            p(22, 20, sx, sy, u),
            p(34, 20, sx, sy, u),
            p(28, 28, sx, sy, u),
            green,
        ),
        tri(
            p(34, 20, sx, sy, u),
            p(40, 30, sx, sy, u),
            p(30, 30, sx, sy, u),
            cyan,
        ),
        tri(
            p(30, 30, sx, sy, u),
            p(18, 30, sx, sy, u),
            p(24, 36, sx, sy, u),
            blue,
        ),
        tri(
            p(18, 30, sx, sy, u),
            p(6, 30, sx, sy, u),
            p(12, 38, sx, sy, u),
            magenta,
        ),
        tri(
            p(0, 40, sx, sy, u),
            p(12, 40, sx, sy, u),
            p(6, 32, sx, sy, u),
            red,
        ),
        tri(
            p(12, 40, sx, sy, u),
            p(26, 40, sx, sy, u),
            p(20, 32, sx, sy, u),
            orange,
        ),
        tri(
            p(26, 40, sx, sy, u),
            p(40, 40, sx, sy, u),
            p(34, 32, sx, sy, u),
            yellow,
        ),
    ];
    proof {
        assert(tris@ =~= triangle_scene(w, h));
    }
    tris
}

/// The framebuffer with each triangle, in order, filled with its color.
pub open spec fn paint_tris(v: FrameBufferView, tris: Seq<Tri>) -> FrameBufferView
    decreases tris.len(),
{
    if tris.len() == 0 {
        v
    } else {
        let prev = paint_tris(v, tris.drop_last());
        paint(prev, tri_sel(tris.last(), v.width, v.height), encoded(tris.last().color, v.format))
    }
}

/// The color pixel `(c, r)` shows once the triangles are filled in order
/// over a background of color `bg`: that of the last triangle covering it,
/// or `bg`.
pub open spec fn tri_color_at(tris: Seq<Tri>, w: usize, h: usize, c: int, r: int, bg: Rgb) -> Rgb
    decreases tris.len(),
{
    if tris.len() == 0 {
        bg
    } else if tri_sel(tris.last(), w, h)(c, r) {
        tris.last().color
    } else {
        tri_color_at(tris.drop_last(), w, h, c, r, bg)
    }
}

/// Filling triangles keeps the framebuffer's geometry and size.
proof fn lemma_tris_keep_shape(v: FrameBufferView, tris: Seq<Tri>)
    ensures
        paint_tris(v, tris) == (FrameBufferView { bytes: paint_tris(v, tris).bytes, ..v }),
        paint_tris(v, tris).bytes.len() == v.bytes.len(),
    decreases tris.len(),
{
    if tris.len() > 0 {
        lemma_tris_keep_shape(v, tris.drop_last());
        let prev = paint_tris(v, tris.drop_last());
        lemma_paint_shape(prev, tri_sel(tris.last(), v.width, v.height), encoded(tris.last().color, v.format));
        reveal(paint);
    }
}

/// In a framebuffer with columns, rows and pixels that do not overlap, each
/// pixel in the buffer ends up in the color of the last triangle covering
/// it, or keeps its old color when none covers it.
proof fn lemma_tris_pixel(v: FrameBufferView, tris: Seq<Tri>, c: int, r: int, k: int, bg: Rgb)
    requires
        layout_ok(v),
        v.width > 0,
        v.height > 0,
        0 <= c < v.width,
        0 <= r < v.height,
        0 <= k < 4,
        pixel_offset(v, c, r) + 4 <= v.bytes.len(),
        v.bytes.subrange(pixel_offset(v, c, r), pixel_offset(v, c, r) + 4) == encoded(bg, v.format),
    ensures
        paint_tris(v, tris).bytes[pixel_offset(v, c, r) + k] == encoded(
            tri_color_at(tris, v.width, v.height, c, r, bg),
            v.format,
        )[k],
    decreases tris.len(),
{
    if tris.len() == 0 {
        assert(v.bytes[pixel_offset(v, c, r) + k] == v.bytes.subrange(
            pixel_offset(v, c, r),
            pixel_offset(v, c, r) + 4,
        )[k]);
    } else {
        let prev = paint_tris(v, tris.drop_last());
        lemma_tris_pixel(v, tris.drop_last(), c, r, k, bg);
        lemma_tris_keep_shape(v, tris.drop_last());
        let sel = tri_sel(tris.last(), v.width, v.height);
        assert forall|c2: int, r2: int| #[trigger] sel(c2, r2) implies c2 < prev.width by {}
        lemma_paint_layout(prev, sel, encoded(tris.last().color, v.format), c, r, k);
    }
}

/// Each pixel of the picture after `draw_pieces` shows the color of the last
/// drawn triangle covering it, or the background: on a framebuffer with
/// columns, rows and pixels that do not overlap, the four bytes of every
/// pixel in the buffer encode `tri_color_at` over the first `n` triangles.
pub proof fn lemma_picture_pixel(v: FrameBufferView, n: int, c: int, r: int, k: int)
    requires
        layout_ok(v),
        v.width > 0,
        v.height > 0,
        0 <= n <= TOTAL_TRIANGLES,
        0 <= c < v.width,
        0 <= r < v.height,
        0 <= k < 4,
        pixel_offset(v, c, r) + 4 <= v.bytes.len(),
    ensures
        paint_tris(
            paint(v, on_screen(v), encoded(BG, v.format)),
            triangle_scene(v.width, v.height).take(n),
        ).bytes[pixel_offset(v, c, r) + k] == encoded(
            tri_color_at(triangle_scene(v.width, v.height).take(n), v.width, v.height, c, r, BG),
            v.format,
        )[k],
{
    let bg = encoded(BG, v.format);
    let cl = paint(v, on_screen(v), bg);
    lemma_paint_shape(v, on_screen(v), bg);
    assert forall|j: int| 0 <= j < 4 implies #[trigger] cl.bytes[pixel_offset(v, c, r) + j] == bg[j] by {
        lemma_paint_layout(v, on_screen(v), bg, c, r, j);
    }
    assert(bg.len() == 4);
    let o = pixel_offset(v, c, r);
    assert forall|j: int| 0 <= j < 4 implies #[trigger] cl.bytes.subrange(o, o + 4)[j] == bg[j] by {
        assert(cl.bytes.subrange(o, o + 4)[j] == cl.bytes[o + j]);
    }
    assert(cl.bytes.subrange(o, o + 4) =~= bg);
    lemma_tris_pixel(cl, triangle_scene(v.width, v.height).take(n), c, r, k, BG);
}

/// Number of triangles shown once application `app_index` has been loaded:
/// three more per application, at most all 24.
pub open spec fn pieces_shown(app_index: int) -> int {
    let n = (app_index + 1) * 3;
    if n < TOTAL_TRIANGLES {
        n
    } else {
        TOTAL_TRIANGLES as int
    }
}

/// Returns how many triangles to show once application `app_index` has been
/// loaded.
pub fn pieces_for_app(app_index: usize) -> (n: usize)
    requires
        (app_index + 1) * CHUNK_SIZE <= usize::MAX,
    ensures
        n == pieces_shown(app_index as int),
{
    let n = (app_index + 1) * CHUNK_SIZE;
    if n < TOTAL_TRIANGLES {
        n
    } else {
        TOTAL_TRIANGLES
    }
}

/// Clears the framebuffer to the background and fills the first `count`
/// triangles of the picture (all 24 when `count` is larger).
pub fn draw_pieces(fb: &mut FrameBuffer, count: usize)
    requires
        addressable(old(fb)@),
        count > 0 ==> visit_fits(old(fb)@),
        picture_fits(old(fb)@.width, old(fb)@.height),
        first_triangles_fit(old(fb)@.width, old(fb)@.height, count as int),
    ensures
        same_shape(final(fb)@, old(fb)@),
        final(fb)@ == paint_tris(
            paint(old(fb)@, on_screen(old(fb)@), encoded(BG, old(fb)@.format)),
            triangle_scene(old(fb)@.width, old(fb)@.height).take(
                if count < TOTAL_TRIANGLES { count as int } else { TOTAL_TRIANGLES as int },
            ),
        ),
{
    let ghost v0 = fb@;
    clear(fb, BG);
    let ghost v1 = fb@;
    let tris = build_triangles(fb);
    let n = if count < TOTAL_TRIANGLES {
        count
    } else {
        TOTAL_TRIANGLES
    };
    let ghost scene = triangle_scene(v0.width, v0.height);
    proof {
        assert(scene.take(0) =~= Seq::<Tri>::empty());
    }
    let mut k: usize = 0;
    while k < n
        invariant
            k <= n <= TOTAL_TRIANGLES,
            n <= count,
            same_shape(fb@, v0),
            same_shape(v1, v0),
            count > 0 ==> visit_fits(v0),
            picture_fits(v0.width, v0.height),
            first_triangles_fit(v0.width, v0.height, count as int),
            tris@ == scene,
            scene == triangle_scene(v0.width, v0.height),
            v1 == paint(v0, on_screen(v0), encoded(BG, v0.format)),
            fb@ == paint_tris(
                v1,
                scene.take(k as int),
            ),
        decreases n - k,
    {
        proof {
            assert(tri_fits(scene[k as int], v0.width, v0.height));
        }
        fill_triangle(fb, &tris[k]);
        proof {
            assert(scene.take(k + 1).drop_last() =~= scene.take(k as int));
        }
        k += 1;
    }
}

} // verus!
