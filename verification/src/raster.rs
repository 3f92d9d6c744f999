use vstd::prelude::*;
use vstd::arithmetic::div_mod::lemma_fundamental_div_mod_converse;
use vstd::arithmetic::mul::{lemma_mul_inequality, lemma_mul_nonnegative, lemma_mul_is_commutative};
use crate::display::{FrameBuffer, FrameBufferView, PixelFormat, pixel_offset, lemma_frame_buffer_view};

verus! {

broadcast use lemma_frame_buffer_view;

/// A color as red, green and blue intensities.
pub type Rgb = (u8, u8, u8);

/// The four bytes that store `c` in format `fmt`: the 32-bit pixel word, least
/// significant byte first.
pub open spec fn encoded(c: Rgb, fmt: PixelFormat) -> Seq<u8> {
    match fmt {
        PixelFormat::Xrgb8888 => seq![c.2, c.1, c.0, 0x00u8],
        PixelFormat::Argb8888 => seq![c.2, c.1, c.0, 0xFFu8],
        PixelFormat::Bgrx8888 => seq![0x00u8, c.0, c.1, c.2],
        PixelFormat::Bgra8888 => seq![0xFFu8, c.0, c.1, c.2],
        PixelFormat::Unknown => seq![c.2, c.1, c.0, 0x00u8],
    }
}

/// Encodes `color` as the four bytes of one pixel in format `fmt`.
pub fn encode(color: Rgb, fmt: PixelFormat) -> (px: [u8; 4])
    ensures
        px@ == encoded(color, fmt),
{
    let (r, g, b) = color;
    let px = match fmt {
        PixelFormat::Xrgb8888 => [b, g, r, 0x00],
        PixelFormat::Argb8888 => [b, g, r, 0xFF],
        PixelFormat::Bgrx8888 => [0x00, r, g, b],
        PixelFormat::Bgra8888 => [0xFF, r, g, b],
        PixelFormat::Unknown => [b, g, r, 0x00],
    };
    proof {
        assert(px@ =~= encoded(color, fmt));
    }
    px
}

/// Pixels are at least four bytes wide and rows do not overlap, so each byte
/// belongs to at most one pixel.
pub open spec fn layout_ok(v: FrameBufferView) -> bool {
    v.bytes_per_pixel >= 4 && v.stride >= v.width * v.bytes_per_pixel
}

/// The offsets of the pixels in the first `rows` rows and `cols` columns, and
/// four bytes past them, fit in `usize`.
pub open spec fn offsets_fit(v: FrameBufferView, cols: int, rows: int) -> bool {
    rows <= 0 || ((rows - 1) * v.stride <= usize::MAX && (cols <= 0 || pixel_offset(
        v,
        cols - 1,
        rows - 1,
    ) + 4 <= usize::MAX))
}

/// Every pixel offset of the framebuffer, and four bytes past it, fit in
/// `usize`.
pub open spec fn addressable(v: FrameBufferView) -> bool {
    offsets_fit(v, v.width as int, v.height as int)
}

/// The offsets of every pixel, and of pixel `(0, 0)` even in a framebuffer
/// without columns or rows, and four bytes past them, fit in `usize`.
pub open spec fn visit_fits(v: FrameBufferView) -> bool {
    offsets_fit(
        v,
        if v.width == 0 { 1 } else { v.width as int },
        if v.height == 0 { 1 } else { v.height as int },
    )
}

/// A framebuffer laid out as `from_scanout` builds it (four bytes per pixel,
/// rows packed back to back, `stride * height` within `usize`) has pixels
/// that do not overlap, and every drawing function can address it.
pub proof fn lemma_scanout_drawable(v: FrameBufferView)
    requires
        v.bytes_per_pixel == 4,
        v.stride == v.width * 4,
        v.stride * v.height <= usize::MAX,
    ensures
        layout_ok(v),
        addressable(v),
        visit_fits(v),
{
    let w = v.width as int;
    let h = v.height as int;
    let s = v.stride as int;
    let cols = if w == 0 { 1 } else { w };
    let rows = if h == 0 { 1 } else { h };
    assert(0 <= (rows - 1) * s <= usize::MAX && (rows - 1) * s + (cols - 1) * 4 + 4 <= usize::MAX)
        by (nonlinear_arith)
        requires
            s == w * 4,
            s * h <= usize::MAX,
            w >= 0,
            h >= 0,
            s <= usize::MAX,
            cols == if w == 0 { 1 } else { w },
            rows == if h == 0 { 1 } else { h },
    ;
    assert(offsets_fit(v, cols, rows));
    if w > 0 && h > 0 {
        assert(offsets_fit(v, w, h));
    }
}

/// Row of the pixel that byte `i` would belong to.
pub open spec fn row_of(v: FrameBufferView, i: int) -> int {
    i / v.stride as int
}

/// Column of the pixel that byte `i` would belong to.
pub open spec fn col_of(v: FrameBufferView, i: int) -> int {
    (i % v.stride as int) / v.bytes_per_pixel as int
}

/// Position of byte `i` inside its pixel.
pub open spec fn chan_of(v: FrameBufferView, i: int) -> int {
    (i % v.stride as int) % v.bytes_per_pixel as int
}

/// Pixel `(c, r)` is selected by `sel`, its four bytes lie in the buffer, and
/// byte `i` is one of them.
pub open spec fn covers(v: FrameBufferView, sel: spec_fn(int, int) -> bool, c: int, r: int, i: int) -> bool {
    &&& 0 <= c
    &&& 0 <= r
    &&& sel(c, r)
    &&& pixel_offset(v, c, r) <= i < pixel_offset(v, c, r) + 4
    &&& pixel_offset(v, c, r) + 4 <= v.bytes.len()
}

/// Pixel `(c2, r2)` comes no later than `(c, r)` when the rows are visited
/// top to bottom and each row left to right.
pub open spec fn no_later(c2: int, r2: int, c: int, r: int) -> bool {
    r2 < r || (r2 == r && c2 <= c)
}

/// `(c, r)` is the last pixel, in that order, of those `sel` selects that
/// cover byte `i`.
pub open spec fn last_cover(v: FrameBufferView, sel: spec_fn(int, int) -> bool, c: int, r: int, i: int) -> bool {
    &&& covers(v, sel, c, r, i)
    &&& forall|c2: int, r2: int| #[trigger] covers(v, sel, c2, r2, i) ==> no_later(c2, r2, c, r)
}

/// The framebuffer after the pixels that `sel` selects are written with `px`,
/// row by row from the top and each row from the left; pixels that would reach
/// past the end of the buffer are skipped. Each byte ends up as written by the
/// last pixel that covers it; bytes no pixel covers keep their value. (In a
/// framebuffer whose pixels do not overlap, see `lemma_paint_layout`.)
#[verifier::opaque]
pub open spec fn paint(v: FrameBufferView, sel: spec_fn(int, int) -> bool, px: Seq<u8>) -> FrameBufferView {
    FrameBufferView {
        bytes: Seq::new(
            v.bytes.len(),
            |i: int|
                if exists|c: int, r: int| #[trigger] last_cover(v, sel, c, r, i) {
                    let (c, r) = choose|c: int, r: int| #[trigger] last_cover(v, sel, c, r, i);
                    px[i - pixel_offset(v, c, r)]
                } else {
                    v.bytes[i]
                },
        ),
        ..v
    }
}

/// Same geometry, same number of bytes.
pub open spec fn same_shape(a: FrameBufferView, b: FrameBufferView) -> bool {
    &&& a.width == b.width
    &&& a.height == b.height
    &&& a.stride == b.stride
    &&& a.bytes_per_pixel == b.bytes_per_pixel
    &&& a.format == b.format
    &&& a.has_alpha == b.has_alpha
    &&& a.bytes.len() == b.bytes.len()
}

/// Selects every pixel of the framebuffer.
pub open spec fn on_screen(v: FrameBufferView) -> spec_fn(int, int) -> bool {
    |c: int, r: int| 0 <= c < v.width && 0 <= r < v.height
}

/// Selects the pixels of the `w` x `h` rectangle with top-left corner `(x, y)`.
pub open spec fn rect(x: int, y: int, w: int, h: int) -> spec_fn(int, int) -> bool {
    |c: int, r: int| x <= c < x + w && y <= r < y + h
}

/// Selects the pixels of the `w` x `h` rectangle with top-left corner `(x, y)`
/// that lie on the framebuffer.
pub open spec fn rect_on(v: FrameBufferView, x: int, y: int, w: int, h: int) -> spec_fn(int, int) -> bool {
    |c: int, r: int| x <= c < x + w && y <= r < y + h && c < v.width && r < v.height
}

/// The bytes of pixel `(col, row)` are where `row_of`, `col_of` and `chan_of`
/// say they are.
pub proof fn lemma_pixel_byte(v: FrameBufferView, col: int, row: int, k: int)
    requires
        layout_ok(v),
        0 <= col < v.width,
        0 <= row,
        0 <= k < 4,
    ensures
        row_of(v, pixel_offset(v, col, row) + k) == row,
        col_of(v, pixel_offset(v, col, row) + k) == col,
        chan_of(v, pixel_offset(v, col, row) + k) == k,
{
    let s = v.stride as int;
    let b = v.bytes_per_pixel as int;
    let i = pixel_offset(v, col, row) + k;
    lemma_mul_inequality(col, v.width - 1, b);
    assert((v.width - 1) * b == v.width * b - b) by (nonlinear_arith);
    assert(col * b + k < s);
    lemma_mul_nonnegative(col, b);
    lemma_mul_is_commutative(row, s);
    lemma_fundamental_div_mod_converse(i, s, row, col * b + k);
    lemma_fundamental_div_mod_converse(col * b + k, b, col, k);
}

/// Two pixels that are each the last to cover a byte are the same pixel.
proof fn lemma_last_cover_unique(
    v: FrameBufferView,
    sel: spec_fn(int, int) -> bool,
    c1: int,
    r1: int,
    c2: int,
    r2: int,
    i: int,
)
    requires
        last_cover(v, sel, c1, r1, i),
        last_cover(v, sel, c2, r2, i),
    ensures
        c1 == c2 && r1 == r2,
{
    assert(covers(v, sel, c2, r2, i));
    assert(covers(v, sel, c1, r1, i));
}

/// Byte `i` of a painted framebuffer: written by `(c, r)` when that is the
/// last pixel to cover it.
proof fn lemma_paint_byte_at(
    v: FrameBufferView,
    sel: spec_fn(int, int) -> bool,
    px: Seq<u8>,
    c: int,
    r: int,
    i: int,
)
    requires
        0 <= i < v.bytes.len(),
        last_cover(v, sel, c, r, i),
    ensures
        paint(v, sel, px).bytes[i] == px[i - pixel_offset(v, c, r)],
{
    reveal(paint);
    let (c1, r1) = choose|c1: int, r1: int| #[trigger] last_cover(v, sel, c1, r1, i);
    lemma_last_cover_unique(v, sel, c, r, c1, r1, i);
}

/// Byte `i` of a painted framebuffer: kept when no selected pixel covers it.
proof fn lemma_paint_byte_kept(v: FrameBufferView, sel: spec_fn(int, int) -> bool, px: Seq<u8>, i: int)
    requires
        0 <= i < v.bytes.len(),
        forall|c: int, r: int| !#[trigger] covers(v, sel, c, r, i),
    ensures
        paint(v, sel, px).bytes[i] == v.bytes[i],
{
    reveal(paint);
    assert(!exists|c: int, r: int| #[trigger] last_cover(v, sel, c, r, i));
}

/// Two selections that cover byte `i` with the same pixels leave the same
/// value in it.
proof fn lemma_paint_byte_same(
    v: FrameBufferView,
    sel: spec_fn(int, int) -> bool,
    sel2: spec_fn(int, int) -> bool,
    px: Seq<u8>,
    i: int,
)
    requires
        0 <= i < v.bytes.len(),
        forall|c: int, r: int| #[trigger] covers(v, sel, c, r, i) == covers(v, sel2, c, r, i),
    ensures
        paint(v, sel, px).bytes[i] == paint(v, sel2, px).bytes[i],
{
    reveal(paint);
    if exists|c: int, r: int| #[trigger] last_cover(v, sel, c, r, i) {
        let (c, r) = choose|c: int, r: int| #[trigger] last_cover(v, sel, c, r, i);
        assert forall|c2: int, r2: int| #[trigger] covers(v, sel2, c2, r2, i) implies no_later(c2, r2, c, r) by {
            assert(covers(v, sel, c2, r2, i));
        }
        assert(last_cover(v, sel2, c, r, i));
        lemma_paint_byte_at(v, sel, px, c, r, i);
        lemma_paint_byte_at(v, sel2, px, c, r, i);
    } else if exists|c: int, r: int| #[trigger] last_cover(v, sel2, c, r, i) {
        let (c, r) = choose|c: int, r: int| #[trigger] last_cover(v, sel2, c, r, i);
        assert forall|c2: int, r2: int| #[trigger] covers(v, sel, c2, r2, i) implies no_later(c2, r2, c, r) by {
            assert(covers(v, sel2, c2, r2, i));
        }
        assert(last_cover(v, sel, c, r, i));
    }
}

/// A set of integers below `n` that is not empty has a largest element.
proof fn lemma_largest(q: spec_fn(int) -> bool, n: int, k: int) -> (m: int)
    requires
        q(k),
        forall|j: int| #[trigger] q(j) ==> j < n,
    ensures
        q(m),
        forall|j: int| #[trigger] q(j) ==> j <= m,
    decreases n - k,
{
    if q(n - 1) {
        n - 1
    } else if k == n - 1 {
        k
    } else {
        assert(k < n - 1);
        lemma_largest(q, n - 1, k)
    }
}

/// A byte that a selected pixel covers has a last pixel covering it when the
/// selection is bounded.
proof fn lemma_last_cover_exists(
    v: FrameBufferView,
    sel: spec_fn(int, int) -> bool,
    w: int,
    h: int,
    c0: int,
    r0: int,
    i: int,
) -> (cr: (int, int))
    requires
        covers(v, sel, c0, r0, i),
        forall|c: int, r: int| #[trigger] sel(c, r) ==> c < w && r < h,
    ensures
        last_cover(v, sel, cr.0, cr.1, i),
{
    let rows = |r: int| exists|c: int| #[trigger] covers(v, sel, c, r, i);
    assert(rows(r0));
    let r = lemma_largest(rows, h, r0);
    let c1 = choose|c: int| #[trigger] covers(v, sel, c, r, i);
    let cols = |c: int| covers(v, sel, c, r, i);
    assert(cols(c1));
    let c = lemma_largest(cols, w, c1);
    assert forall|c2: int, r2: int| #[trigger] covers(v, sel, c2, r2, i) implies no_later(c2, r2, c, r) by {
        assert(rows(r2));
        if r2 == r {
            assert(cols(c2));
        }
    }
    (c, r)
}

/// Painting a bounded selection gives the same result on two framebuffers
/// of one geometry whose bytes differ only where a selected pixel writes.
pub proof fn lemma_paint_overwrites(
    v: FrameBufferView,
    v2: FrameBufferView,
    sel: spec_fn(int, int) -> bool,
    px: Seq<u8>,
    w: int,
    h: int,
)
    requires
        v2 == (FrameBufferView { bytes: v2.bytes, ..v }),
        v2.bytes.len() == v.bytes.len(),
        forall|c: int, r: int| #[trigger] sel(c, r) ==> c < w && r < h,
        forall|i: int|
            0 <= i < v.bytes.len() && v.bytes[i] != v2.bytes[i] ==> exists|c: int, r: int|
                #[trigger] covers(v, sel, c, r, i),
    ensures
        paint(v, sel, px) == paint(v2, sel, px),
{
    let p1 = paint(v, sel, px).bytes;
    let p2 = paint(v2, sel, px).bytes;
    assert(p1.len() == v.bytes.len() && p2.len() == v.bytes.len()) by {
        reveal(paint);
    }
    assert forall|i: int| 0 <= i < p1.len() implies p1[i] == p2[i] by {
        assert forall|c: int, r: int| #[trigger] covers(v, sel, c, r, i) == covers(v2, sel, c, r, i) by {}
        if exists|c: int, r: int| #[trigger] covers(v, sel, c, r, i) {
            let (c0, r0) = choose|c: int, r: int| #[trigger] covers(v, sel, c, r, i);
            let (c, r) = lemma_last_cover_exists(v, sel, w, h, c0, r0, i);
            assert forall|c2: int, r2: int| #[trigger] covers(v2, sel, c2, r2, i) implies no_later(c2, r2, c, r) by {
                assert(covers(v, sel, c2, r2, i));
            }
            lemma_paint_byte_at(v, sel, px, c, r, i);
            lemma_paint_byte_at(v2, sel, px, c, r, i);
        } else {
            assert forall|c: int, r: int| !#[trigger] covers(v2, sel, c, r, i) by {
                assert(!covers(v, sel, c, r, i));
            }
            lemma_paint_byte_kept(v, sel, px, i);
            lemma_paint_byte_kept(v2, sel, px, i);
        }
    }
    assert(p1 =~= p2);
    reveal(paint);
}

/// Painting leaves every byte that no selected pixel covers as it was.
pub proof fn lemma_paint_keeps(v: FrameBufferView, sel: spec_fn(int, int) -> bool, px: Seq<u8>, i: int)
    requires
        0 <= i < v.bytes.len(),
        forall|c: int, r: int| !#[trigger] covers(v, sel, c, r, i),
    ensures
        paint(v, sel, px).bytes[i] == v.bytes[i],
{
    lemma_paint_byte_kept(v, sel, px, i);
}

/// Painting one more pixel: writing `px` at the offset of pixel `(col, row)`,
/// when it fits, turns the framebuffer painted with `sel` into the one painted
/// with `sel` and that pixel, provided every pixel of `sel` comes before it.
pub proof fn lemma_paint_pixel(
    v: FrameBufferView,
    sel: spec_fn(int, int) -> bool,
    sel2: spec_fn(int, int) -> bool,
    px: Seq<u8>,
    col: int,
    row: int,
    bytes: Seq<u8>,
)
    requires
        0 <= col,
        0 <= row,
        px.len() == 4,
        forall|c: int, r: int| #[trigger] sel2(c, r) == (sel(c, r) || (c == col && r == row)),
        forall|c: int, r: int| 0 <= c && 0 <= r && #[trigger] sel(c, r) ==> r < row || (r == row && c < col),
        bytes == if pixel_offset(v, col, row) + 4 <= v.bytes.len() {
            paint(v, sel, px).bytes.update(pixel_offset(v, col, row), px[0]).update(
                pixel_offset(v, col, row) + 1,
                px[1],
            ).update(pixel_offset(v, col, row) + 2, px[2]).update(
                pixel_offset(v, col, row) + 3,
                px[3],
            )
        } else {
            paint(v, sel, px).bytes
        },
    ensures
        bytes == paint(v, sel2, px).bytes,
{
    let off = pixel_offset(v, col, row);
    let p1 = paint(v, sel, px).bytes;
    let p2 = paint(v, sel2, px).bytes;
    assert(p1.len() == v.bytes.len() && p2.len() == v.bytes.len()) by {
        reveal(paint);
    }
    assert forall|i: int| 0 <= i < bytes.len() implies bytes[i] == p2[i] by {
        if off <= i < off + 4 && off + 4 <= v.bytes.len() {
            assert forall|c2: int, r2: int| #[trigger] covers(v, sel2, c2, r2, i) implies no_later(
                c2,
                r2,
                col,
                row,
            ) by {
                if !(c2 == col && r2 == row) {
                    assert(sel(c2, r2));
                }
            }
            assert(covers(v, sel2, col, row, i));
            assert(last_cover(v, sel2, col, row, i));
            lemma_paint_byte_at(v, sel2, px, col, row, i);
        } else {
            assert forall|c: int, r: int| #[trigger] covers(v, sel, c, r, i) == covers(v, sel2, c, r, i) by {
            }
            lemma_paint_byte_same(v, sel, sel2, px, i);
        }
    }
    assert(bytes =~= p2);
}

/// In a framebuffer whose pixels do not overlap, painting with a selection of
/// columns of the screen sets the four bytes of each selected pixel that lies
/// in the buffer to `px` and keeps those of every other pixel.
pub proof fn lemma_paint_layout(
    v: FrameBufferView,
    sel: spec_fn(int, int) -> bool,
    px: Seq<u8>,
    col: int,
    row: int,
    k: int,
)
    requires
        layout_ok(v),
        forall|c: int, r: int| #[trigger] sel(c, r) ==> c < v.width,
        0 <= col < v.width,
        0 <= row,
        0 <= k < 4,
        pixel_offset(v, col, row) + 4 <= v.bytes.len(),
    ensures
        paint(v, sel, px).bytes[pixel_offset(v, col, row) + k] == if sel(col, row) {
            px[k]
        } else {
            v.bytes[pixel_offset(v, col, row) + k]
        },
{
    let i = pixel_offset(v, col, row) + k;
    lemma_mul_nonnegative(row, v.stride as int);
    lemma_mul_nonnegative(col, v.bytes_per_pixel as int);
    lemma_pixel_byte(v, col, row, k);
    assert forall|c2: int, r2: int| #[trigger] covers(v, sel, c2, r2, i) implies c2 == col && r2 == row by {
        lemma_pixel_byte(v, c2, r2, i - pixel_offset(v, c2, r2));
    }
    if sel(col, row) {
        assert(covers(v, sel, col, row, i));
        assert(last_cover(v, sel, col, row, i));
        lemma_paint_byte_at(v, sel, px, col, row, i);
    } else {
        lemma_paint_byte_kept(v, sel, px, i);
    }
}

/// Painting with two selections that agree on every pixel gives the same
/// result.
pub proof fn lemma_paint_same(
    v: FrameBufferView,
    sel: spec_fn(int, int) -> bool,
    sel2: spec_fn(int, int) -> bool,
    px: Seq<u8>,
)
    requires
        forall|c: int, r: int| 0 <= c && 0 <= r ==> #[trigger] sel(c, r) == sel2(c, r),
    ensures
        paint(v, sel, px) == paint(v, sel2, px),
{
    let p1 = paint(v, sel, px).bytes;
    let p2 = paint(v, sel2, px).bytes;
    assert(p1.len() == v.bytes.len() && p2.len() == v.bytes.len()) by {
        reveal(paint);
    }
    assert forall|i: int| 0 <= i < p1.len() implies p1[i] == p2[i] by {
        assert forall|c: int, r: int| #[trigger] covers(v, sel, c, r, i) == covers(v, sel2, c, r, i) by {
        }
        lemma_paint_byte_same(v, sel, sel2, px, i);
    }
    assert(p1 =~= p2);
    reveal(paint);
}

/// Writes the four bytes `px` at `off` when they fit in `data`.
pub(crate) fn put_pixel(data: &mut [u8], off: usize, px: &[u8; 4])
    requires
        off + 4 <= usize::MAX,
    ensures
        final(data)@ == if off + 4 <= old(data)@.len() {
            old(data)@.update(off as int, px@[0]).update(off + 1, px@[1]).update(off + 2, px@[2]).update(
                off + 3,
                px@[3],
            )
        } else {
            old(data)@
        },
{
    if off + 4 <= data.len() {
        data[off] = px[0];
        data[off + 1] = px[1];
        data[off + 2] = px[2];
        data[off + 3] = px[3];
    }
}

/// Painting with a selection that holds for no pixel changes nothing.
pub proof fn lemma_paint_nothing(v: FrameBufferView, sel: spec_fn(int, int) -> bool, px: Seq<u8>)
    requires
        forall|c: int, r: int| 0 <= c && 0 <= r ==> !#[trigger] sel(c, r),
    ensures
        paint(v, sel, px) == v,
{
    let p = paint(v, sel, px).bytes;
    assert(p.len() == v.bytes.len()) by {
        reveal(paint);
    }
    assert forall|i: int| 0 <= i < p.len() implies p[i] == v.bytes[i] by {
        assert forall|c: int, r: int| !#[trigger] covers(v, sel, c, r, i) by {
        }
        lemma_paint_byte_kept(v, sel, px, i);
    }
    assert(p =~= v.bytes);
    reveal(paint);
}

/// The end, exclusive, of a span of `len` starting at `start` that is cut off
/// at `limit` and at the largest `usize`.
pub open spec fn clip_end(start: int, len: int, limit: int) -> int {
    let end = if start + len > usize::MAX {
        usize::MAX as int
    } else {
        start + len
    };
    if limit < end {
        limit
    } else {
        end
    }
}

/// The offsets `fill_rect` computes fit in `usize`: those of the rows and
/// pixels of the rectangle once it is cut to the framebuffer.
pub open spec fn rect_fits(v: FrameBufferView, x: int, y: int, w: int, h: int) -> bool {
    let x1 = clip_end(x, w, v.width as int);
    let y1 = clip_end(y, h, v.height as int);
    w != 0 && h != 0 && x < x1 && y < y1 ==> offsets_fit(v, x1, y1)
}

pub(crate) proof fn lemma_offset_bounds(v: FrameBufferView, col: int, row: int, x1: int, y1: int)
    requires
        0 <= col < x1,
        0 <= row < y1,
        offsets_fit(v, x1, y1),
    ensures
        0 <= row * v.stride <= (y1 - 1) * v.stride <= usize::MAX,
        0 <= col * v.bytes_per_pixel,
        pixel_offset(v, col, row) + 4 <= pixel_offset(v, x1 - 1, y1 - 1) + 4 <= usize::MAX,
{
    lemma_mul_inequality(row, y1 - 1, v.stride as int);
    lemma_mul_inequality(col, x1 - 1, v.bytes_per_pixel as int);
    lemma_mul_nonnegative(row, v.stride as int);
    lemma_mul_nonnegative(col, v.bytes_per_pixel as int);
}

/// Sets every pixel of columns `x0..x1` of rows `y0..y1` to `px`, row by row.
fn paint_block(fb: &mut FrameBuffer, x0: usize, x1: usize, y0: usize, y1: usize, px: &[u8; 4])
    requires
        x1 <= old(fb)@.width,
        y1 <= old(fb)@.height,
        y0 < y1 ==> (y1 - 1) * old(fb)@.stride <= usize::MAX,
        x0 < x1 && y0 < y1 ==> offsets_fit(old(fb)@, x1 as int, y1 as int),
    ensures
        same_shape(final(fb)@, old(fb)@),
        final(fb)@ == paint(old(fb)@, rect(x0 as int, y0 as int, x1 - x0, y1 - y0), px@),
{
    let ghost v0 = fb@;
    let stride = fb.stride;
    let bpp = fb.bytes_per_pixel;
    let data = fb.as_bytes_mut();
    let mut yy = y0;
    proof {
        lemma_paint_nothing(v0, rect(x0 as int, y0 as int, x1 - x0, 0), px@);
    }
    while yy < y1
        invariant
            y0 <= yy <= y1 || (y1 < y0 && yy == y0),
            data@.len() == v0.bytes.len(),
            stride == v0.stride,
            bpp == v0.bytes_per_pixel,
            x1 <= v0.width,
            y1 <= v0.height,
            y0 < y1 ==> (y1 - 1) * v0.stride <= usize::MAX,
            x0 < x1 && y0 < y1 ==> offsets_fit(v0, x1 as int, y1 as int),
            data@ == paint(v0, rect(x0 as int, y0 as int, x1 - x0, yy - y0), px@).bytes,
        decreases y1 - yy,
    {
        proof {
            lemma_mul_inequality(yy as int, y1 - 1, stride as int);
            lemma_mul_nonnegative(yy as int, stride as int);
        }
        let row = yy * stride;
        let mut xx = x0;
        proof {
            lemma_paint_same(
                v0,
                rect(x0 as int, y0 as int, x1 - x0, yy - y0),
                |c: int, r: int| (x0 <= c < x1 && y0 <= r < yy) || (r == yy && x0 <= c < xx),
                px@,
            );
        }
        while xx < x1
            invariant
                y0 <= yy < y1,
                x0 <= xx <= x1 || (x1 < x0 && xx == x0),
                data@.len() == v0.bytes.len(),
                stride == v0.stride,
                bpp == v0.bytes_per_pixel,
                row == yy * stride,
                x1 <= v0.width,
                y1 <= v0.height,
                x0 < x1 ==> offsets_fit(v0, x1 as int, y1 as int),
                data@ == paint(
                    v0,
                    |c: int, r: int| (x0 <= c < x1 && y0 <= r < yy) || (r == yy && x0 <= c < xx),
                    px@,
                ).bytes,
            decreases x1 - xx,
        {
            proof {
                lemma_offset_bounds(v0, xx as int, yy as int, x1 as int, y1 as int);
            }
            let off = row + xx * bpp;
            put_pixel(data, off, px);
            proof {
                let sel = |c: int, r: int| (x0 <= c < x1 && y0 <= r < yy) || (r == yy && x0 <= c < xx);
                let sel2 = |c: int, r: int|
                    (x0 <= c < x1 && y0 <= r < yy) || (r == yy && x0 <= c < xx + 1);
                lemma_paint_pixel(v0, sel, sel2, px@, xx as int, yy as int, data@);
            }
            xx += 1;
        }
        proof {
            lemma_paint_same(
                v0,
                |c: int, r: int|
                    (x0 <= c < x1 && y0 <= r < yy) || (r == yy && x0 <= c < if x1 < x0 { x0 } else { x1 }),
                rect(x0 as int, y0 as int, x1 - x0, yy + 1 - y0),
                px@,
            );
        }
        yy += 1;
    }
    proof {
        lemma_paint_same(
            v0,
            rect(x0 as int, y0 as int, x1 - x0, yy - y0),
            rect(x0 as int, y0 as int, x1 - x0, y1 - y0),
            px@,
        );
        lemma_paint_shape(v0, rect(x0 as int, y0 as int, x1 - x0, y1 - y0), px@);
    }
}

/// Fills the whole framebuffer with `color`.
pub fn clear(fb: &mut FrameBuffer, color: Rgb)
    requires
        addressable(old(fb)@),
    ensures
        same_shape(final(fb)@, old(fb)@),
        final(fb)@ == paint(old(fb)@, on_screen(old(fb)@), encoded(color, old(fb)@.format)),
{
    let ghost v0 = fb@;
    let w = fb.width;
    let h = fb.height;
    let px = encode(color, fb.format);
    paint_block(fb, 0, w, 0, h, &px);
    proof {
        lemma_paint_same(v0, rect(0, 0, w as int, h as int), on_screen(v0), px@);
    }
}

/// Fills the `w` x `h` rectangle with top-left corner `(x, y)` with `color`,
/// cut to the framebuffer.
pub fn fill_rect(fb: &mut FrameBuffer, x: usize, y: usize, w: usize, h: usize, color: Rgb)
    requires
        rect_fits(old(fb)@, x as int, y as int, w as int, h as int),
    ensures
        same_shape(final(fb)@, old(fb)@),
        final(fb)@ == paint(
            old(fb)@,
            rect_on(old(fb)@, x as int, y as int, w as int, h as int),
            encoded(color, old(fb)@.format),
        ),
{
    let ghost v0 = fb@;
    let ghost sel = rect_on(v0, x as int, y as int, w as int, h as int);
    let ghost px_spec = encoded(color, v0.format);
    if w == 0 || h == 0 {
        proof {
            lemma_paint_nothing(v0, sel, px_spec);
        }
        return;
    }
    let sx = x.saturating_add(w);
    let sy = y.saturating_add(h);
    let max_x = if fb.width < sx {
        fb.width
    } else {
        sx
    };
    let max_y = if fb.height < sy {
        fb.height
    } else {
        sy
    };
    if x >= max_x || y >= max_y {
        proof {
            lemma_paint_nothing(v0, sel, px_spec);
        }
        return;
    }
    let px = encode(color, fb.format);
    proof {
        lemma_mul_inequality(0, (max_y - 1) as int, v0.stride as int);
    }
    paint_block(fb, x, max_x, y, max_y, &px);
    proof {
        lemma_paint_same(v0, rect(x as int, y as int, max_x - x, max_y - y), sel, px_spec);
    }
}

/// One `fill_rect` call: a rectangle and its color.
pub struct RectOp {
    pub x: int,
    pub y: int,
    pub w: int,
    pub h: int,
    pub color: Rgb,
}

/// The rectangle operation `(x, y, w, h, color)`.
pub open spec fn rect_op(x: int, y: int, w: int, h: int, color: Rgb) -> RectOp {
    RectOp { x, y, w, h, color }
}

/// The framebuffer after the rectangles are filled one after another.
pub open spec fn paint_rects(v: FrameBufferView, ops: Seq<RectOp>) -> FrameBufferView
    decreases ops.len(),
{
    if ops.len() == 0 {
        v
    } else {
        let prev = paint_rects(v, ops.drop_last());
        let op = ops.last();
        paint(prev, rect_on(prev, op.x, op.y, op.w, op.h), encoded(op.color, v.format))
    }
}

/// Filling one more rectangle extends the list of filled rectangles.
pub proof fn lemma_paint_rects_push(v: FrameBufferView, ops: Seq<RectOp>, op: RectOp)
    ensures
        paint_rects(v, ops.push(op)) == paint(
            paint_rects(v, ops),
            rect_on(paint_rects(v, ops), op.x, op.y, op.w, op.h),
            encoded(op.color, v.format),
        ),
{
    assert(ops.push(op).drop_last() =~= ops);
}

/// Painting keeps the framebuffer's geometry and size.
pub broadcast proof fn lemma_paint_shape(v: FrameBufferView, sel: spec_fn(int, int) -> bool, px: Seq<u8>)
    ensures
        #[trigger] same_shape(paint(v, sel, px), v),
        paint(v, sel, px).format == v.format,
        paint(v, sel, px).width == v.width,
        paint(v, sel, px).height == v.height,
        paint(v, sel, px).stride == v.stride,
        paint(v, sel, px).bytes_per_pixel == v.bytes_per_pixel,
        paint(v, sel, px).bytes.len() == v.bytes.len(),
{
    reveal(paint);
}

/// Filling rectangles keeps the framebuffer's geometry and size.
pub proof fn lemma_paint_rects_shape(v: FrameBufferView, ops: Seq<RectOp>)
    ensures
        same_shape(paint_rects(v, ops), v),
    decreases ops.len(),
{
    if ops.len() > 0 {
        lemma_paint_rects_shape(v, ops.drop_last());
        let op = ops.last();
        let prev = paint_rects(v, ops.drop_last());
        lemma_paint_shape(prev, rect_on(prev, op.x, op.y, op.w, op.h), encoded(op.color, v.format));
    }
}

/// In an addressable framebuffer every rectangle can be filled without
/// overflow.
pub proof fn lemma_rect_fits(v: FrameBufferView, x: int, y: int, w: int, h: int)
    requires
        addressable(v),
        0 <= x,
        0 <= y,
    ensures
        rect_fits(v, x, y, w, h),
{
    let x1 = clip_end(x, w, v.width as int);
    let y1 = clip_end(y, h, v.height as int);
    if w != 0 && h != 0 && x < x1 && y < y1 {
        lemma_mul_inequality(y1 - 1, v.height - 1, v.stride as int);
        lemma_mul_inequality(x1 - 1, v.width - 1, v.bytes_per_pixel as int);
    }
}

/// Filling the rectangles of `a` and then those of `b` is filling those of
/// `a + b`.
pub proof fn lemma_paint_rects_append(v: FrameBufferView, a: Seq<RectOp>, b: Seq<RectOp>)
    ensures
        paint_rects(paint_rects(v, a), b) == paint_rects(v, a + b),
    decreases b.len(),
{
    lemma_paint_rects_shape(v, a);
    if b.len() == 0 {
        assert(a + b =~= a);
    } else {
        lemma_paint_rects_append(v, a, b.drop_last());
        assert((a + b).drop_last() =~= a + b.drop_last());
    }
}

/// The rectangle lists of `s`, one after another.
pub open spec fn concat_ops(s: Seq<Seq<RectOp>>) -> Seq<RectOp>
    decreases s.len(),
{
    if s.len() == 0 {
        Seq::empty()
    } else {
        concat_ops(s.drop_last()) + s.last()
    }
}

/// Appending one more list to a concatenation.
pub proof fn lemma_concat_ops_step(s: Seq<Seq<RectOp>>, k: int)
    requires
        0 <= k < s.len(),
    ensures
        concat_ops(s.take(k + 1)) == concat_ops(s.take(k)) + s[k],
{
    assert(s.take(k + 1).drop_last() =~= s.take(k));
}

} // verus!
