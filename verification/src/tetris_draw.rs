use vstd::prelude::*;
use crate::display::{FrameBuffer, FrameBufferView, lemma_frame_buffer_view};
use crate::raster::{
    Rgb, RectOp, rect_op, clear, fill_rect, paint, paint_rects, on_screen, encoded,
    addressable, same_shape, lemma_paint_rects_push, lemma_paint_rects_shape, lemma_rect_fits,
    lemma_paint_rects_append, concat_ops, lemma_concat_ops_step,
};
use crate::board::{Board, W, H, rows_of, cells_at_most, on_board, lemma_rows_of_shape};
use crate::shapes::{shape_offsets, shape_dx, shape_dy, lemma_shape_in_box};
use crate::tetris::{Piece, Tetris};

verus! {

broadcast use lemma_frame_buffer_view, vstd::array::group_array_axioms, lemma_rows_of_shape;

/// The color of cell value `v`: 0 is empty, 1 to 7 are the seven kinds.
pub open spec fn palette(v: int) -> Rgb {
    if v == 1 {
        (90, 220, 255)
    } else if v == 2 {
        (70, 90, 255)
    } else if v == 3 {
        (255, 170, 70)
    } else if v == 4 {
        (255, 230, 90)
    } else if v == 5 {
        (110, 235, 110)
    } else if v == 6 {
        (195, 110, 255)
    } else if v == 7 {
        (255, 110, 120)
    } else {
        (0, 0, 0)
    }
}

/// Returns the color of cell value `v`.
pub fn color_of(v: usize) -> (c: Rgb)
    requires
        v < 8,
    ensures
        c == palette(v as int),
{
    match v {
        1 => (90, 220, 255),
        2 => (70, 90, 255),
        3 => (255, 170, 70),
        4 => (255, 230, 90),
        5 => (110, 235, 110),
        6 => (195, 110, 255),
        7 => (255, 110, 120),
        _ => (0, 0, 0),
    }
}

/// `a + d`, or 255 when that is larger.
pub open spec fn add_sat(a: u8, d: u8) -> u8 {
    if a + d > 255 {
        255
    } else {
        (a + d) as u8
    }
}

/// `a - d`, or 0 when that is negative.
pub open spec fn sub_sat(a: u8, d: u8) -> u8 {
    if a < d {
        0
    } else {
        (a - d) as u8
    }
}

/// Lightens each channel by `d`, stopping at 255.
pub fn brighten(color: Rgb, d: u8) -> (c: Rgb)
    ensures
        c == (add_sat(color.0, d), add_sat(color.1, d), add_sat(color.2, d)),
{
    let (r, g, b) = color;
    (r.saturating_add(d), g.saturating_add(d), b.saturating_add(d))
}

/// Darkens each channel by `d`, stopping at 0.
pub fn darken(color: Rgb, d: u8) -> (c: Rgb)
    ensures
        c == (sub_sat(color.0, d), sub_sat(color.1, d), sub_sat(color.2, d)),
{
    let (r, g, b) = color;
    (r.saturating_sub(d), g.saturating_sub(d), b.saturating_sub(d))
}

/// `a - b`, or 0 when `b` is larger.
pub open spec fn sat_sub(a: int, b: int) -> int {
    if a > b {
        a - b
    } else {
        0
    }
}

/// The rectangles of one block with its top-left corner at `(x, y)`: the
/// face inset by one pixel, a light band along the top and left, and a dark
/// band along the right and bottom.
pub open spec fn block_ops(x: int, y: int, cell: int, color: Rgb) -> Seq<RectOp> {
    let hi = (add_sat(color.0, 28), add_sat(color.1, 28), add_sat(color.2, 28));
    let lo = (sub_sat(color.0, 35), sub_sat(color.1, 35), sub_sat(color.2, 35));
    let s = sat_sub(cell, 2);
    seq![
        rect_op(x + 1, y + 1, s, s, color),
        rect_op(x + 1, y + 1, s, 2, hi),
        rect_op(x + 1, y + 1, 2, s, hi),
        rect_op(x + sat_sub(cell, 3), y + 1, 2, s, lo),
        rect_op(x + 1, y + sat_sub(cell, 3), s, 2, lo),
    ]
}

/// Draws one block (see `block_ops`).
pub fn draw_block(fb: &mut FrameBuffer, x: usize, y: usize, cell: usize, color: Rgb)
    requires
        addressable(old(fb)@),
        x + 1 <= usize::MAX,
        y + 1 <= usize::MAX,
        x + sat_sub(cell as int, 3) <= usize::MAX,
        y + sat_sub(cell as int, 3) <= usize::MAX,
    ensures
        same_shape(final(fb)@, old(fb)@),
        final(fb)@ == paint_rects(old(fb)@, block_ops(x as int, y as int, cell as int, color)),
{
    let ghost v0 = fb@;
    let ghost ops = block_ops(x as int, y as int, cell as int, color);
    proof {
        lemma_rect_fits(v0, x + 1, y + 1, sat_sub(cell as int, 2), sat_sub(cell as int, 2));
        lemma_rect_fits(v0, x + 1, y + 1, sat_sub(cell as int, 2), 2);
        lemma_rect_fits(v0, x + 1, y + 1, 2, sat_sub(cell as int, 2));
        lemma_rect_fits(v0, x + sat_sub(cell as int, 3), y + 1, 2, sat_sub(cell as int, 2));
        lemma_rect_fits(v0, x + 1, y + sat_sub(cell as int, 3), sat_sub(cell as int, 2), 2);
    }
    fill_rect(fb, x + 1, y + 1, cell.saturating_sub(2), cell.saturating_sub(2), color);
    let hi = brighten(color, 28);
    let lo = darken(color, 35);
    proof {
        lemma_paint_rects_push(v0, ops.take(0), ops[0]);
        assert(ops.take(0).push(ops[0]) =~= ops.take(1));
    }
    fill_rect(fb, x + 1, y + 1, cell.saturating_sub(2), 2, hi);
    proof {
        lemma_paint_rects_push(v0, ops.take(1), ops[1]);
        assert(ops.take(1).push(ops[1]) =~= ops.take(2));
    }
    fill_rect(fb, x + 1, y + 1, 2, cell.saturating_sub(2), hi);
    proof {
        lemma_paint_rects_push(v0, ops.take(2), ops[2]);
        assert(ops.take(2).push(ops[2]) =~= ops.take(3));
    }
    fill_rect(fb, x + cell.saturating_sub(3), y + 1, 2, cell.saturating_sub(2), lo);
    proof {
        lemma_paint_rects_push(v0, ops.take(3), ops[3]);
        assert(ops.take(3).push(ops[3]) =~= ops.take(4));
    }
    fill_rect(fb, x + 1, y + cell.saturating_sub(3), cell.saturating_sub(2), 2, lo);
    proof {
        lemma_paint_rects_push(v0, ops.take(4), ops[4]);
        assert(ops.take(4).push(ops[4]) =~= ops);
        assert(ops.take(0) =~= Seq::<RectOp>::empty());
    }
}

/// Side of a well cell in pixels: the largest that leaves room for two rows
/// above and below and twelve columns beside the well, at least 14.
pub open spec fn tetris_cell(w: usize, h: usize) -> int {
    let a = h as int / (H + 4) as int;
    let b = w as int / (W + 12) as int;
    let m = if a < b {
        a
    } else {
        b
    };
    if m > 14 {
        m
    } else {
        14
    }
}

/// Left edge of the well: a sixth of the width.
pub open spec fn tetris_ox(w: usize, h: usize) -> int {
    w as int / 6
}

/// Top edge of the well, centered.
pub open spec fn tetris_oy(w: usize, h: usize) -> int {
    sat_sub(h as int, tetris_cell(w, h) * H) / 2
}

/// The rectangles of well cell `(x, y)` holding value `v`: its checkerboard
/// square when `x + y` is even, then its block when it is occupied.
pub open spec fn cell_ops(w: usize, h: usize, x: int, y: int, v: u8) -> Seq<RectOp> {
    let c = tetris_cell(w, h);
    let px = tetris_ox(w, h) + x * c;
    let py = tetris_oy(w, h) + y * c;
    (if (x + y) % 2 == 0 {
        seq![rect_op(px, py, c, c, (32, 39, 52))]
    } else {
        Seq::empty()
    }) + (if v != 0 {
        block_ops(px, py, c, palette(v as int))
    } else {
        Seq::empty()
    })
}

/// The rectangles of cell `i` of the falling piece: its block when the cell
/// lies in the well, nothing otherwise.
pub open spec fn piece_cell_ops(w: usize, h: usize, p: Piece, i: int) -> Seq<RectOp> {
    let c = tetris_cell(w, h);
    if on_board(p.cx(i), p.cy(i)) {
        block_ops(
            tetris_ox(w, h) + p.cx(i) * c,
            tetris_oy(w, h) + p.cy(i) * c,
            c,
            palette(p.kind + 1),
        )
    } else {
        Seq::empty()
    }
}

/// Left edge of the score panel.
pub open spec fn panel_x(w: usize, h: usize) -> int {
    tetris_ox(w, h) + tetris_cell(w, h) * W + tetris_cell(w, h)
}

/// Width of the score panel: seven cells, or what is left of the screen
/// beside it less one cell.
pub open spec fn panel_width(w: usize, h: usize) -> int {
    let c = tetris_cell(w, h);
    let room = sat_sub(w as int, panel_x(w, h) + c);
    if room < c * 7 {
        room
    } else {
        c * 7
    }
}

/// Width of the score bar: the score modulo 1000 as a share of the panel,
/// at most the panel less one cell.
pub open spec fn bar_width(w: usize, h: usize, score: usize) -> int {
    let pw = panel_width(w, h);
    let a = sat_sub(pw, tetris_cell(w, h));
    let b = (score % 1000) * pw / 1000;
    if a < b {
        a
    } else {
        b
    }
}

/// The rectangles of a Tetris frame after the screen is cleared, in drawing
/// order: the well's border and background, each well cell row by row, the
/// falling piece's blocks, the score panel and bar, and the game-over banner
/// when the game is over.
pub open spec fn tetris_scene(
    w: usize,
    h: usize,
    rows: Seq<Seq<u8>>,
    p: Piece,
    score: usize,
    game_over: bool,
) -> Seq<RectOp> {
    well_frame_ops(w, h) + board_ops(w, h, rows, (W * H) as int) + piece_ops(w, h, p) + panel_ops(
        w,
        h,
        score,
    ) + over_ops(w, h, game_over)
}

/// The well's border and background.
pub open spec fn well_frame_ops(w: usize, h: usize) -> Seq<RectOp> {
    let c = tetris_cell(w, h);
    let ox = tetris_ox(w, h);
    let oy = tetris_oy(w, h);
    seq![
        rect_op(sat_sub(ox, 6), sat_sub(oy, 6), c * W + 12, c * H + 12, (65, 78, 95)),
        rect_op(ox, oy, c * W, c * H, (28, 34, 44)),
    ]
}

/// The score panel and the score bar.
pub open spec fn panel_ops(w: usize, h: usize, score: usize) -> Seq<RectOp> {
    let c = tetris_cell(w, h);
    let oy = tetris_oy(w, h);
    seq![
        rect_op(panel_x(w, h), oy, panel_width(w, h), c * H, (25, 31, 40)),
        rect_op(panel_x(w, h) + c / 2, oy + c, bar_width(w, h, score), c / 2, (110, 220, 160)),
    ]
}

/// The game-over banner, when the game is over.
pub open spec fn over_ops(w: usize, h: usize, game_over: bool) -> Seq<RectOp> {
    let c = tetris_cell(w, h);
    let ox = tetris_ox(w, h);
    let oy = tetris_oy(w, h);
    let bw = c * W;
    let bh = c * H;
    let gw = bw / 2;
    let gh = c * 3;
    if game_over {
        seq![rect_op(ox + (bw - gw) / 2, oy + (bh - gh) / 2, gw, gh, (170, 50, 60))]
    } else {
        Seq::empty()
    }
}

/// The well's geometry fits in the framebuffer's coordinate range.
pub proof fn lemma_tetris_layout(w: usize, h: usize)
    ensures
        14 <= tetris_cell(w, h),
        tetris_ox(w, h) >= 0,
        tetris_oy(w, h) >= 0,
        tetris_ox(w, h) + tetris_cell(w, h) * 12 <= usize::MAX,
        tetris_oy(w, h) + tetris_cell(w, h) * H <= usize::MAX,
        tetris_cell(w, h) * H + 12 <= usize::MAX,
{
    let c = tetris_cell(w, h);
    let ox = tetris_ox(w, h);
    let a = h as int / 24;
    let b = w as int / 22;
    assert(a * 24 <= h) by (nonlinear_arith)
        requires
            a == h as int / 24,
    ;
    assert(b * 22 <= w) by (nonlinear_arith)
        requires
            b == w as int / 22,
    ;
    assert(ox * 6 <= w) by (nonlinear_arith)
        requires
            ox == w as int / 6,
    ;
    if c > 14 {
        assert(c * 24 <= h && c * 22 <= w) by (nonlinear_arith)
            requires
                c <= a,
                c <= b,
                a * 24 <= h,
                b * 22 <= w,
                c > 0,
        ;
    }
}

/// Draws well cell `(x, y)` holding `v` at `(px, py)` (see `cell_ops`).
fn draw_cell(fb: &mut FrameBuffer, px: usize, py: usize, cell: usize, x: usize, y: usize, v: u8)
    requires
        addressable(old(fb)@),
        x < W,
        y < H,
        v < 8,
        cell == tetris_cell(old(fb)@.width, old(fb)@.height),
        px == tetris_ox(old(fb)@.width, old(fb)@.height) + x * cell,
        py == tetris_oy(old(fb)@.width, old(fb)@.height) + y * cell,
        px + cell <= usize::MAX,
        py + cell <= usize::MAX,
    ensures
        same_shape(final(fb)@, old(fb)@),
        final(fb)@ == paint_rects(
            old(fb)@,
            cell_ops(old(fb)@.width, old(fb)@.height, x as int, y as int, v),
        ),
{
    let ghost v0 = fb@;
    let ghost w = v0.width;
    let ghost h = v0.height;
    proof {
        lemma_parity(x, y);
    }
    let ghost first: Seq<RectOp> = if (x + y) % 2 == 0 {
        seq![rect_op(px as int, py as int, cell as int, cell as int, (32, 39, 52))]
    } else {
        Seq::empty()
    };
    if ((x + y) & 1) == 0 {
        proof {
            lemma_rect_fits(v0, px as int, py as int, cell as int, cell as int);
        }
        fill_rect(fb, px, py, cell, cell, (32, 39, 52));
        proof {
            lemma_paint_rects_push(v0, Seq::empty(), first[0]);
            assert(Seq::<RectOp>::empty().push(first[0]) =~= first);
        }
    }
    let ghost v1 = fb@;
    proof {
        lemma_paint_rects_shape(v0, first);
    }
    if v != 0 {
        draw_block(fb, px, py, cell, color_of(v as usize));
        proof {
            lemma_paint_rects_append(v0, first, block_ops(px as int, py as int, cell as int, palette(v as int)));
        }
    } else {
        proof {
            assert(first + Seq::<RectOp>::empty() =~= first);
        }
    }
}

proof fn lemma_parity(x: usize, y: usize)
    requires
        x < W,
        y < H,
    ensures
        ((x + y) as usize) & 1 == (x + y) % 2,
{
    let s = (x + y) as usize;
    assert(s & 1 == s % 2) by (bit_vector);
}

/// The cells of the well, row by row.
pub open spec fn board_ops(w: usize, h: usize, rows: Seq<Seq<u8>>, n: int) -> Seq<RectOp> {
    concat_ops(
        Seq::new(
            n as nat,
            |k: int| cell_ops(w, h, k % W as int, k / W as int, rows[k / W as int][k % W as int]),
        ),
    )
}

/// Draws every cell of the well.
fn draw_board(fb: &mut FrameBuffer, board: &Board, ox: usize, oy: usize, cell: usize)
    requires
        addressable(old(fb)@),
        cells_at_most(rows_of(*board), 7),
        cell == tetris_cell(old(fb)@.width, old(fb)@.height),
        ox == tetris_ox(old(fb)@.width, old(fb)@.height),
        oy == tetris_oy(old(fb)@.width, old(fb)@.height),
    ensures
        same_shape(final(fb)@, old(fb)@),
        final(fb)@ == paint_rects(
            old(fb)@,
            board_ops(old(fb)@.width, old(fb)@.height, rows_of(*board), (W * H) as int),
        ),
{
    let ghost v0 = fb@;
    let ghost w = v0.width;
    let ghost h = v0.height;
    let ghost rows = rows_of(*board);
    proof {
        lemma_tetris_layout(w, h);
        assert(board_ops(w, h, rows, 0) =~= Seq::<RectOp>::empty());
    }
    let mut y: usize = 0;
    while y < H
        invariant
            y <= H,
            addressable(v0),
            same_shape(fb@, v0),
            w == v0.width,
            h == v0.height,
            rows == rows_of(*board),
            cells_at_most(rows, 7),
            cell == tetris_cell(w, h),
            ox == tetris_ox(w, h),
            oy == tetris_oy(w, h),
            ox + cell * 12 <= usize::MAX,
            oy + cell * H <= usize::MAX,
            fb@ == paint_rects(v0, board_ops(w, h, rows, (y * W) as int)),
        decreases H - y,
    {
        let mut x: usize = 0;
        while x < W
            invariant
                y < H,
                x <= W,
                addressable(v0),
                same_shape(fb@, v0),
                w == v0.width,
                h == v0.height,
                rows == rows_of(*board),
                cells_at_most(rows, 7),
                cell == tetris_cell(w, h),
                ox == tetris_ox(w, h),
                oy == tetris_oy(w, h),
                ox + cell * 12 <= usize::MAX,
                oy + cell * H <= usize::MAX,
                fb@ == paint_rects(v0, board_ops(w, h, rows, (y * W + x) as int)),
            decreases W - x,
        {
            let ghost k = y * W + x;
            proof {
                assert(x * cell + cell <= cell * 12 && y * cell + cell <= cell * 20) by (nonlinear_arith)
                    requires
                        x < 10,
                        y < 20,
                        cell >= 0,
                ;
                vstd::arithmetic::div_mod::lemma_fundamental_div_mod_converse(k as int, 10, y as int, x as int);
                assert(rows[y as int].len() == W);
            }
            let px = ox + x * cell;
            let py = oy + y * cell;
            let v = board[y][x];
            let ghost before = fb@;
            draw_cell(fb, px, py, cell, x, y, v);
            proof {
                let cells = Seq::new(
                    (W * H) as nat,
                    |j: int| cell_ops(w, h, j % W as int, j / W as int, rows[j / W as int][j % W as int]),
                );
                lemma_concat_ops_step(cells, k as int);
                assert(cells.take(k as int) =~= Seq::new(
                    k as nat,
                    |j: int| cell_ops(w, h, j % W as int, j / W as int, rows[j / W as int][j % W as int]),
                ));
                assert(cells.take(k + 1) =~= Seq::new(
                    (k + 1) as nat,
                    |j: int| cell_ops(w, h, j % W as int, j / W as int, rows[j / W as int][j % W as int]),
                ));
                lemma_paint_rects_append(v0, board_ops(w, h, rows, k as int), cells[k as int]);
            }
            x += 1;
        }
        y += 1;
    }
}

/// The blocks of the falling piece.
pub open spec fn piece_ops(w: usize, h: usize, p: Piece) -> Seq<RectOp> {
    concat_ops(Seq::new(4, |i: int| piece_cell_ops(w, h, p, i)))
}

/// Every cell of the falling piece that lies in the well is drawn as a block
/// of the piece's color at that cell: the block's rectangles appear, in
/// order, among the rectangles of the piece.
pub proof fn lemma_piece_cells_drawn(w: usize, h: usize, p: Piece, i: int)
    requires
        0 <= i < 4,
        on_board(p.cx(i), p.cy(i)),
    ensures
        exists|j: int|
            0 <= j && j + 5 <= piece_ops(w, h, p).len() && #[trigger] piece_ops(w, h, p).subrange(j, j + 5)
                == block_ops(
                tetris_ox(w, h) + p.cx(i) * tetris_cell(w, h),
                tetris_oy(w, h) + p.cy(i) * tetris_cell(w, h),
                tetris_cell(w, h),
                palette(p.kind + 1),
            ),
{
    let s = Seq::new(4, |k: int| piece_cell_ops(w, h, p, k));
    assert(s.take(0) =~= Seq::<Seq<RectOp>>::empty());
    lemma_concat_ops_step(s, 0);
    lemma_concat_ops_step(s, 1);
    lemma_concat_ops_step(s, 2);
    lemma_concat_ops_step(s, 3);
    assert(s.take(4) =~= s);
    let all = piece_ops(w, h, p);
    assert(all == s[0] + s[1] + s[2] + s[3]);
    let j = if i == 0 {
        0
    } else if i == 1 {
        s[0].len() as int
    } else if i == 2 {
        (s[0] + s[1]).len() as int
    } else {
        (s[0] + s[1] + s[2]).len() as int
    };
    let blk = block_ops(
        tetris_ox(w, h) + p.cx(i) * tetris_cell(w, h),
        tetris_oy(w, h) + p.cy(i) * tetris_cell(w, h),
        tetris_cell(w, h),
        palette(p.kind + 1),
    );
    assert(s[i] == blk);
    assert(all.subrange(j, j + 5) =~= blk);
}

/// Draws the cells of the falling piece that lie in the well.
fn draw_piece(fb: &mut FrameBuffer, piece: Piece, ox: usize, oy: usize, cell: usize)
    requires
        addressable(old(fb)@),
        piece.valid(),
        piece.cells_fit(),
        cell == tetris_cell(old(fb)@.width, old(fb)@.height),
        ox == tetris_ox(old(fb)@.width, old(fb)@.height),
        oy == tetris_oy(old(fb)@.width, old(fb)@.height),
    ensures
        same_shape(final(fb)@, old(fb)@),
        final(fb)@ == paint_rects(
            old(fb)@,
            piece_ops(old(fb)@.width, old(fb)@.height, piece),
        ),
{
    let ghost v0 = fb@;
    let ghost w = v0.width;
    let ghost h = v0.height;
    let ghost parts = Seq::new(4, |i: int| piece_cell_ops(w, h, piece, i));
    proof {
        lemma_tetris_layout(w, h);
        lemma_shape_in_box(piece.kind as int, piece.rot as int);
        assert(parts.take(0) =~= Seq::<Seq<RectOp>>::empty());
    }
    let cells = shape_offsets(piece.kind, piece.rot);
    let color = color_of(piece.kind + 1);
    let mut i: usize = 0;
    while i < 4
        invariant
            i <= 4,
            addressable(v0),
            same_shape(fb@, v0),
            w == v0.width,
            h == v0.height,
            piece.valid(),
            piece.cells_fit(),
            color == palette(piece.kind + 1),
            cell == tetris_cell(w, h),
            ox == tetris_ox(w, h),
            oy == tetris_oy(w, h),
            ox + cell * 12 <= usize::MAX,
            oy + cell * H <= usize::MAX,
            parts == Seq::new(4, |j: int| piece_cell_ops(w, h, piece, j)),
            forall|j: int|
                0 <= j < 4 ==> (#[trigger] cells@[j]).0 == shape_dx(piece.kind as int, piece.rot as int, j)
                    && cells@[j].1 == shape_dy(piece.kind as int, piece.rot as int, j),
            fb@ == paint_rects(v0, concat_ops(parts.take(i as int))),
        decreases 4 - i,
    {
        let (dx, dy) = cells[i];
        proof {
            assert(cells@[i as int].0 == shape_dx(piece.kind as int, piece.rot as int, i as int));
            assert(0 <= i < 4);
            lemma_concat_ops_step(parts, i as int);
        }
        let x = piece.x + dx;
        let y = piece.y + dy;
        if x >= 0 && y >= 0 && x < W as isize && y < H as isize {
            proof {
                assert(x * cell + cell <= cell * 12 && y * cell + cell <= cell * 20) by (nonlinear_arith)
                    requires
                        0 <= x < 10,
                        0 <= y < 20,
                        cell >= 0,
                ;
            }
            let px = ox + (x as usize) * cell;
            let py = oy + (y as usize) * cell;
            draw_block(fb, px, py, cell, color);
            proof {
                lemma_paint_rects_append(v0, concat_ops(parts.take(i as int)), parts[i as int]);
            }
        } else {
            proof {
                assert(concat_ops(parts.take(i as int)) + parts[i as int] =~= concat_ops(
                    parts.take(i as int),
                ));
            }
        }
        i += 1;
    }
    proof {
        assert(parts.take(4) =~= parts);
    }
}

/// The score arithmetic of a frame does not overflow.
pub open spec fn score_fits(w: usize, h: usize, score: usize) -> bool {
    (score % 1000) * panel_width(w, h) <= usize::MAX
}

/// Fills the rectangles of `ops`, a list of at most two, one by one.
fn fill_two(fb: &mut FrameBuffer, ops: Ghost<Seq<RectOp>>, a: (usize, usize, usize, usize, Rgb), b: Option<(usize, usize, usize, usize, Rgb)>)
    requires
        addressable(old(fb)@),
        ops@.len() == if b is Some { 2int } else { 1int },
        ops@[0] == rect_op(a.0 as int, a.1 as int, a.2 as int, a.3 as int, a.4),
        b matches Some(bb) ==> ops@[1] == rect_op(bb.0 as int, bb.1 as int, bb.2 as int, bb.3 as int, bb.4),
    ensures
        same_shape(final(fb)@, old(fb)@),
        final(fb)@ == paint_rects(old(fb)@, ops@),
{
    let ghost v0 = fb@;
    proof {
        lemma_rect_fits(v0, a.0 as int, a.1 as int, a.2 as int, a.3 as int);
    }
    fill_rect(fb, a.0, a.1, a.2, a.3, a.4);
    proof {
        lemma_paint_rects_push(v0, Seq::empty(), ops@[0]);
        assert(Seq::<RectOp>::empty().push(ops@[0]) =~= ops@.take(1));
    }
    if let Some(bb) = b {
        proof {
            lemma_rect_fits(v0, bb.0 as int, bb.1 as int, bb.2 as int, bb.3 as int);
        }
        fill_rect(fb, bb.0, bb.1, bb.2, bb.3, bb.4);
        proof {
            lemma_paint_rects_push(v0, ops@.take(1), ops@[1]);
            assert(ops@.take(1).push(ops@[1]) =~= ops@);
        }
    } else {
        proof {
            assert(ops@.take(1) =~= ops@);
        }
    }
}

/// Draws the score panel and bar (see `panel_ops`).
fn draw_panel(fb: &mut FrameBuffer, ox: usize, oy: usize, cell: usize, score: usize)
    requires
        addressable(old(fb)@),
        cell == tetris_cell(old(fb)@.width, old(fb)@.height),
        ox == tetris_ox(old(fb)@.width, old(fb)@.height),
        oy == tetris_oy(old(fb)@.width, old(fb)@.height),
        score_fits(old(fb)@.width, old(fb)@.height, score),
    ensures
        same_shape(final(fb)@, old(fb)@),
        final(fb)@ == paint_rects(
            old(fb)@,
            panel_ops(old(fb)@.width, old(fb)@.height, score),
        ),
{
    let ghost v0 = fb@;
    let w = fb.width;
    let h = fb.height;
    proof {
        lemma_tetris_layout(w, h);
    }
    let board_w = cell * W;
    let board_h = cell * H;
    let panel_x = ox + board_w + cell;
    let room = w.saturating_sub(panel_x + cell);
    let cap = cell * 7;
    let panel_w = if room < cap {
        room
    } else {
        cap
    };
    assert(panel_w == panel_width(w, h));
    let a2 = panel_w.saturating_sub(cell);
    let b2 = (score % 1000) * panel_w / 1000;
    let bar_w = if a2 < b2 {
        a2
    } else {
        b2
    };
    assert(bar_w == bar_width(w, h, score));
    fill_two(
        fb,
        Ghost(panel_ops(w, h, score)),
        (panel_x, oy, panel_w, board_h, (25, 31, 40)),
        Some((panel_x + cell / 2, oy + cell, bar_w, cell / 2, (110, 220, 160))),
    );
}

/// Draws a Tetris frame: clears the screen, then fills the rectangles of
/// `tetris_scene` in order.
pub fn draw_scene(fb: &mut FrameBuffer, board: &Board, piece: Piece, score: usize, game_over: bool)
    requires
        addressable(old(fb)@),
        piece.valid(),
        piece.cells_fit(),
        cells_at_most(rows_of(*board), 7),
        score_fits(old(fb)@.width, old(fb)@.height, score),
    ensures
        same_shape(final(fb)@, old(fb)@),
        final(fb)@ == paint_rects(
            paint(old(fb)@, on_screen(old(fb)@), encoded((18, 22, 28), old(fb)@.format)),
            tetris_scene(old(fb)@.width, old(fb)@.height, rows_of(*board), piece, score, game_over),
        ),
{
    let ghost v0 = fb@;
    let w = fb.width;
    let h = fb.height;
    proof {
        lemma_tetris_layout(w, h);
    }
    clear(fb, (18, 22, 28));
    let ghost v1 = fb@;
    let a = h / (H + 4);
    let b = w / (W + 12);
    let m = if a < b {
        a
    } else {
        b
    };
    let cell = if m > 14 {
        m
    } else {
        14
    };
    let board_w = cell * W;
    let board_h = cell * H;
    let ox = w / 6;
    let oy = h.saturating_sub(board_h) / 2;
    assert(cell == tetris_cell(w, h));
    assert(ox == tetris_ox(w, h));
    assert(oy == tetris_oy(w, h));
    fill_two(
        fb,
        Ghost(well_frame_ops(w, h)),
        (ox.saturating_sub(6), oy.saturating_sub(6), board_w + 12, board_h + 12, (65, 78, 95)),
        Some((ox, oy, board_w, board_h, (28, 34, 44))),
    );
    let ghost v2 = fb@;
    draw_board(fb, board, ox, oy, cell);
    let ghost v3 = fb@;
    draw_piece(fb, piece, ox, oy, cell);
    let ghost v4 = fb@;
    draw_panel(fb, ox, oy, cell, score);
    let ghost v5 = fb@;
    if game_over {
        let gw = board_w / 2;
        let gh = cell * 3;
        let gx = ox + (board_w - gw) / 2;
        let gy = oy + (board_h - gh) / 2;
        fill_two(fb, Ghost(over_ops(w, h, game_over)), (gx, gy, gw, gh, (170, 50, 60)), None);
    } else {
        proof {
            assert(paint_rects(v5, over_ops(w, h, game_over)) == v5);
        }
    }
    proof {
        lemma_scene_composes(
            v1,
            well_frame_ops(w, h),
            board_ops(w, h, rows_of(*board), (W * H) as int),
            piece_ops(w, h, piece),
            panel_ops(w, h, score),
            over_ops(w, h, game_over),
        );
    }
}

proof fn lemma_scene_composes(
    v: FrameBufferView,
    s1: Seq<RectOp>,
    s2: Seq<RectOp>,
    s3: Seq<RectOp>,
    s4: Seq<RectOp>,
    s5: Seq<RectOp>,
)
    ensures
        paint_rects(paint_rects(paint_rects(paint_rects(paint_rects(v, s1), s2), s3), s4), s5)
            == paint_rects(v, s1 + s2 + s3 + s4 + s5),
{
    lemma_paint_rects_append(v, s1, s2);
    lemma_paint_rects_append(v, s1 + s2, s3);
    lemma_paint_rects_append(v, s1 + s2 + s3, s4);
    lemma_paint_rects_append(v, s1 + s2 + s3 + s4, s5);
}

/// Every state of a game can be drawn: its piece is a valid tetromino whose
/// cells compute without overflow and its well holds only palette colors.
pub proof fn lemma_game_drawable(g: Tetris)
    requires
        g.inv(),
    ensures
        g.piece.valid(),
        g.piece.cells_fit(),
        cells_at_most(rows_of(g.board), 7),
{
    lemma_shape_in_box(g.piece.kind as int, g.piece.rot as int);
}

} // verus!
