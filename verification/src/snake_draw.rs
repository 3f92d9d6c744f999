use vstd::prelude::*;
use crate::display::{FrameBuffer, lemma_frame_buffer_view};
use crate::raster::{
    Rgb, RectOp, rect_op, clear, fill_rect, paint, paint_rects, on_screen, encoded, rect_on,
    addressable, same_shape, lemma_paint_rects_push, lemma_paint_rects_shape, lemma_rect_fits,
    lemma_paint_nothing, lemma_paint_rects_append,
};
use crate::snake::{Pos, SnakeGame, GRID_W, GRID_H, MAX_LEN, in_grid, snake_shape};

verus! {

broadcast use lemma_frame_buffer_view, vstd::array::group_array_axioms;

/// `a - b`, or 0 when `b` is larger.
pub open spec fn sat_sub(a: int, b: int) -> int {
    if a > b {
        a - b
    } else {
        0
    }
}

/// Side of a board cell in pixels: the largest that leaves room for a
/// margin of two cells left and right and three above and below, at least 8.
pub open spec fn snake_cell(w: usize, h: usize) -> int {
    let a = w as int / (GRID_W + 4) as int;
    let b = h as int / (GRID_H + 6) as int;
    let m = if a < b {
        a
    } else {
        b
    };
    if m > 8 {
        m
    } else {
        8
    }
}

/// Left edge of the board, centered.
pub open spec fn snake_ox(w: usize, h: usize) -> int {
    sat_sub(w as int, snake_cell(w, h) * GRID_W) / 2
}

/// Top edge of the board, centered.
pub open spec fn snake_oy(w: usize, h: usize) -> int {
    sat_sub(h as int, snake_cell(w, h) * GRID_H) / 2
}

/// The rectangle of a segment or food at cell `p`, inset by `d` pixels.
pub open spec fn cell_op(w: usize, h: usize, p: Pos, d: int, color: Rgb) -> RectOp {
    let c = snake_cell(w, h);
    rect_op(
        snake_ox(w, h) + p.x * c + d,
        snake_oy(w, h) + p.y * c + d,
        sat_sub(c, 2 * d),
        sat_sub(c, 2 * d),
        color,
    )
}

/// The checkerboard square of cell `k` (row-major): drawn when the column
/// and row add up to an even number, nothing otherwise.
pub open spec fn checker_op(w: usize, h: usize, k: int) -> RectOp {
    let c = snake_cell(w, h);
    let x = k % GRID_W as int;
    let y = k / GRID_W as int;
    if (x + y) % 2 == 0 {
        rect_op(snake_ox(w, h) + x * c, snake_oy(w, h) + y * c, c, c, (34, 40, 48))
    } else {
        rect_op(0, 0, 0, 0, (34, 40, 48))
    }
}

/// The board: its border, its background and the checkerboard.
pub open spec fn board_ops(w: usize, h: usize) -> Seq<RectOp> {
    let c = snake_cell(w, h);
    let ox = snake_ox(w, h);
    let oy = snake_oy(w, h);
    seq![
        rect_op(sat_sub(ox, 4), sat_sub(oy, 4), c * GRID_W + 8, c * GRID_H + 8, (75, 80, 92)),
        rect_op(ox, oy, c * GRID_W, c * GRID_H, (30, 36, 44)),
    ].add(Seq::new((GRID_W * GRID_H) as nat, |k: int| checker_op(w, h, k)))
}

/// The food, then the first `len` segments of the body from the tail to the
/// neck, then the head.
pub open spec fn snake_ops(w: usize, h: usize, body: Seq<Pos>, len: int, food: Pos) -> Seq<RectOp> {
    seq![cell_op(w, h, food, 2, (255, 90, 90))].add(
        Seq::new(
            if len > 1 {
                (len - 1) as nat
            } else {
                0
            },
            |j: int| cell_op(w, h, body[len - 1 - j], 2, (70, 220, 120)),
        ),
    ).push(cell_op(w, h, body[0], 1, (120, 255, 170)))
}

/// The game-over banner, centered on the board, when the game is over.
pub open spec fn banner_ops(w: usize, h: usize, game_over: bool) -> Seq<RectOp> {
    let c = snake_cell(w, h);
    let bw = c * GRID_W;
    let bh = c * GRID_H;
    if game_over {
        seq![
            rect_op(
                snake_ox(w, h) + (bw - bw / 2) / 2,
                snake_oy(w, h) + (bh - c * 2) / 2,
                bw / 2,
                c * 2,
                (180, 35, 35),
            ),
        ]
    } else {
        Seq::empty()
    }
}

/// The rectangles of a Snake frame after the screen is cleared, in drawing
/// order: the board, the food and the snake, and the game-over banner.
pub open spec fn snake_scene(
    w: usize,
    h: usize,
    body: Seq<Pos>,
    len: int,
    food: Pos,
    game_over: bool,
) -> Seq<RectOp> {
    board_ops(w, h) + snake_ops(w, h, body, len, food) + banner_ops(w, h, game_over)
}

/// The rectangle of a cell at `p`, inset by `d`, has coordinates that fit in
/// `usize`.
pub open spec fn pos_fits(w: usize, h: usize, p: Pos, d: int) -> bool {
    let c = snake_cell(w, h);
    &&& p.x * c <= usize::MAX
    &&& snake_ox(w, h) + p.x * c + d <= usize::MAX
    &&& p.y * c <= usize::MAX
    &&& snake_oy(w, h) + p.y * c + d <= usize::MAX
}

/// The board's geometry fits in the framebuffer's coordinate range.
pub proof fn lemma_snake_layout(w: usize, h: usize)
    ensures
        8 <= snake_cell(w, h),
        snake_cell(w, h) * GRID_W + 8 <= usize::MAX,
        snake_cell(w, h) * GRID_H + 8 <= usize::MAX,
        snake_ox(w, h) + snake_cell(w, h) * GRID_W <= usize::MAX,
        snake_oy(w, h) + snake_cell(w, h) * GRID_H <= usize::MAX,
        snake_ox(w, h) >= 0,
        snake_oy(w, h) >= 0,
{
    let c = snake_cell(w, h);
    let a = w / 36;
    let b = h / 26;
    assert(a * 36 <= w) by (nonlinear_arith)
        requires
            a == w / 36,
    ;
    assert(b * 26 <= h) by (nonlinear_arith)
        requires
            b == h / 26,
    ;
    if c > 8 {
        assert(c * 36 <= w && c * 26 <= h) by (nonlinear_arith)
            requires
                c <= a,
                c <= b,
                a * 36 <= w,
                b * 26 <= h,
                c > 0,
        ;
    }
}

/// Every cell of the board, inset by at most 2, has coordinates that fit in
/// `usize`.
pub proof fn lemma_grid_pos_fits(w: usize, h: usize, p: Pos, d: int)
    requires
        in_grid(p),
        0 <= d <= 2,
    ensures
        pos_fits(w, h, p, d),
        p.x * snake_cell(w, h) + snake_cell(w, h) <= snake_cell(w, h) * GRID_W,
        p.y * snake_cell(w, h) + snake_cell(w, h) <= snake_cell(w, h) * GRID_H,
{
    lemma_snake_layout(w, h);
    let c = snake_cell(w, h);
    assert(p.x * c + c <= c * 32 && p.y * c + c <= c * 20) by (nonlinear_arith)
        requires
            p.x < 32,
            p.y < 20,
            c >= 0,
    ;
}

/// Fills the checkerboard squares of the board (see `checker_op`), row by
/// row.
fn draw_checkers(fb: &mut FrameBuffer, cell: usize, ox: usize, oy: usize)
    requires
        addressable(old(fb)@),
        cell == snake_cell(old(fb)@.width, old(fb)@.height),
        ox == snake_ox(old(fb)@.width, old(fb)@.height),
        oy == snake_oy(old(fb)@.width, old(fb)@.height),
    ensures
        same_shape(final(fb)@, old(fb)@),
        final(fb)@ == paint_rects(
            old(fb)@,
            Seq::new((GRID_W * GRID_H) as nat, |k: int| checker_op(old(fb)@.width, old(fb)@.height, k)),
        ),
{
    let ghost v0 = fb@;
    let ghost w = v0.width;
    let ghost h = v0.height;
    let ghost mut ops: Seq<RectOp> = Seq::empty();
    proof {
        lemma_snake_layout(w, h);
    }
    let mut y: usize = 0;
    while y < GRID_H
        invariant
            y <= GRID_H,
            w == v0.width,
            h == v0.height,
            cell == snake_cell(w, h),
            ox == snake_ox(w, h),
            oy == snake_oy(w, h),
            ox + cell * GRID_W <= usize::MAX,
            oy + cell * GRID_H <= usize::MAX,
            addressable(v0),
            same_shape(fb@, v0),
            ops == Seq::new((y * GRID_W) as nat, |k: int| checker_op(w, h, k)),
            fb@ == paint_rects(v0, ops),
        decreases GRID_H - y,
    {
        let mut x: usize = 0;
        while x < GRID_W
            invariant
                y < GRID_H,
                x <= GRID_W,
                w == v0.width,
                h == v0.height,
                cell == snake_cell(w, h),
                ox == snake_ox(w, h),
                oy == snake_oy(w, h),
                ox + cell * GRID_W <= usize::MAX,
                oy + cell * GRID_H <= usize::MAX,
                addressable(v0),
                same_shape(fb@, v0),
                ops == Seq::new((y * GRID_W + x) as nat, |k: int| checker_op(w, h, k)),
                fb@ == paint_rects(v0, ops),
            decreases GRID_W - x,
        {
            let ghost k = y * GRID_W + x;
            proof {
                lemma_grid_pos_fits(w, h, Pos { x, y }, 0);
                vstd::arithmetic::div_mod::lemma_fundamental_div_mod_converse(k as int, 32, y as int, x as int);
                lemma_parity(x, y);
            }
            if ((x + y) & 1) == 0 {
                proof {
                    lemma_rect_fits(v0, ox + x * cell, oy + y * cell, cell as int, cell as int);
                }
                fill_rect(fb, ox + x * cell, oy + y * cell, cell, cell, (34, 40, 48));
            } else {
                proof {
                    lemma_paint_nothing(fb@, rect_on(fb@, 0, 0, 0, 0), encoded((34, 40, 48), v0.format));
                }
            }
            proof {
                lemma_paint_rects_push(v0, ops, checker_op(w, h, k as int));
                ops = ops.push(checker_op(w, h, k as int));
                lemma_paint_rects_shape(v0, ops);
                assert(ops =~= Seq::new((k + 1) as nat, |j: int| checker_op(w, h, j)));
            }
            x += 1;
        }
        y += 1;
    }
}

/// Fills the body segments from the tail up to the one behind the head.
fn draw_body(fb: &mut FrameBuffer, body: &[Pos; MAX_LEN], len: usize, cell: usize, ox: usize, oy: usize)
    requires
        addressable(old(fb)@),
        len <= MAX_LEN,
        cell == snake_cell(old(fb)@.width, old(fb)@.height),
        ox == snake_ox(old(fb)@.width, old(fb)@.height),
        oy == snake_oy(old(fb)@.width, old(fb)@.height),
        forall|i: int| 1 <= i < len ==> pos_fits(old(fb)@.width, old(fb)@.height, #[trigger] body@[i], 2),
    ensures
        same_shape(final(fb)@, old(fb)@),
        final(fb)@ == paint_rects(
            old(fb)@,
            Seq::new(
                if len > 1 { (len - 1) as nat } else { 0 },
                |j: int| cell_op(old(fb)@.width, old(fb)@.height, body@[len - 1 - j], 2, (70, 220, 120)),
            ),
        ),
{
    let ghost v0 = fb@;
    let ghost w = v0.width;
    let ghost h = v0.height;
    let ghost mut ops: Seq<RectOp> = Seq::empty();
    let mut i = len;
    while i > 1
        invariant
            1 <= i <= len || (len <= 1 && i == len),
            len <= MAX_LEN,
            w == v0.width,
            h == v0.height,
            cell == snake_cell(w, h),
            ox == snake_ox(w, h),
            oy == snake_oy(w, h),
            addressable(v0),
            same_shape(fb@, v0),
            forall|j: int| 1 <= j < len ==> pos_fits(w, h, #[trigger] body@[j], 2),
            ops == Seq::new(
                if len > 1 { (len - i) as nat } else { 0 },
                |j: int| cell_op(w, h, body@[len - 1 - j], 2, (70, 220, 120)),
            ),
            fb@ == paint_rects(v0, ops),
        decreases i,
    {
        i -= 1;
        let p = body[i];
        proof {
            assert(pos_fits(w, h, body@[i as int], 2));
            lemma_rect_fits(v0, ox + p.x * cell + 2, oy + p.y * cell + 2, sat_sub(cell as int, 4), sat_sub(cell as int, 4));
        }
        fill_rect(
            fb,
            ox + p.x * cell + 2,
            oy + p.y * cell + 2,
            cell.saturating_sub(4),
            cell.saturating_sub(4),
            (70, 220, 120),
        );
        proof {
            lemma_paint_rects_push(v0, ops, cell_op(w, h, p, 2, (70, 220, 120)));
            ops = ops.push(cell_op(w, h, p, 2, (70, 220, 120)));
            lemma_paint_rects_shape(v0, ops);
            assert(ops =~= Seq::new((len - i) as nat, |j: int| cell_op(w, h, body@[len - 1 - j], 2, (70, 220, 120))));
        }
    }
    proof {
        if len <= 1 {
            assert(ops =~= Seq::<RectOp>::empty());
        }
    }
}

/// Fills the rectangles of the board (see `board_ops`).
fn draw_board(fb: &mut FrameBuffer, cell: usize, ox: usize, oy: usize)
    requires
        addressable(old(fb)@),
        cell == snake_cell(old(fb)@.width, old(fb)@.height),
        ox == snake_ox(old(fb)@.width, old(fb)@.height),
        oy == snake_oy(old(fb)@.width, old(fb)@.height),
    ensures
        same_shape(final(fb)@, old(fb)@),
        final(fb)@ == paint_rects(old(fb)@, board_ops(old(fb)@.width, old(fb)@.height)),
{
    let ghost v0 = fb@;
    let ghost w = v0.width;
    let ghost h = v0.height;
    proof {
        lemma_snake_layout(w, h);
    }
    let board_w = cell * GRID_W;
    let board_h = cell * GRID_H;
    let ghost border = rect_op(sat_sub(ox as int, 4), sat_sub(oy as int, 4), board_w + 8, board_h + 8, (75, 80, 92));
    let ghost inner = rect_op(ox as int, oy as int, board_w as int, board_h as int, (30, 36, 44));
    proof {
        lemma_rect_fits(v0, sat_sub(ox as int, 4), sat_sub(oy as int, 4), board_w + 8, board_h + 8);
        lemma_rect_fits(v0, ox as int, oy as int, board_w as int, board_h as int);
    }
    fill_rect(fb, ox.saturating_sub(4), oy.saturating_sub(4), board_w + 8, board_h + 8, (75, 80, 92));
    proof {
        lemma_paint_rects_push(v0, Seq::empty(), border);
        assert(Seq::<RectOp>::empty().push(border) =~= seq![border]);
        lemma_paint_rects_shape(v0, seq![border]);
    }
    fill_rect(fb, ox, oy, board_w, board_h, (30, 36, 44));
    proof {
        lemma_paint_rects_push(v0, seq![border], inner);
        assert(seq![border].push(inner) =~= seq![border, inner]);
        lemma_paint_rects_shape(v0, seq![border, inner]);
    }
    draw_checkers(fb, cell, ox, oy);
    proof {
        let checkers = Seq::new((GRID_W * GRID_H) as nat, |k: int| checker_op(w, h, k));
        lemma_paint_rects_append(v0, seq![border, inner], checkers);
        lemma_paint_rects_shape(v0, board_ops(w, h));
    }
}

/// Fills the rectangles of the food and the snake (see `snake_ops`).
fn draw_snake(
    fb: &mut FrameBuffer,
    body: &[Pos; MAX_LEN],
    len: usize,
    food: Pos,
    cell: usize,
    ox: usize,
    oy: usize,
)
    requires
        addressable(old(fb)@),
        len <= MAX_LEN,
        cell == snake_cell(old(fb)@.width, old(fb)@.height),
        ox == snake_ox(old(fb)@.width, old(fb)@.height),
        oy == snake_oy(old(fb)@.width, old(fb)@.height),
        pos_fits(old(fb)@.width, old(fb)@.height, food, 2),
        pos_fits(old(fb)@.width, old(fb)@.height, body@[0], 1),
        forall|i: int| 1 <= i < len ==> pos_fits(old(fb)@.width, old(fb)@.height, #[trigger] body@[i], 2),
    ensures
        same_shape(final(fb)@, old(fb)@),
        final(fb)@ == paint_rects(old(fb)@, snake_ops(old(fb)@.width, old(fb)@.height, body@, len as int, food)),
{
    let ghost v0 = fb@;
    let ghost w = v0.width;
    let ghost h = v0.height;
    let ghost food_op = cell_op(w, h, food, 2, (255, 90, 90));
    proof {
        lemma_snake_layout(w, h);
        lemma_rect_fits(v0, ox + food.x * cell + 2, oy + food.y * cell + 2, sat_sub(cell as int, 4), sat_sub(cell as int, 4));
    }
    fill_rect(
        fb,
        ox + food.x * cell + 2,
        oy + food.y * cell + 2,
        cell.saturating_sub(4),
        cell.saturating_sub(4),
        (255, 90, 90),
    );
    proof {
        lemma_paint_rects_push(v0, Seq::empty(), food_op);
        assert(Seq::<RectOp>::empty().push(food_op) =~= seq![food_op]);
        lemma_paint_rects_shape(v0, seq![food_op]);
    }
    draw_body(fb, body, len, cell, ox, oy);
    let ghost segs = Seq::new(
        if len > 1 { (len - 1) as nat } else { 0 },
        |j: int| cell_op(w, h, body@[len - 1 - j], 2, (70, 220, 120)),
    );
    proof {
        lemma_paint_rects_append(v0, seq![food_op], segs);
        lemma_paint_rects_shape(v0, seq![food_op] + segs);
    }
    let head_pos = body[0];
    proof {
        lemma_rect_fits(v0, ox + head_pos.x * cell + 1, oy + head_pos.y * cell + 1, sat_sub(cell as int, 2), sat_sub(cell as int, 2));
    }
    fill_rect(
        fb,
        ox + head_pos.x * cell + 1,
        oy + head_pos.y * cell + 1,
        cell.saturating_sub(2),
        cell.saturating_sub(2),
        (120, 255, 170),
    );
    proof {
        lemma_paint_rects_push(v0, seq![food_op] + segs, cell_op(w, h, head_pos, 1, (120, 255, 170)));
    }
}

/// Draws a Snake frame: clears the screen, then fills the rectangles of
/// `snake_scene` in order.
pub fn draw_scene(fb: &mut FrameBuffer, body: &[Pos; MAX_LEN], len: usize, food: Pos, game_over: bool)
    requires
        addressable(old(fb)@),
        len <= MAX_LEN,
        pos_fits(old(fb)@.width, old(fb)@.height, food, 2),
        pos_fits(old(fb)@.width, old(fb)@.height, body@[0], 1),
        forall|i: int| 1 <= i < len ==> pos_fits(old(fb)@.width, old(fb)@.height, #[trigger] body@[i], 2),
    ensures
        same_shape(final(fb)@, old(fb)@),
        final(fb)@ == paint_rects(
            paint(old(fb)@, on_screen(old(fb)@), encoded((20, 24, 30), old(fb)@.format)),
            snake_scene(old(fb)@.width, old(fb)@.height, body@, len as int, food, game_over),
        ),
{
    let ghost v0 = fb@;
    let w = fb.width;
    let h = fb.height;
    proof {
        lemma_snake_layout(w, h);
    }
    let a = w / (GRID_W + 4);
    let b = h / (GRID_H + 6);
    let m = if a < b {
        a
    } else {
        b
    };
    let cell = if m > 8 {
        m
    } else {
        8
    };
    let ox = w.saturating_sub(cell * GRID_W) / 2;
    let oy = h.saturating_sub(cell * GRID_H) / 2;
    clear(fb, (20, 24, 30));
    let ghost v1 = fb@;
    draw_board(fb, cell, ox, oy);
    proof {
        lemma_paint_rects_shape(v1, board_ops(w, h));
    }
    draw_snake(fb, body, len, food, cell, ox, oy);
    proof {
        lemma_paint_rects_append(v1, board_ops(w, h), snake_ops(w, h, body@, len as int, food));
        lemma_paint_rects_shape(v1, board_ops(w, h) + snake_ops(w, h, body@, len as int, food));
    }
    let ghost drawn = board_ops(w, h) + snake_ops(w, h, body@, len as int, food);
    if game_over {
        let board_w = cell * GRID_W;
        let board_h = cell * GRID_H;
        let gw = board_w / 2;
        let gh = cell * 2;
        let gx = ox + (board_w - gw) / 2;
        let gy = oy + (board_h - gh) / 2;
        proof {
            lemma_rect_fits(v0, gx as int, gy as int, gw as int, gh as int);
        }
        fill_rect(fb, gx, gy, gw, gh, (180, 35, 35));
        proof {
            let banner = rect_op(gx as int, gy as int, gw as int, gh as int, (180, 35, 35));
            lemma_paint_rects_push(v1, drawn, banner);
            assert(drawn.push(banner) =~= snake_scene(w, h, body@, len as int, food, game_over));
        }
    } else {
        proof {
            assert(drawn =~= snake_scene(w, h, body@, len as int, food, game_over));
        }
    }
}

proof fn lemma_parity(x: usize, y: usize)
    requires
        x < 32,
        y < 20,
    ensures
        ((x + y) as usize) & 1 == (x + y) % 2,
{
    let s = (x + y) as usize;
    assert(s & 1 == s % 2) by (bit_vector);
}

/// Every state of a game keeps the frame's arithmetic within `usize`, so
/// `draw_scene` can draw it.
pub proof fn lemma_game_drawable(g: SnakeGame, w: usize, h: usize)
    requires
        g.inv(),
    ensures
        g.len <= MAX_LEN,
        pos_fits(w, h, g.food, 2),
        pos_fits(w, h, g.body@[0], 1),
        forall|i: int| 1 <= i < g.len ==> pos_fits(w, h, #[trigger] g.body@[i], 2),
{
    reveal(snake_shape);
    lemma_grid_pos_fits(w, h, g.food, 2);
    lemma_grid_pos_fits(w, h, g.body@[0], 1);
    assert forall|i: int| 1 <= i < g.len implies pos_fits(w, h, #[trigger] g.body@[i], 2) by {
        lemma_grid_pos_fits(w, h, g.body@[i], 2);
    }
}

/// The rectangles of the idle screen after it is cleared: a panel half as
/// wide and a sixth as high as the screen, centered, with an inner panel
/// inset by 8 pixels.
pub open spec fn idle_scene(w: usize, h: usize) -> Seq<RectOp> {
    let pw = w / 2;
    let ph = h / 6;
    let x = sat_sub(w as int, pw as int) / 2;
    let y = sat_sub(h as int, ph as int) / 2;
    seq![
        rect_op(x, y, pw as int, ph as int, (50, 65, 90)),
        rect_op(x + 8, y + 8, sat_sub(pw as int, 16), sat_sub(ph as int, 16), (30, 36, 44)),
    ]
}

/// Draws the idle screen shown before the game starts (see `idle_scene`).
pub fn draw_idle_panel(fb: &mut FrameBuffer)
    requires
        addressable(old(fb)@),
    ensures
        same_shape(final(fb)@, old(fb)@),
        final(fb)@ == paint_rects(
            paint(old(fb)@, on_screen(old(fb)@), encoded((20, 24, 30), old(fb)@.format)),
            idle_scene(old(fb)@.width, old(fb)@.height),
        ),
{
    let ghost v0 = fb@;
    clear(fb, (20, 24, 30));
    let ghost v1 = fb@;
    let w = fb.width;
    let h = fb.height;
    let panel_w = w / 2;
    let panel_h = h / 6;
    let x = (w.saturating_sub(panel_w)) / 2;
    let y = (h.saturating_sub(panel_h)) / 2;
    proof {
        lemma_rect_fits(v0, x as int, y as int, panel_w as int, panel_h as int);
        lemma_rect_fits(v0, x + 8, y + 8, sat_sub(panel_w as int, 16), sat_sub(panel_h as int, 16));
    }
    fill_rect(fb, x, y, panel_w, panel_h, (50, 65, 90));
    let ghost v2 = fb@;
    fill_rect(
        fb,
        x + 8,
        y + 8,
        panel_w.saturating_sub(16),
        panel_h.saturating_sub(16),
        (30, 36, 44),
    );
    proof {
        let ops = idle_scene(w, h);
        lemma_paint_rects_push(v1, Seq::empty(), ops[0]);
        assert(Seq::<RectOp>::empty().push(ops[0]) =~= ops.take(1));
        lemma_paint_rects_push(v1, ops.take(1), ops[1]);
        assert(ops.take(1).push(ops[1]) =~= ops);
    }
}

} // verus!
