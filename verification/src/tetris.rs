use vstd::prelude::*;
use vstd::wrapping::u32_specs;
use crate::board::{
    Board, H, W, rows_of, cleared, lines_cleared, kept, lemma_kept, row_is_full, well_shaped,
    empty_row, empty_rows, lemma_rows_of_shape, cell_x, cell_y, on_board, stamp, put, cells_at_most,
    lemma_cleared_cells, lemma_stamp_cells, no_full_row, lemma_cleared_no_full_row,
    lemma_empty_no_full_row, lemma_stamp_lines,
};
use crate::shapes::{shape_offsets, shape_dx, shape_dy, lemma_shape_in_box, KINDS, ROTATIONS};

verus! {

broadcast use vstd::array::group_array_axioms, lemma_rows_of_shape;

/// Timer cycles between two gravity steps.
pub const STEP_CYCLES: u64 = 2_000_000;

/// The falling tetromino: its kind, rotation state and the top-left corner of
/// its 4x4 box in well coordinates.
#[derive(Clone, Copy)]
pub struct Piece {
    pub kind: usize,
    pub rot: usize,
    pub x: isize,
    pub y: isize,
}

impl Piece {
    /// Column of cell `i` of the piece.
    pub open spec fn cx(self, i: int) -> int {
        cell_x(self.kind as int, self.rot as int, self.x as int, i)
    }

    /// Row of cell `i` of the piece.
    pub open spec fn cy(self, i: int) -> int {
        cell_y(self.kind as int, self.rot as int, self.y as int, i)
    }

    /// Kind and rotation name an entry of the shape table.
    pub open spec fn valid(self) -> bool {
        self.kind < KINDS && self.rot < ROTATIONS
    }

    /// All four cells lie in the well.
    pub open spec fn in_well(self) -> bool {
        &&& on_board(self.cx(0), self.cy(0))
        &&& on_board(self.cx(1), self.cy(1))
        &&& on_board(self.cx(2), self.cy(2))
        &&& on_board(self.cx(3), self.cy(3))
    }

    /// The cell coordinates of all four cells fit in `isize`.
    pub open spec fn cells_fit(self) -> bool {
        &&& self.cx(0) <= isize::MAX && self.cy(0) <= isize::MAX
        &&& self.cx(1) <= isize::MAX && self.cy(1) <= isize::MAX
        &&& self.cx(2) <= isize::MAX && self.cy(2) <= isize::MAX
        &&& self.cx(3) <= isize::MAX && self.cy(3) <= isize::MAX
    }

    /// The piece shifted by `(dx, dy)`.
    pub open spec fn shifted(self, dx: int, dy: int) -> Piece {
        Piece { x: (self.x + dx) as isize, y: (self.y + dy) as isize, ..self }
    }

    /// The piece in its next rotation state.
    pub open spec fn turned(self) -> Piece {
        Piece { rot: ((self.rot + 1) % 4) as usize, ..self }
    }
}

/// Cell `(x, y)` is outside the well or occupied.
pub open spec fn blocked(rows: Seq<Seq<u8>>, x: int, y: int) -> bool {
    !on_board(x, y) || rows[y][x] != 0
}

/// Some cell of the piece is outside the well or on a locked block.
pub open spec fn collides(rows: Seq<Seq<u8>>, p: Piece) -> bool {
    ||| blocked(rows, p.cx(0), p.cy(0))
    ||| blocked(rows, p.cx(1), p.cy(1))
    ||| blocked(rows, p.cx(2), p.cy(2))
    ||| blocked(rows, p.cx(3), p.cy(3))
}

/// The well with the piece locked into it.
pub open spec fn locked(rows: Seq<Seq<u8>>, p: Piece) -> Seq<Seq<u8>> {
    stamp(rows, p.kind as int, p.rot as int, p.x as int, p.y as int)
}

/// The seed after one step of the generator that picks the next kind.
pub open spec fn next_seed(seed: u32) -> u32 {
    u32_specs::wrapping_add(u32_specs::wrapping_mul(seed, 1664525), 1013904223)
}

/// The piece that enters the well when the generator holds `seed`.
pub open spec fn spawned(seed: u32) -> Piece {
    Piece { kind: (next_seed(seed) % 7) as usize, rot: 0, x: 3, y: 0 }
}

/// Advances the seed and returns a new piece of the kind it picks, unrotated,
/// at column 3 of the top row.
pub fn spawn_piece(seed: &mut u32) -> (p: Piece)
    ensures
        *final(seed) == next_seed(*old(seed)),
        p == spawned(*old(seed)),
{
    *seed = seed.wrapping_mul(1664525).wrapping_add(1013904223);
    let kind = (*seed as usize) % 7;
    Piece { kind, rot: 0, x: 3, y: 0 }
}

/// Whether the piece leaves the well or overlaps a locked block.
pub fn collide(board: &Board, p: Piece) -> (r: bool)
    requires
        p.valid(),
        p.cx(0) <= isize::MAX,
        p.cy(0) <= isize::MAX,
    ensures
        r == collides(rows_of(*board), p),
{
    let cells = shape_offsets(p.kind, p.rot);
    proof {
        lemma_shape_in_box(p.kind as int, p.rot as int);
    }
    let mut i: usize = 0;
    while i < 4
        invariant
            i <= 4,
            p.valid(),
            p.cx(0) <= isize::MAX,
            p.cy(0) <= isize::MAX,
            i > 0 ==> on_board(p.cx(0), p.cy(0)),
            forall|j: int| 0 <= j < 4 ==> 0 <= #[trigger] shape_dx(p.kind as int, p.rot as int, j) <= 3
                && 0 <= shape_dy(p.kind as int, p.rot as int, j) <= 3,
            forall|j: int|
                0 <= j < 4 ==> (#[trigger] cells@[j]).0 == shape_dx(p.kind as int, p.rot as int, j)
                    && cells@[j].1 == shape_dy(p.kind as int, p.rot as int, j),
            forall|j: int| 0 <= j < i ==> !blocked(rows_of(*board), #[trigger] p.cx(j), p.cy(j)),
        decreases 4 - i,
    {
        let (dx, dy) = cells[i];
        proof {
            assert(cells@[i as int].0 == shape_dx(p.kind as int, p.rot as int, i as int));
            assert(cells@[0].0 == shape_dx(p.kind as int, p.rot as int, 0));
        }
        let x = p.x + dx;
        let y = p.y + dy;
        if x < 0 || x >= W as isize || y < 0 || y >= H as isize {
            return true;
        }
        if board[y as usize][x as usize] != 0 {
            return true;
        }
        i += 1;
    }
    false
}

/// Writes the piece into the well with color `kind + 1`; cells outside the
/// well are skipped.
pub fn lock_piece(board: &mut Board, p: Piece)
    requires
        p.valid(),
        p.cells_fit(),
    ensures
        rows_of(*final(board)) == locked(rows_of(*old(board)), p),
{
    let ghost start = rows_of(*board);
    let color = (p.kind as u8) + 1;
    let cells = shape_offsets(p.kind, p.rot);
    proof {
        lemma_shape_in_box(p.kind as int, p.rot as int);
    }
    let mut i: usize = 0;
    while i < 4
        invariant
            i <= 4,
            p.valid(),
            p.cells_fit(),
            color == (p.kind + 1) as u8,
            forall|j: int|
                0 <= j < 4 ==> (#[trigger] cells@[j]).0 == shape_dx(p.kind as int, p.rot as int, j)
                    && cells@[j].1 == shape_dy(p.kind as int, p.rot as int, j),
            rows_of(*board) == put_first(start, p, color, i as int),
        decreases 4 - i,
    {
        proof {
            assert(0 <= i < 4);
        }
        let (dx, dy) = cells[i];
        proof {
            assert(cells@[i as int].0 == shape_dx(p.kind as int, p.rot as int, i as int));
            assert(p.cx(i as int) <= isize::MAX && p.cy(i as int) <= isize::MAX);
        }
        let sx = p.x + dx;
        let sy = p.y + dy;
        let x = #[verifier::truncate] (sx as usize);
        let y = #[verifier::truncate] (sy as usize);
        proof {
            lemma_negative_cast_is_large(sx);
            lemma_negative_cast_is_large(sy);
        }
        let ghost prev = *board;
        if x < W && y < H {
            board[y][x] = color;
        }
        proof {
            assert(rows_of(*board) =~= put(rows_of(prev), p.cx(i as int), p.cy(i as int), color));
        }
        i += 1;
    }
    proof {
        reveal_with_fuel(put_first, 5);
    }
}

/// The well after the first `n` cells of the piece are written with `v`.
pub open spec fn put_first(rows: Seq<Seq<u8>>, p: Piece, v: u8, n: int) -> Seq<Seq<u8>>
    decreases n,
{
    if n <= 0 {
        rows
    } else {
        put(put_first(rows, p, v, n - 1), p.cx(n - 1), p.cy(n - 1), v)
    }
}

/// A negative `isize` converted to `usize` is never a valid row or column.
proof fn lemma_negative_cast_is_large(v: isize)
    ensures
        v >= 0 ==> v as usize == v,
        v < 0 ==> v as usize >= 0x8000_0000usize,
{
    assert(v < 0 ==> v as usize >= 0x8000_0000usize) by (bit_vector);
}

/// Removes every full row; the remaining rows sink to the bottom in order and
/// empty rows fill the top. Returns how many rows were removed.
pub fn clear_lines(board: &mut Board) -> (count: usize)
    ensures
        rows_of(*final(board)) == cleared(rows_of(*old(board))),
        count == lines_cleared(rows_of(*old(board))),
{
    let ghost old_rows = rows_of(*board);
    let mut count: usize = 0;
    let mut dst: isize = H as isize - 1;
    let mut src: usize = H;
    while src > 0
        invariant
            src <= H,
            well_shaped(old_rows),
            kept(old_rows.subrange(src as int, H as int)).len() <= H - src,
            dst == H - 1 - kept(old_rows.subrange(src as int, H as int)).len(),
            forall|y: int| 0 <= y < src ==> (#[trigger] board@[y])@ == old_rows[y],
            forall|i: int|
                0 <= i < kept(old_rows.subrange(src as int, H as int)).len() ==> (
                #[trigger] board@[dst + 1 + i])@ == kept(old_rows.subrange(src as int, H as int))[i],
            count == (H - src) - kept(old_rows.subrange(src as int, H as int)).len(),
        decreases src,
    {
        let ghost before = old_rows.subrange(src as int, H as int);
        src -= 1;
        let ghost now = old_rows.subrange(src as int, H as int);
        proof {
            assert(now.drop_first() =~= before);
            assert(now[0] == old_rows[src as int]);
            lemma_kept(before);
        }
        let full = row_is_full(&board[src]);
        if full {
            count += 1;
            continue;
        }
        let ghost board_before = *board;
        if dst as usize != src {
            board[dst as usize] = board[src];
        }
        proof {
            assert(board@[dst as int]@ == old_rows[src as int]);
            assert(forall|y: int| 0 <= y < H && y != dst ==> board@[y] == board_before@[y]);
        }
        dst -= 1;
        proof {
            let kb = kept(before);
            let kn = kept(now);
            assert(kn =~= seq![now[0]].add(kb));
            assert forall|i: int| 0 <= i < kn.len() implies (#[trigger] board@[dst + 1 + i])@ == kn[i] by {
                if i > 0 {
                    assert(board@[dst + 1 + i] == board_before@[(dst + 1) + 1 + (i - 1)]);
                }
            }
        }
    }
    let ghost k = kept(old_rows);
    proof {
        assert(old_rows.subrange(0, H as int) =~= old_rows);
    }
    let ghost top = H - k.len();
    assert forall|i: int| 0 <= i < k.len() implies (#[trigger] board@[top + i])@ == k[i] by {
        assert(board@[dst + 1 + i] == board@[top + i]);
    }
    while dst >= 0
        invariant
            -1 <= dst < top,
            top == H - k.len(),
            k.len() <= H,
            forall|i: int| 0 <= i < k.len() ==> (#[trigger] board@[top + i])@ == k[i],
            forall|y: int| dst < y < top ==> (#[trigger] board@[y])@ == empty_row(),
        decreases dst + 1,
    {
        board[dst as usize] = [0u8; W];
        dst -= 1;
    }
    proof {
        let c = cleared(old_rows);
        assert forall|y: int| 0 <= y < H implies #[trigger] rows_of(*board)[y] == c[y] by {
            if y < top {
                assert(board@[y]@ == empty_row());
            } else {
                assert(board@[top + (y - top)]@ == k[y - top]);
            }
        }
        assert(rows_of(*board) =~= c);
    }
    count
}

/// What one gravity step does: a game that is over stays as it is; a piece
/// that can fall one row falls; otherwise the piece is locked, full rows are
/// cleared and scored at 100 each, and the next piece enters, unless it
/// collides at once, which ends the game with the old piece left in place.
pub open spec fn drop_step(
    rows0: Seq<Seq<u8>>,
    p0: Piece,
    seed0: u32,
    score0: usize,
    over0: bool,
    rows1: Seq<Seq<u8>>,
    p1: Piece,
    seed1: u32,
    score1: usize,
    over1: bool,
) -> bool {
    if over0 {
        rows1 == rows0 && p1 == p0 && seed1 == seed0 && score1 == score0 && over1
    } else if !collides(rows0, p0.shifted(0, 1)) {
        rows1 == rows0 && p1 == p0.shifted(0, 1) && seed1 == seed0 && score1 == score0 && !over1
    } else {
        let l = locked(rows0, p0);
        &&& rows1 == cleared(l)
        &&& score1 == score0 + 100 * lines_cleared(l)
        &&& seed1 == next_seed(seed0)
        &&& over1 == collides(cleared(l), spawned(seed0))
        &&& p1 == if over1 {
            p0
        } else {
            spawned(seed0)
        }
    }
}

/// The inputs on which one gravity step computes without overflow.
pub open spec fn drop_fits(rows: Seq<Seq<u8>>, p: Piece, score: usize) -> bool {
    let down = p.shifted(0, 1);
    &&& p.y < isize::MAX
    &&& down.cx(0) <= isize::MAX
    &&& down.cy(0) <= isize::MAX
    &&& collides(rows, down) ==> p.cells_fit() && score + 100 * lines_cleared(locked(rows, p))
        <= usize::MAX
}

/// Lets the piece fall one row, or locks it, clears rows and brings in the next
/// piece (see `drop_step`).
pub fn step_down(
    board: &mut Board,
    piece: &mut Piece,
    seed: &mut u32,
    score: &mut usize,
    game_over: &mut bool,
)
    requires
        old(piece).valid(),
        !*old(game_over) ==> drop_fits(rows_of(*old(board)), *old(piece), *old(score)),
    ensures
        drop_step(
            rows_of(*old(board)),
            *old(piece),
            *old(seed),
            *old(score),
            *old(game_over),
            rows_of(*final(board)),
            *final(piece),
            *final(seed),
            *final(score),
            *final(game_over),
        ),
{
    if *game_over {
        return;
    }
    let mut p = *piece;
    p.y += 1;
    if !collide(board, p) {
        *piece = p;
        return;
    }
    let ghost rows0 = rows_of(*board);
    lock_piece(board, *piece);
    let ghost l = rows_of(*board);
    proof {
        lemma_kept(l);
    }
    let n = clear_lines(board);
    *score += n * 100;
    let np = spawn_piece(seed);
    proof {
        lemma_spawned_in_well(np);
    }
    if collide(board, np) {
        *game_over = true;
    } else {
        *piece = np;
    }
}

/// A freshly spawned piece lies inside the well.
pub proof fn lemma_spawned_in_well(p: Piece)
    requires
        p.kind < KINDS,
        p.rot == 0,
        p.x == 3,
        p.y == 0,
    ensures
        p.valid(),
        p.in_well(),
        p.cells_fit(),
{
    lemma_shape_in_box(p.kind as int, 0);
}

/// The state of a game of Tetris on the kernel console.
pub struct Tetris {
    pub board: Board,
    pub piece: Piece,
    pub seed: u32,
    pub score: usize,
    pub game_over: bool,
}

impl Tetris {
    /// What every reachable state satisfies: the piece is a valid tetromino
    /// lying in the well, the well holds only the colors of the seven kinds
    /// and no full row, the score is a multiple of 100, and while the game
    /// runs the piece overlaps no locked block.
    pub open spec fn inv(&self) -> bool {
        &&& self.piece.valid()
        &&& self.piece.in_well()
        &&& cells_at_most(rows_of(self.board), 7)
        &&& no_full_row(rows_of(self.board))
        &&& self.score % 100 == 0
        &&& !self.game_over ==> !collides(rows_of(self.board), self.piece)
    }

    /// One gravity step cannot overflow the score.
    pub open spec fn drop_score_fits(&self) -> bool {
        collides(rows_of(self.board), self.piece.shifted(0, 1)) ==> self.score + 100 * lines_cleared(
            locked(rows_of(self.board), self.piece),
        ) <= usize::MAX
    }

    /// A new game: an empty well and the first piece drawn from `seed`.
    pub fn new(seed: u32) -> (g: Tetris)
        ensures
            g.inv(),
            rows_of(g.board) == empty_rows(H as nat),
            g.piece == spawned(seed),
            g.seed == next_seed(seed),
            g.score == 0,
            !g.game_over,
    {
        let board: Board = [[0u8; W]; H];
        let mut seed = seed;
        let piece = spawn_piece(&mut seed);
        proof {
            lemma_spawned_in_well(piece);
            lemma_empty_no_full_row(H as nat);
            assert(rows_of(board) =~= empty_rows(H as nat)) by {
                assert forall|y: int| 0 <= y < H implies #[trigger] rows_of(board)[y] == empty_rows(
                    H as nat,
                )[y] by {
                    assert(board@[y]@ =~= empty_row());
                }
            }
        }
        Tetris { board, piece, seed, score: 0, game_over: false }
    }

    /// Reacts to key `c`: `a`/`d` shift the piece left or right and `w` turns
    /// it, each only when the result does not collide; `s` drops it one step;
    /// `q` asks to quit. Returns whether the game should stop.
    pub fn handle_key(&mut self, c: u8) -> (quit: bool)
        requires
            old(self).inv(),
            c == 0x73 || c == 0x53 ==> old(self).drop_score_fits(),
        ensures
            final(self).inv(),
            quit == (c == 0x71 || c == 0x51),
            (c == 0x61 || c == 0x41) ==> key_shift(*old(self), *final(self), -1),
            (c == 0x64 || c == 0x44) ==> key_shift(*old(self), *final(self), 1),
            (c == 0x77 || c == 0x57) ==> key_turn(*old(self), *final(self)),
            (c == 0x73 || c == 0x53) ==> drop_step(
                rows_of(old(self).board),
                old(self).piece,
                old(self).seed,
                old(self).score,
                old(self).game_over,
                rows_of(final(self).board),
                final(self).piece,
                final(self).seed,
                final(self).score,
                final(self).game_over,
            ),
            !(c == 0x61 || c == 0x41 || c == 0x64 || c == 0x44 || c == 0x77 || c == 0x57 || c == 0x73
                || c == 0x53) ==> *final(self) == *old(self),
    {
        proof {
            lemma_in_well_fits(self.piece);
        }
        if c == 0x61 || c == 0x41 {
            let mut p = self.piece;
            p.x -= 1;
            if !collide(&self.board, p) {
                self.piece = p;
            }
        } else if c == 0x64 || c == 0x44 {
            let mut p = self.piece;
            p.x += 1;
            if !collide(&self.board, p) {
                self.piece = p;
            }
        } else if c == 0x73 || c == 0x53 {
            self.drop();
        } else if c == 0x77 || c == 0x57 {
            let mut p = self.piece;
            p.rot = (p.rot + 1) & 3;
            proof {
                lemma_next_rotation(self.piece.rot);
                lemma_shape_in_box(p.kind as int, p.rot as int);
            }
            if !collide(&self.board, p) {
                self.piece = p;
            }
        } else if c == 0x71 || c == 0x51 {
            return true;
        }
        false
    }

    /// The timer: when the game runs and `now` has reached `next_step`, the
    /// piece drops one step and the next step is due `STEP_CYCLES` later.
    /// Returns when the next step is due.
    pub fn on_timer(&mut self, now: u64, next_step: u64) -> (next: u64)
        requires
            old(self).inv(),
            old(self).drop_score_fits(),
        ensures
            final(self).inv(),
            !old(self).game_over && now >= next_step ==> next == now.wrapping_add(STEP_CYCLES)
                && drop_step(
                rows_of(old(self).board),
                old(self).piece,
                old(self).seed,
                old(self).score,
                old(self).game_over,
                rows_of(final(self).board),
                final(self).piece,
                final(self).seed,
                final(self).score,
                final(self).game_over,
            ),
            !(!old(self).game_over && now >= next_step) ==> next == next_step && *final(self)
                == *old(self),
    {
        if !self.game_over && now >= next_step {
            let next = now.wrapping_add(STEP_CYCLES);
            proof {
                lemma_in_well_fits(self.piece);
            }
            self.drop();
            next
        } else {
            next_step
        }
    }

    fn drop(&mut self)
        requires
            old(self).inv(),
            old(self).drop_score_fits(),
        ensures
            final(self).inv(),
            drop_step(
                rows_of(old(self).board),
                old(self).piece,
                old(self).seed,
                old(self).score,
                old(self).game_over,
                rows_of(final(self).board),
                final(self).piece,
                final(self).seed,
                final(self).score,
                final(self).game_over,
            ),
    {
        proof {
            lemma_in_well_fits(self.piece);
        }
        let ghost rows0 = rows_of(self.board);
        let ghost p0 = self.piece;
        step_down(
            &mut self.board,
            &mut self.piece,
            &mut self.seed,
            &mut self.score,
            &mut self.game_over,
        );
        proof {
            if !collides(rows0, p0.shifted(0, 1)) {
            } else if !old(self).game_over {
                lemma_shape_in_box(p0.kind as int, p0.rot as int);
                lemma_stamp_cells(rows0, p0.kind as int, p0.rot as int, p0.x as int, p0.y as int, 7);
                lemma_cleared_cells(locked(rows0, p0), 7);
                lemma_cleared_no_full_row(locked(rows0, p0));
                lemma_stamp_lines(rows0, p0.kind as int, p0.rot as int, p0.x as int, p0.y as int);
                lemma_spawned_in_well(spawned(old(self).seed));
            }
        }
    }
}

/// One gravity step from a well without full rows leaves none, and adds a
/// multiple of 100 points, at most 400: only the rows the piece lands in
/// can fill up.
pub proof fn lemma_drop_gain(
    rows0: Seq<Seq<u8>>,
    p0: Piece,
    seed0: u32,
    score0: usize,
    over0: bool,
    rows1: Seq<Seq<u8>>,
    p1: Piece,
    seed1: u32,
    score1: usize,
    over1: bool,
)
    requires
        well_shaped(rows0),
        no_full_row(rows0),
        drop_step(rows0, p0, seed0, score0, over0, rows1, p1, seed1, score1, over1),
    ensures
        no_full_row(rows1),
        score0 <= score1 <= score0 + 400,
        (score1 - score0) % 100 == 0,
{
    if !over0 && collides(rows0, p0.shifted(0, 1)) {
        lemma_cleared_no_full_row(locked(rows0, p0));
        lemma_stamp_lines(rows0, p0.kind as int, p0.rot as int, p0.x as int, p0.y as int);
    }
}

impl Tetris {
    /// A running game whose score leaves room for 400 more points can take
    /// a gravity step without overflow.
    pub proof fn lemma_drop_score_fits(&self)
        requires
            self.inv(),
            self.score <= usize::MAX - 400,
        ensures
            self.drop_score_fits(),
    {
        lemma_stamp_lines(
            rows_of(self.board),
            self.piece.kind as int,
            self.piece.rot as int,
            self.piece.x as int,
            self.piece.y as int,
        );
    }
}

/// The effect of a sideways key: the piece moves by `dx` columns unless that
/// collides; nothing else changes.
pub open spec fn key_shift(g0: Tetris, g1: Tetris, dx: int) -> bool {
    &&& g1.board == g0.board
    &&& g1.seed == g0.seed
    &&& g1.score == g0.score
    &&& g1.game_over == g0.game_over
    &&& g1.piece == if collides(rows_of(g0.board), g0.piece.shifted(dx, 0)) {
        g0.piece
    } else {
        g0.piece.shifted(dx, 0)
    }
}

/// The effect of the turn key: the piece takes its next rotation unless that
/// collides; nothing else changes.
pub open spec fn key_turn(g0: Tetris, g1: Tetris) -> bool {
    &&& g1.board == g0.board
    &&& g1.seed == g0.seed
    &&& g1.score == g0.score
    &&& g1.game_over == g0.game_over
    &&& g1.piece == if collides(rows_of(g0.board), g0.piece.turned()) {
        g0.piece
    } else {
        g0.piece.turned()
    }
}

proof fn lemma_in_well_fits(p: Piece)
    requires
        p.valid(),
        p.in_well(),
    ensures
        -3 <= p.x <= 9,
        -3 <= p.y <= 19,
        p.cells_fit(),
        p.shifted(0, 1).cx(0) <= isize::MAX,
        p.shifted(0, 1).cy(0) <= isize::MAX,
        p.shifted(-1, 0).cx(0) <= isize::MAX,
        p.shifted(1, 0).cx(0) <= isize::MAX,
        p.shifted(-1, 0).cy(0) <= isize::MAX,
        p.shifted(1, 0).cy(0) <= isize::MAX,
        p.turned().cx(0) <= isize::MAX,
        p.turned().cy(0) <= isize::MAX,
{
    lemma_shape_in_box(p.kind as int, p.rot as int);
    lemma_shape_in_box(p.kind as int, ((p.rot + 1) % 4) as int);
}

proof fn lemma_next_rotation(r: usize)
    requires
        r < 4,
    ensures
        ((r + 1) as usize) & 3 == (r + 1) % 4,
{
    assert(((r + 1) as usize) & 3 == (r + 1) % 4) by (bit_vector)
        requires
            r < 4,
    ;
}

} // verus!
