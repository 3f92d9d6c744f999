use vstd::prelude::*;
use vstd::wrapping::u32_specs;
use vstd::string::StringSliceAdditionalSpecFns;
use crate::board::{
    Board, H, W, rows_of, cleared, lines_cleared, kept, lemma_kept, row_is_full, well_shaped,
    empty_row, empty_rows, lemma_rows_of_shape, cell_x, cell_y, stamp, put, no_full_row,
    lemma_cleared_no_full_row, lemma_empty_no_full_row, lemma_stamp_lines,
};
use crate::shapes::{shape_offsets, shape_dx, shape_dy, lemma_shape_in_box, KINDS, ROTATIONS};
use crate::text::{decimal, format_decimal};

verus! {

broadcast use vstd::array::group_array_axioms, lemma_rows_of_shape;

/// The well as it stands while full rows are being removed one at a time:
/// `c` empty rows, then the first `u` original rows still to be examined,
/// then the original rows below them that are kept.
spec fn partly_cleared(old_rows: Seq<Seq<u8>>, c: nat, u: int) -> Seq<Seq<u8>> {
    empty_rows(c).add(old_rows.subrange(0, u)).add(kept(old_rows.subrange(u, H as int)))
}

/// Removes every full row, scanning upwards and pulling the rows above a full
/// row down by one. Returns how many rows were removed.
pub fn clear_lines(board: &mut Board) -> (count: usize)
    ensures
        rows_of(*final(board)) == cleared(rows_of(*old(board))),
        count == lines_cleared(rows_of(*old(board))),
{
    let ghost old_rows = rows_of(*board);
    let ghost mut u: int = H as int;
    let mut count: usize = 0;
    let mut y: i32 = H as i32 - 1;
    proof {
        lemma_kept(old_rows.subrange(H as int, H as int));
        assert(old_rows.subrange(H as int, H as int) =~= Seq::<Seq<u8>>::empty());
        assert(old_rows.subrange(0, H as int) =~= old_rows);
        assert(rows_of(*board) =~= partly_cleared(old_rows, 0, u));
    }
    while y >= 0
        invariant
            -1 <= y < H,
            0 <= u <= H,
            well_shaped(old_rows),
            kept(old_rows.subrange(u, H as int)).len() <= H - u,
            count + u + kept(old_rows.subrange(u, H as int)).len() == H,
            u > 0 ==> y + 1 == count + u,
            u == 0 ==> y + 1 <= count,
            rows_of(*board) == partly_cleared(old_rows, count as nat, u),
        decreases y + 1 + u,
    {
        let ghost before = old_rows.subrange(u, H as int);
        let ghost prev = *board;
        let full = row_is_full(&board[y as usize]);
        proof {
            lemma_kept(before);
            if u == 0 {
                assert(rows_of(prev)[y as int] == empty_row());
                assert(empty_row()[0] == 0);
            } else {
                assert(rows_of(prev)[y as int] == old_rows[u - 1]);
            }
        }
        if full {
            let mut yy: usize = y as usize;
            while yy >= 1
                invariant
                    0 <= yy <= y < H,
                    forall|r: int| 0 <= r <= yy ==> #[trigger] board@[r] == prev@[r],
                    forall|r: int| yy < r <= y ==> #[trigger] board@[r] == prev@[r - 1],
                    forall|r: int| y < r < H ==> #[trigger] board@[r] == prev@[r],
                decreases yy,
            {
                board[yy] = board[yy - 1];
                yy -= 1;
            }
            board[0] = [0u8; W];
            count += 1;
            proof {
                let after = old_rows.subrange(u - 1, H as int);
                assert(after.drop_first() =~= before);
                assert(after[0] == old_rows[u - 1]);
                assert(kept(after) == kept(before));
                let pp = partly_cleared(old_rows, (count - 1) as nat, u);
                u = u - 1;
                let tt = partly_cleared(old_rows, count as nat, u);
                assert([0u8; W]@ =~= empty_row());
                assert forall|r: int| 0 <= r < H implies #[trigger] rows_of(*board)[r] == tt[r] by {
                    if r == 0 {
                    } else if r <= y {
                        assert(board@[r] == prev@[r - 1]);
                        assert(rows_of(prev)[r - 1] == pp[r - 1]);
                    } else {
                        assert(board@[r] == prev@[r]);
                        assert(rows_of(prev)[r] == pp[r]);
                    }
                }
                assert(rows_of(*board) =~= tt);
            }
        } else {
            y -= 1;
            proof {
                if u > 0 {
                    let after = old_rows.subrange(u - 1, H as int);
                    assert(after.drop_first() =~= before);
                    assert(after[0] == old_rows[u - 1]);
                    assert(kept(after) =~= seq![old_rows[u - 1]].add(kept(before)));
                    u = u - 1;
                    assert(partly_cleared(old_rows, count as nat, u) =~= partly_cleared(
                        old_rows,
                        count as nat,
                        u + 1,
                    ));
                }
            }
        }
    }
    proof {
        assert(old_rows.subrange(0, 0) =~= Seq::<Seq<u8>>::empty());
        assert(old_rows.subrange(0, H as int) =~= old_rows);
        assert(partly_cleared(old_rows, count as nat, 0) =~= cleared(old_rows));
    }
    count
}

/// The falling tetromino of the terminal game.
#[derive(Clone, Copy)]
pub struct Piece {
    pub kind: usize,
    pub rot: usize,
    pub x: i32,
    pub y: i32,
}

impl Piece {
    /// Column of cell `i` of the piece.
    pub open spec fn cx(self, i: int) -> int {
        cell_x(self.kind as int, self.rot as int, self.x as int, i)
    }

    /// Row of cell `i` of the piece.
    pub open spec fn cy(self, i: int) -> int {
        cell_y(self.kind as int, self.rot as int, self.y as int, i)
    }

    /// Kind and rotation name an entry of the shape table.
    pub open spec fn valid(self) -> bool {
        self.kind < KINDS && self.rot < ROTATIONS
    }

    /// The first cell's coordinates fit in `i32`.
    pub open spec fn first_cell_fits(self) -> bool {
        self.cx(0) <= i32::MAX && self.cy(0) <= i32::MAX
    }

    /// All cells' coordinates fit in `i32`.
    pub open spec fn cells_fit(self) -> bool {
        &&& self.cx(0) <= i32::MAX && self.cy(0) <= i32::MAX
        &&& self.cx(1) <= i32::MAX && self.cy(1) <= i32::MAX
        &&& self.cx(2) <= i32::MAX && self.cy(2) <= i32::MAX
        &&& self.cx(3) <= i32::MAX && self.cy(3) <= i32::MAX
    }

    /// The piece shifted by `(dx, dy)`.
    pub open spec fn shifted(self, dx: int, dy: int) -> Piece {
        Piece { x: (self.x + dx) as i32, y: (self.y + dy) as i32, ..self }
    }

    /// The piece in its next rotation state.
    pub open spec fn turned(self) -> Piece {
        Piece { rot: ((self.rot + 1) % 4) as usize, ..self }
    }
}

/// Cell `(x, y)` is left of, right of or below the well, or an occupied cell;
/// cells above the top row are free.
pub open spec fn blocked(rows: Seq<Seq<u8>>, x: int, y: int) -> bool {
    x < 0 || x >= W || y >= H || (y >= 0 && rows[y][x] != 0)
}

/// Some cell of the piece is blocked.
pub open spec fn collides_at(rows: Seq<Seq<u8>>, p: Piece) -> bool {
    ||| blocked(rows, p.cx(0), p.cy(0))
    ||| blocked(rows, p.cx(1), p.cy(1))
    ||| blocked(rows, p.cx(2), p.cy(2))
    ||| blocked(rows, p.cx(3), p.cy(3))
}

/// The seed after one step of the generator that picks the next kind.
pub open spec fn next_seed(seed: u32) -> u32 {
    u32_specs::wrapping_add(u32_specs::wrapping_mul(seed, 1103515245), 12345)
}

/// The piece that enters the well when the generator holds `seed`.
pub open spec fn spawned(seed: u32) -> Piece {
    Piece { kind: ((next_seed(seed) >> 16u32) % 7) as usize, rot: 0, x: 3, y: 0 }
}

/// Advances the seed and returns a new piece of the kind picked by bits 16
/// and up of the seed, unrotated, at column 3 of the top row.
pub fn spawn(seed: &mut u32) -> (p: Piece)
    ensures
        *final(seed) == next_seed(*old(seed)),
        p == spawned(*old(seed)),
{
    *seed = seed.wrapping_mul(1103515245).wrapping_add(12345);
    Piece { kind: ((*seed >> 16) % 7) as usize, rot: 0, x: 3, y: 0 }
}

/// Whether some cell of the piece is blocked.
pub fn collides(p: &Piece, board: &Board) -> (r: bool)
    requires
        p.valid(),
        p.first_cell_fits(),
    ensures
        r == collides_at(rows_of(*board), *p),
{
    let cells = shape_offsets(p.kind, p.rot);
    proof {
        lemma_shape_in_box(p.kind as int, p.rot as int);
    }
    let mut i: usize = 0;
    while i < 4
        invariant
            i <= 4,
            p.valid(),
            p.first_cell_fits(),
            i > 0 ==> !blocked(rows_of(*board), p.cx(0), p.cy(0)),
            forall|j: int| 0 <= j < 4 ==> 0 <= #[trigger] shape_dx(p.kind as int, p.rot as int, j) <= 3
                && 0 <= shape_dy(p.kind as int, p.rot as int, j) <= 3,
            forall|j: int|
                0 <= j < 4 ==> (#[trigger] cells@[j]).0 == shape_dx(p.kind as int, p.rot as int, j)
                    && cells@[j].1 == shape_dy(p.kind as int, p.rot as int, j),
            forall|j: int| 0 <= j < i ==> !blocked(rows_of(*board), #[trigger] p.cx(j), p.cy(j)),
        decreases 4 - i,
    {
        let (dx, dy) = cells[i];
        proof {
            assert(cells@[i as int].0 == shape_dx(p.kind as int, p.rot as int, i as int));
            assert(cells@[0].0 == shape_dx(p.kind as int, p.rot as int, 0));
        }
        let x = p.x + dx as i32;
        let y = p.y + dy as i32;
        if x < 0 || x >= W as i32 || y >= H as i32 {
            return true;
        }
        if y >= 0 && board[y as usize][x as usize] != 0 {
            return true;
        }
        i += 1;
    }
    false
}

/// The inputs on which `try_move` computes without overflow.
pub open spec fn move_fits(p: Piece, dx: int, dy: int) -> bool {
    &&& i32::MIN <= p.x + dx <= i32::MAX
    &&& i32::MIN <= p.y + dy <= i32::MAX
    &&& p.shifted(dx, dy).first_cell_fits()
}

/// Moves the piece by `(dx, dy)` unless it would then collide; returns whether
/// it moved.
pub fn try_move(p: &mut Piece, dx: i32, dy: i32, board: &Board) -> (moved: bool)
    requires
        old(p).valid(),
        move_fits(*old(p), dx as int, dy as int),
    ensures
        moved == !collides_at(rows_of(*board), old(p).shifted(dx as int, dy as int)),
        *final(p) == if moved {
            old(p).shifted(dx as int, dy as int)
        } else {
            *old(p)
        },
{
    let old = *p;
    p.x += dx;
    p.y += dy;
    if collides(p, board) {
        *p = old;
        false
    } else {
        true
    }
}

/// The piece `try_rotate` ends with: the next rotation in place, else shifted
/// one column left, else one column right, else the piece unchanged.
pub open spec fn rotated_with_kick(rows: Seq<Seq<u8>>, p: Piece) -> Piece {
    let t = p.turned();
    if !collides_at(rows, t) {
        t
    } else if !collides_at(rows, t.shifted(-1, 0)) {
        t.shifted(-1, 0)
    } else if !collides_at(rows, t.shifted(1, 0)) {
        t.shifted(1, 0)
    } else {
        p
    }
}

/// The inputs on which `try_rotate` computes without overflow.
pub open spec fn rotate_fits(rows: Seq<Seq<u8>>, p: Piece) -> bool {
    let t = p.turned();
    &&& t.first_cell_fits()
    &&& collides_at(rows, t) ==> p.x - 1 >= i32::MIN && t.shifted(-1, 0).first_cell_fits()
    &&& collides_at(rows, t) && collides_at(rows, t.shifted(-1, 0)) ==> p.x + 1 <= i32::MAX
        && t.shifted(1, 0).first_cell_fits()
}

/// Turns the piece to its next rotation, trying a one-column kick to the left
/// and then to the right when the turned piece collides; gives up and keeps
/// the piece as it was when all three collide.
pub fn try_rotate(p: &mut Piece, board: &Board)
    requires
        old(p).valid(),
        rotate_fits(rows_of(*board), *old(p)),
    ensures
        *final(p) == rotated_with_kick(rows_of(*board), *old(p)),
{
    let old = *p;
    p.rot = (p.rot + 1) & 3;
    proof {
        lemma_next_rotation(old.rot);
    }
    if collides(p, board) {
        p.x -= 1;
        if collides(p, board) {
            p.x += 2;
            if collides(p, board) {
                *p = old;
            }
        }
    }
}

/// Writes the piece into the well with color `kind + 1`; cells outside the
/// well are skipped.
pub fn lock_piece(p: &Piece, board: &mut Board)
    requires
        p.valid(),
        p.cells_fit(),
    ensures
        rows_of(*final(board)) == stamp(
            rows_of(*old(board)),
            p.kind as int,
            p.rot as int,
            p.x as int,
            p.y as int,
        ),
{
    let ghost start = rows_of(*board);
    let cells = shape_offsets(p.kind, p.rot);
    proof {
        lemma_shape_in_box(p.kind as int, p.rot as int);
    }
    let mut i: usize = 0;
    while i < 4
        invariant
            i <= 4,
            p.valid(),
            p.cells_fit(),
            forall|j: int|
                0 <= j < 4 ==> (#[trigger] cells@[j]).0 == shape_dx(p.kind as int, p.rot as int, j)
                    && cells@[j].1 == shape_dy(p.kind as int, p.rot as int, j),
            forall|j: int| 0 <= j < 4 ==> 0 <= #[trigger] shape_dx(p.kind as int, p.rot as int, j) <= 3
                && 0 <= shape_dy(p.kind as int, p.rot as int, j) <= 3,
            rows_of(*board) == put_first(start, *p, (p.kind + 1) as u8, i as int),
        decreases 4 - i,
    {
        proof {
            assert(0 <= i < 4);
        }
        let (dx, dy) = cells[i];
        proof {
            assert(cells@[i as int].0 == shape_dx(p.kind as int, p.rot as int, i as int));
        }
        let x = p.x + dx as i32;
        let y = p.y + dy as i32;
        let ghost prev = *board;
        if y >= 0 && x >= 0 && x < W as i32 && y < H as i32 {
            board[y as usize][x as usize] = (p.kind + 1) as u8;
        }
        proof {
            assert(rows_of(*board) =~= put(
                rows_of(prev),
                p.cx(i as int),
                p.cy(i as int),
                (p.kind + 1) as u8,
            ));
        }
        i += 1;
    }
    proof {
        reveal_with_fuel(put_first, 5);
    }
}

/// The well after the first `n` cells of the piece are written with `v`.
pub open spec fn put_first(rows: Seq<Seq<u8>>, p: Piece, v: u8, n: int) -> Seq<Seq<u8>>
    decreases n,
{
    if n <= 0 {
        rows
    } else {
        put(put_first(rows, p, v, n - 1), p.cx(n - 1), p.cy(n - 1), v)
    }
}

proof fn lemma_next_rotation(r: usize)
    requires
        r < 4,
    ensures
        ((r + 1) as usize) & 3 == (r + 1) % 4,
{
    assert(((r + 1) as usize) & 3 == (r + 1) % 4) by (bit_vector)
        requires
            r < 4,
    ;
}

/// The seed the terminal game starts from.
pub const START_SEED: u32 = 1234567;

/// What one fall does: a piece that can move down one row does; otherwise it
/// is locked, full rows are cleared and scored at 100 each, the next piece
/// enters, and the game stops when that piece collides at once.
pub open spec fn fall_step(
    rows0: Seq<Seq<u8>>,
    p0: Piece,
    seed0: u32,
    score0: usize,
    rows1: Seq<Seq<u8>>,
    p1: Piece,
    seed1: u32,
    score1: usize,
    stop: bool,
) -> bool {
    if !collides_at(rows0, p0.shifted(0, 1)) {
        rows1 == rows0 && p1 == p0.shifted(0, 1) && seed1 == seed0 && score1 == score0 && !stop
    } else {
        let l = stamp(rows0, p0.kind as int, p0.rot as int, p0.x as int, p0.y as int);
        &&& rows1 == cleared(l)
        &&& score1 == score0 + 100 * lines_cleared(l)
        &&& seed1 == next_seed(seed0)
        &&& p1 == spawned(seed0)
        &&& stop == collides_at(cleared(l), spawned(seed0))
    }
}

/// The state of the terminal Tetris game.
pub struct UserTetris {
    pub board: Board,
    pub seed: u32,
    pub score: usize,
    pub current: Piece,
}

impl UserTetris {
    /// What every state of a running game satisfies: the piece is a valid
    /// tetromino that collides with nothing, no row of the well is full, and
    /// the score is a multiple of 100.
    pub open spec fn inv(&self) -> bool {
        &&& self.current.valid()
        &&& !collides_at(rows_of(self.board), self.current)
        &&& no_full_row(rows_of(self.board))
        &&& self.score % 100 == 0
    }

    /// One fall cannot overflow the score.
    pub open spec fn fall_score_fits(&self) -> bool {
        collides_at(rows_of(self.board), self.current.shifted(0, 1)) ==> self.score + 100
            * lines_cleared(
            stamp(
                rows_of(self.board),
                self.current.kind as int,
                self.current.rot as int,
                self.current.x as int,
                self.current.y as int,
            ),
        ) <= usize::MAX
    }

    /// A new game: an empty well and the first piece drawn from `START_SEED`.
    pub fn new() -> (g: UserTetris)
        ensures
            g.inv(),
            rows_of(g.board) == empty_rows(H as nat),
            g.current == spawned(START_SEED),
            g.seed == next_seed(START_SEED),
            g.score == 0,
    {
        let board: Board = [[0u8; W]; H];
        let mut seed: u32 = START_SEED;
        let current = spawn(&mut seed);
        proof {
            lemma_shape_in_box(current.kind as int, 0);
            lemma_empty_no_full_row(H as nat);
            assert(rows_of(board) =~= empty_rows(H as nat)) by {
                assert forall|y: int| 0 <= y < H implies #[trigger] rows_of(board)[y] == empty_rows(
                    H as nat,
                )[y] by {
                    assert(board@[y]@ =~= empty_row());
                }
            }
        }
        UserTetris { board, seed, score: 0, current }
    }

    /// Reacts to key `c`: `a`/`d` move the piece sideways and `w` turns it
    /// (with wall kicks), each only when the result fits; `s` makes the piece
    /// fall (see `fall_step`); `q` quits. Returns whether the game stops.
    pub fn handle_key(&mut self, c: u8) -> (stop: bool)
        requires
            old(self).inv(),
            c == 0x73 || c == 0x53 ==> old(self).fall_score_fits(),
        ensures
            !stop ==> final(self).inv(),
            (c == 0x61 || c == 0x41) ==> !stop && key_move(*old(self), *final(self), -1),
            (c == 0x64 || c == 0x44) ==> !stop && key_move(*old(self), *final(self), 1),
            (c == 0x77 || c == 0x57) ==> !stop && final(self).board == old(self).board
                && final(self).seed == old(self).seed && final(self).score == old(self).score
                && final(self).current == rotated_with_kick(rows_of(old(self).board), old(self).current),
            (c == 0x73 || c == 0x53) ==> fall_step(
                rows_of(old(self).board),
                old(self).current,
                old(self).seed,
                old(self).score,
                rows_of(final(self).board),
                final(self).current,
                final(self).seed,
                final(self).score,
                stop,
            ),
            (c == 0x71 || c == 0x51) ==> stop && *final(self) == *old(self),
            !(c == 0x61 || c == 0x41 || c == 0x64 || c == 0x44 || c == 0x77 || c == 0x57 || c == 0x73
                || c == 0x53 || c == 0x71 || c == 0x51) ==> !stop && *final(self) == *old(self),
    {
        proof {
            lemma_running_piece_bounds(rows_of(self.board), self.current);
        }
        if c == 0x61 || c == 0x41 {
            let _ = try_move(&mut self.current, -1, 0, &self.board);
            false
        } else if c == 0x64 || c == 0x44 {
            let _ = try_move(&mut self.current, 1, 0, &self.board);
            false
        } else if c == 0x73 || c == 0x53 {
            self.fall()
        } else if c == 0x77 || c == 0x57 {
            try_rotate(&mut self.current, &self.board);
            false
        } else if c == 0x71 || c == 0x51 {
            true
        } else {
            false
        }
    }

    /// Gravity: on every eighth frame the piece falls (see `fall_step`).
    /// Returns whether the game stops.
    pub fn on_frame(&mut self, frame: usize) -> (stop: bool)
        requires
            old(self).inv(),
            old(self).fall_score_fits(),
        ensures
            !stop ==> final(self).inv(),
            frame % 8 == 0 ==> fall_step(
                rows_of(old(self).board),
                old(self).current,
                old(self).seed,
                old(self).score,
                rows_of(final(self).board),
                final(self).current,
                final(self).seed,
                final(self).score,
                stop,
            ),
            frame % 8 != 0 ==> !stop && *final(self) == *old(self),
    {
        if frame.is_multiple_of(8) {
            self.fall()
        } else {
            false
        }
    }

    fn fall(&mut self) -> (stop: bool)
        requires
            old(self).inv(),
            old(self).fall_score_fits(),
        ensures
            !stop ==> final(self).inv(),
            fall_step(
                rows_of(old(self).board),
                old(self).current,
                old(self).seed,
                old(self).score,
                rows_of(final(self).board),
                final(self).current,
                final(self).seed,
                final(self).score,
                stop,
            ),
    {
        proof {
            lemma_running_piece_bounds(rows_of(self.board), self.current);
        }
        if !try_move(&mut self.current, 0, 1, &self.board) {
            let ghost l = stamp(
                rows_of(self.board),
                self.current.kind as int,
                self.current.rot as int,
                self.current.x as int,
                self.current.y as int,
            );
            lock_piece(&self.current, &mut self.board);
            proof {
                lemma_kept(l);
                lemma_cleared_no_full_row(l);
            }
            let n = clear_lines(&mut self.board);
            self.score += n * 100;
            self.current = spawn(&mut self.seed);
            proof {
                lemma_shape_in_box(self.current.kind as int, 0);
            }
            if collides(&self.current, &self.board) {
                return true;
            }
        }
        false
    }
}

impl UserTetris {
    /// A running game whose score leaves room for 400 more points can let
    /// its piece fall without overflow: only the rows the piece lands in can
    /// fill up.
    pub proof fn lemma_fall_score_fits(&self)
        requires
            self.inv(),
            self.score <= usize::MAX - 400,
        ensures
            self.fall_score_fits(),
    {
        lemma_stamp_lines(
            rows_of(self.board),
            self.current.kind as int,
            self.current.rot as int,
            self.current.x as int,
            self.current.y as int,
        );
    }
}

/// The effect of a sideways key: the piece moves by `dx` columns unless that
/// collides; nothing else changes.
pub open spec fn key_move(g0: UserTetris, g1: UserTetris, dx: int) -> bool {
    &&& g1.board == g0.board
    &&& g1.seed == g0.seed
    &&& g1.score == g0.score
    &&& g1.current == if collides_at(rows_of(g0.board), g0.current.shifted(dx, 0)) {
        g0.current
    } else {
        g0.current.shifted(dx, 0)
    }
}

/// A piece that collides with nothing lies between the side walls and above
/// the floor, so every move of it computes without overflow.
proof fn lemma_running_piece_bounds(rows: Seq<Seq<u8>>, p: Piece)
    requires
        p.valid(),
        !collides_at(rows, p),
    ensures
        -3 <= p.x <= 9,
        p.y <= 19,
        p.cells_fit(),
        move_fits(p, -1, 0),
        move_fits(p, 1, 0),
        move_fits(p, 0, 1),
        rotate_fits(rows, p),
{
    lemma_shape_in_box(p.kind as int, p.rot as int);
    lemma_shape_in_box(p.kind as int, ((p.rot + 1) % 4) as int);
}

/// Cell `(x, y)` shows a block: it is occupied, or the falling piece covers
/// it.
pub open spec fn shown(rows: Seq<Seq<u8>>, cur: Piece, x: int, y: int) -> bool {
    ||| rows[y][x] != 0
    ||| cur.cx(0) == x && cur.cy(0) == y
    ||| cur.cx(1) == x && cur.cy(1) == y
    ||| cur.cx(2) == x && cur.cy(2) == y
    ||| cur.cx(3) == x && cur.cy(3) == y
}

/// Two characters per cell: `[]` for a block, two spaces otherwise.
pub open spec fn cell_text(filled: bool) -> Seq<u8> {
    if filled {
        seq![0x5bu8, 0x5du8]
    } else {
        seq![0x20u8, 0x20u8]
    }
}

/// The cells `0..k` of row `y`.
pub open spec fn cells_text(rows: Seq<Seq<u8>>, cur: Piece, y: int, k: int) -> Seq<u8>
    decreases k,
{
    if k <= 0 {
        Seq::empty()
    } else {
        cells_text(rows, cur, y, k - 1) + cell_text(shown(rows, cur, k - 1, y))
    }
}

/// Row `y` between two `|` walls, and a line break.
pub open spec fn row_text(rows: Seq<Seq<u8>>, cur: Piece, y: int) -> Seq<u8> {
    seq![0x7cu8] + cells_text(rows, cur, y, W as int) + seq![0x7cu8, 0x0au8]
}

/// Rows `0..k`.
pub open spec fn rows_text(rows: Seq<Seq<u8>>, cur: Piece, k: int) -> Seq<u8>
    decreases k,
{
    if k <= 0 {
        Seq::empty()
    } else {
        rows_text(rows, cur, k - 1) + row_text(rows, cur, k - 1)
    }
}

/// The top and bottom border: `+`, two dashes per column, `+`, line break.
pub open spec fn border_text() -> Seq<u8> {
    seq![0x2bu8] + Seq::new(2 * W as nat, |i: int| 0x2du8) + seq![0x2bu8, 0x0au8]
}

/// One frame of the terminal game: cursor home, the title line with the
/// score, the bordered well with the falling piece, one line per row.
pub open spec fn frame_text(rows: Seq<Seq<u8>>, cur: Piece, score: usize) -> Seq<u8> {
    "\x1b[H".spec_bytes() + "Tetris  WASD move/rotate  q quit  score=".spec_bytes() + decimal(
        score as nat,
    ) + seq![0x0au8] + border_text() + rows_text(rows, cur, H as int) + border_text()
}

fn push_str(out: &mut Vec<u8>, s: &str)
    ensures
        final(out)@ == old(out)@ + s.spec_bytes(),
{
    let b = s.as_bytes();
    let ghost start = out@;
    let mut i: usize = 0;
    while i < b.len()
        invariant
            i <= b@.len(),
            b@ == s.spec_bytes(),
            out@ == start + b@.subrange(0, i as int),
        decreases b@.len() - i,
    {
        out.push(b[i]);
        proof {
            assert(b@.subrange(0, i + 1) =~= b@.subrange(0, i as int).push(b@[i as int]));
        }
        i += 1;
    }
    proof {
        assert(b@.subrange(0, b@.len() as int) =~= b@);
    }
}

fn push_border(out: &mut Vec<u8>)
    ensures
        final(out)@ == old(out)@ + border_text(),
{
    let ghost start = out@;
    out.push(0x2b);
    let mut x: usize = 0;
    while x < W
        invariant
            x <= W,
            out@ == start + seq![0x2bu8] + Seq::new(2 * x as nat, |i: int| 0x2du8),
        decreases W - x,
    {
        out.push(0x2d);
        out.push(0x2d);
        proof {
            assert(start + seq![0x2bu8] + Seq::new(2 * (x + 1) as nat, |i: int| 0x2du8) =~= out@);
        }
        x += 1;
    }
    out.push(0x2b);
    out.push(0x0a);
    proof {
        assert(out@ =~= start + border_text());
    }
}

/// Builds the text of one frame (see `frame_text`).
pub fn render(board: &Board, cur: &Piece, score: usize) -> (text: Vec<u8>)
    requires
        cur.valid(),
        cur.cells_fit(),
    ensures
        text@ == frame_text(rows_of(*board), *cur, score),
{
    let ghost rows = rows_of(*board);
    let mut out: Vec<u8> = Vec::new();
    push_str(&mut out, "\x1b[H");
    push_str(&mut out, "Tetris  WASD move/rotate  q quit  score=");
    let digits = format_decimal(score);
    let mut k: usize = 0;
    let ghost before_digits = out@;
    while k < digits.len()
        invariant
            k <= digits@.len(),
            out@ == before_digits + digits@.subrange(0, k as int),
        decreases digits@.len() - k,
    {
        out.push(digits[k]);
        proof {
            assert(digits@.subrange(0, k + 1) =~= digits@.subrange(0, k as int).push(digits@[k as int]));
        }
        k += 1;
    }
    proof {
        assert(digits@.subrange(0, digits@.len() as int) =~= digits@);
    }
    out.push(0x0a);
    push_border(&mut out);
    let cells = shape_offsets(cur.kind, cur.rot);
    proof {
        lemma_shape_in_box(cur.kind as int, cur.rot as int);
    }
    let ghost head = out@;
    let mut y: usize = 0;
    while y < H
        invariant
            y <= H,
            cur.valid(),
            cur.cells_fit(),
            rows == rows_of(*board),
            forall|j: int|
                0 <= j < 4 ==> (#[trigger] cells@[j]).0 == shape_dx(cur.kind as int, cur.rot as int, j)
                    && cells@[j].1 == shape_dy(cur.kind as int, cur.rot as int, j),
            out@ == head + rows_text(rows, *cur, y as int),
        decreases H - y,
    {
        let ghost row_start = out@;
        out.push(0x7c);
        let mut x: usize = 0;
        while x < W
            invariant
                x <= W,
                y < H,
                cur.valid(),
                cur.cells_fit(),
                rows == rows_of(*board),
                forall|j: int|
                    0 <= j < 4 ==> (#[trigger] cells@[j]).0 == shape_dx(cur.kind as int, cur.rot as int, j)
                        && cells@[j].1 == shape_dy(cur.kind as int, cur.rot as int, j),
                out@ == row_start + seq![0x7cu8] + cells_text(rows, *cur, y as int, x as int),
            decreases W - x,
        {
            let mut v = board[y][x];
            let mut i: usize = 0;
            while i < 4
                invariant
                    i <= 4,
                    x < W,
                    y < H,
                    cur.valid(),
                    cur.cells_fit(),
                    forall|j: int|
                        0 <= j < 4 ==> (#[trigger] cells@[j]).0 == shape_dx(
                            cur.kind as int,
                            cur.rot as int,
                            j,
                        ) && cells@[j].1 == shape_dy(cur.kind as int, cur.rot as int, j),
                    (v != 0) == (rows[y as int][x as int] != 0 || exists|j: int|
                        0 <= j < i && cur.cx(j) == x && cur.cy(j) == y),
                decreases 4 - i,
            {
                let (dx, dy) = cells[i];
                proof {
                    assert(cells@[i as int].0 == shape_dx(cur.kind as int, cur.rot as int, i as int));
                    assert(0 <= i < 4);
                }
                let px = cur.x + dx as i32;
                let py = cur.y + dy as i32;
                if px == x as i32 && py == y as i32 {
                    v = (cur.kind + 1) as u8;
                }
                proof {
                    if cur.cx(i as int) == x && cur.cy(i as int) == y {
                        assert(px == x && py == y);
                    }
                }
                i += 1;
            }
            proof {
                if shown(rows, *cur, x as int, y as int) {
                    if rows[y as int][x as int] == 0 {
                        if cur.cx(0) == x && cur.cy(0) == y {
                            assert(exists|j: int| 0 <= j < 4 && cur.cx(j) == x && cur.cy(j) == y);
                        } else if cur.cx(1) == x && cur.cy(1) == y {
                            assert(exists|j: int| 0 <= j < 4 && cur.cx(j) == x && cur.cy(j) == y);
                        } else if cur.cx(2) == x && cur.cy(2) == y {
                            assert(exists|j: int| 0 <= j < 4 && cur.cx(j) == x && cur.cy(j) == y);
                        } else {
                            assert(exists|j: int| 0 <= j < 4 && cur.cx(j) == x && cur.cy(j) == y);
                        }
                    }
                } else {
                    assert(!exists|j: int| 0 <= j < 4 && cur.cx(j) == x && cur.cy(j) == y);
                }
            }
            if v == 0 {
                out.push(0x20);
                out.push(0x20);
            } else {
                out.push(0x5b);
                out.push(0x5d);
            }
            proof {
                assert(out@ =~= row_start + seq![0x7cu8] + cells_text(rows, *cur, y as int, x + 1));
            }
            x += 1;
        }
        out.push(0x7c);
        out.push(0x0a);
        proof {
            assert(out@ =~= head + rows_text(rows, *cur, y + 1));
        }
        y += 1;
    }
    push_border(&mut out);
    proof {
        assert(out@ =~= frame_text(rows, *cur, score));
    }
    out
}

} // verus!
