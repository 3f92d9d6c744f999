use vstd::prelude::*;
use crate::shapes::{shape_dx, shape_dy};

verus! {

/// Width of a Tetris well, in cells.
pub const W: usize = 10;

/// Height of a Tetris well, in cells.
pub const H: usize = 20;

/// A Tetris well: `H` rows of `W` cells, top row first; `0` is an empty cell,
/// any other value the color index of a locked block.
pub type Board = [[u8; W]; H];

/// The well as a sequence of rows.
pub open spec fn rows_of(b: Board) -> Seq<Seq<u8>> {
    Seq::new(H as nat, |y: int| b@[y]@)
}

/// A well with no locked block.
pub open spec fn empty_row() -> Seq<u8> {
    Seq::new(W as nat, |x: int| 0u8)
}

/// `k` empty rows.
pub open spec fn empty_rows(k: nat) -> Seq<Seq<u8>> {
    Seq::new(k, |y: int| empty_row())
}

/// A row is full when none of its cells is empty.
pub open spec fn row_full(r: Seq<u8>) -> bool {
    forall|x: int| 0 <= x < r.len() ==> r[x] != 0
}

/// The rows that are not full, in their original top-to-bottom order.
pub open spec fn kept(rows: Seq<Seq<u8>>) -> Seq<Seq<u8>>
    decreases rows.len(),
{
    if rows.len() == 0 {
        Seq::empty()
    } else if row_full(rows[0]) {
        kept(rows.drop_first())
    } else {
        seq![rows[0]].add(kept(rows.drop_first()))
    }
}

/// The number of full rows.
pub open spec fn lines_cleared(rows: Seq<Seq<u8>>) -> int {
    rows.len() - kept(rows).len()
}

/// The well after its full rows are removed: the remaining rows keep their
/// order and sink to the bottom, and empty rows fill the top.
pub open spec fn cleared(rows: Seq<Seq<u8>>) -> Seq<Seq<u8>> {
    empty_rows((rows.len() - kept(rows).len()) as nat).add(kept(rows))
}

/// Column of cell `i` of tetromino `kind` in rotation `rot` placed at column `x`.
pub open spec fn cell_x(kind: int, rot: int, x: int, i: int) -> int {
    x + shape_dx(kind, rot, i)
}

/// Row of cell `i` of tetromino `kind` in rotation `rot` placed at row `y`.
pub open spec fn cell_y(kind: int, rot: int, y: int, i: int) -> int {
    y + shape_dy(kind, rot, i)
}

/// Whether `(x, y)` is a cell of the well.
pub open spec fn on_board(x: int, y: int) -> bool {
    0 <= x < W && 0 <= y < H
}

/// Sets cell `(x, y)` to `v` when it is a cell of the well.
pub open spec fn put(rows: Seq<Seq<u8>>, x: int, y: int, v: u8) -> Seq<Seq<u8>> {
    if on_board(x, y) {
        rows.update(y, rows[y].update(x, v))
    } else {
        rows
    }
}

/// The well after a piece is written into it with color `kind + 1`; cells of
/// the piece that lie outside the well are dropped.
pub open spec fn stamp(rows: Seq<Seq<u8>>, kind: int, rot: int, x: int, y: int) -> Seq<Seq<u8>> {
    let v = (kind + 1) as u8;
    let r1 = put(rows, cell_x(kind, rot, x, 0), cell_y(kind, rot, y, 0), v);
    let r2 = put(r1, cell_x(kind, rot, x, 1), cell_y(kind, rot, y, 1), v);
    let r3 = put(r2, cell_x(kind, rot, x, 2), cell_y(kind, rot, y, 2), v);
    put(r3, cell_x(kind, rot, x, 3), cell_y(kind, rot, y, 3), v)
}

/// Every cell holds a color index of at most `max`.
pub open spec fn cells_at_most(rows: Seq<Seq<u8>>, max: u8) -> bool {
    forall|y: int, x: int| 0 <= y < rows.len() && 0 <= x < rows[y].len() ==> rows[y][x] <= max
}

/// A rectangular well of the standard size.
pub open spec fn well_shaped(rows: Seq<Seq<u8>>) -> bool {
    rows.len() == H && forall|y: int| 0 <= y < rows.len() ==> #[trigger] rows[y].len() == W
}

pub broadcast proof fn lemma_rows_of_shape(b: Board)
    ensures
        #[trigger] well_shaped(rows_of(b)),
{
    broadcast use vstd::array::group_array_axioms;

}

/// Removing full rows never adds rows, and leaves none that is full.
pub proof fn lemma_kept(rows: Seq<Seq<u8>>)
    ensures
        kept(rows).len() <= rows.len(),
        forall|i: int| 0 <= i < kept(rows).len() ==> !row_full(#[trigger] kept(rows)[i]),
        forall|i: int|
            0 <= i < kept(rows).len() ==> exists|j: int|
                0 <= j < rows.len() && #[trigger] kept(rows)[i] == rows[j],
    decreases rows.len(),
{
    if rows.len() > 0 {
        lemma_kept(rows.drop_first());
        let rest = kept(rows.drop_first());
        if !row_full(rows[0]) {
            assert forall|i: int| 0 <= i < kept(rows).len() implies exists|j: int|
                0 <= j < rows.len() && #[trigger] kept(rows)[i] == rows[j] by {
                if i == 0 {
                    assert(kept(rows)[i] == rows[0]);
                } else {
                    assert(kept(rows)[i] == rest[i - 1]);
                    let j = choose|j: int| 0 <= j < rows.drop_first().len() && rest[i - 1] == rows.drop_first()[j];
                    assert(rows[j + 1] == rows.drop_first()[j]);
                }
            }
        } else {
            assert forall|i: int| 0 <= i < kept(rows).len() implies exists|j: int|
                0 <= j < rows.len() && #[trigger] kept(rows)[i] == rows[j] by {
                let j = choose|j: int| 0 <= j < rows.drop_first().len() && rest[i] == rows.drop_first()[j];
                assert(rows[j + 1] == rows.drop_first()[j]);
            }
        }
    }
}

/// Clearing rows keeps the well's shape and introduces no new color.
pub proof fn lemma_cleared_cells(rows: Seq<Seq<u8>>, max: u8)
    requires
        well_shaped(rows),
        cells_at_most(rows, max),
    ensures
        well_shaped(cleared(rows)),
        cells_at_most(cleared(rows), max),
        0 <= lines_cleared(rows) <= H,
{
    lemma_kept(rows);
    let c = cleared(rows);
    let k = kept(rows);
    let e = (rows.len() - k.len()) as nat;
    assert forall|y: int| 0 <= y < c.len() implies #[trigger] c[y].len() == W && (forall|x: int|
        0 <= x < c[y].len() ==> c[y][x] <= max) by {
        if y >= e {
            assert(c[y] == k[y - e]);
            let j = choose|j: int| 0 <= j < rows.len() && k[y - e] == rows[j];
            assert(rows[j].len() == W);
        }
    }
}

/// Writing a piece of color at most `max` keeps the well's shape and its
/// colors at most `max`.
pub proof fn lemma_stamp_cells(rows: Seq<Seq<u8>>, kind: int, rot: int, x: int, y: int, max: u8)
    requires
        well_shaped(rows),
        cells_at_most(rows, max),
        0 <= kind,
        kind + 1 <= max,
    ensures
        well_shaped(stamp(rows, kind, rot, x, y)),
        cells_at_most(stamp(rows, kind, rot, x, y), max),
{
    let v = (kind + 1) as u8;
    let r1 = put(rows, cell_x(kind, rot, x, 0), cell_y(kind, rot, y, 0), v);
    let r2 = put(r1, cell_x(kind, rot, x, 1), cell_y(kind, rot, y, 1), v);
    let r3 = put(r2, cell_x(kind, rot, x, 2), cell_y(kind, rot, y, 2), v);
    lemma_put_cells(rows, cell_x(kind, rot, x, 0), cell_y(kind, rot, y, 0), v, max);
    lemma_put_cells(r1, cell_x(kind, rot, x, 1), cell_y(kind, rot, y, 1), v, max);
    lemma_put_cells(r2, cell_x(kind, rot, x, 2), cell_y(kind, rot, y, 2), v, max);
    lemma_put_cells(r3, cell_x(kind, rot, x, 3), cell_y(kind, rot, y, 3), v, max);
}

proof fn lemma_put_cells(rows: Seq<Seq<u8>>, x: int, y: int, v: u8, max: u8)
    requires
        well_shaped(rows),
        cells_at_most(rows, max),
        v <= max,
    ensures
        well_shaped(put(rows, x, y, v)),
        cells_at_most(put(rows, x, y, v), max),
{
    let r = put(rows, x, y, v);
    assert forall|yy: int| 0 <= yy < r.len() implies #[trigger] r[yy].len() == W && (forall|xx: int|
        0 <= xx < r[yy].len() ==> r[yy][xx] <= max) by {
        if on_board(x, y) && yy == y {
            assert(r[yy] == rows[y].update(x, v));
        }
    }
}

/// Keeping the rows that are not full changes nothing when none is full.
proof fn lemma_kept_none_full(rows: Seq<Seq<u8>>)
    requires
        forall|i: int| 0 <= i < rows.len() ==> !row_full(#[trigger] rows[i]),
    ensures
        kept(rows) == rows,
    decreases rows.len(),
{
    if rows.len() > 0 {
        assert(!row_full(rows[0]));
        let rest = rows.drop_first();
        assert forall|i: int| 0 <= i < rest.len() implies !row_full(#[trigger] rest[i]) by {
            assert(rest[i] == rows[i + 1]);
        }
        lemma_kept_none_full(rest);
        assert(seq![rows[0]].add(rest) =~= rows);
    }
}

/// After full rows are cleared no row is full, so clearing again changes
/// nothing.
pub proof fn lemma_cleared_idempotent(rows: Seq<Seq<u8>>)
    ensures
        lines_cleared(cleared(rows)) == 0,
        cleared(cleared(rows)) == cleared(rows),
{
    lemma_kept(rows);
    let c = cleared(rows);
    let k = kept(rows);
    let e = (rows.len() - k.len()) as nat;
    assert forall|i: int| 0 <= i < c.len() implies !row_full(#[trigger] c[i]) by {
        if i < e {
            assert(c[i] == empty_row());
            assert(c[i][0] == 0);
        } else {
            assert(c[i] == k[i - e]);
        }
    }
    lemma_kept_none_full(c);
    assert(cleared(c) =~= c);
}

/// No row of the well is full.
pub open spec fn no_full_row(rows: Seq<Seq<u8>>) -> bool {
    forall|y: int| 0 <= y < rows.len() ==> !row_full(#[trigger] rows[y])
}

/// After full rows are cleared no row is full.
pub proof fn lemma_cleared_no_full_row(rows: Seq<Seq<u8>>)
    ensures
        no_full_row(cleared(rows)),
{
    lemma_cleared_idempotent(rows);
    lemma_kept(cleared(rows));
    assert forall|y: int| 0 <= y < cleared(rows).len() implies !row_full(#[trigger] cleared(rows)[y]) by {
        assert(cleared(cleared(rows)) == cleared(rows));
        let c = cleared(rows);
        let e = (c.len() - kept(c).len()) as nat;
        assert(e == 0);
        assert(cleared(c)[y] == kept(c)[y]);
    }
}

/// A well of empty rows has no full row.
pub proof fn lemma_empty_no_full_row(k: nat)
    ensures
        no_full_row(empty_rows(k)),
{
    assert forall|y: int| 0 <= y < k implies !row_full(#[trigger] empty_rows(k)[y]) by {
        assert(empty_rows(k)[y][0] == 0);
    }
}

/// The number of full rows counts the first row when it is full, then the
/// full rows after it.
proof fn lemma_lines_cleared_first(rows: Seq<Seq<u8>>)
    requires
        rows.len() > 0,
    ensures
        lines_cleared(rows) == (if row_full(rows[0]) { 1int } else { 0int }) + lines_cleared(
            rows.drop_first(),
        ),
{
}

/// How many of the four rows `ys` lie in `lo..hi`, counted with repetition.
spec fn hits(ys: (int, int, int, int), lo: int, hi: int) -> int {
    (if lo <= ys.0 < hi { 1int } else { 0int }) + (if lo <= ys.1 < hi { 1int } else { 0int }) + (
    if lo <= ys.2 < hi { 1int } else { 0int }) + (if lo <= ys.3 < hi { 1int } else { 0int })
}

/// When only rows among `ys` can be full, there are at most as many full
/// rows as rows of `ys`.
proof fn lemma_full_rows_among(rows: Seq<Seq<u8>>, base: int, ys: (int, int, int, int))
    requires
        forall|i: int|
            0 <= i < rows.len() && #[trigger] row_full(rows[i]) ==> (base + i == ys.0 || base + i == ys.1
                || base + i == ys.2 || base + i == ys.3),
    ensures
        lines_cleared(rows) <= hits(ys, base, base + rows.len()),
    decreases rows.len(),
{
    if rows.len() > 0 {
        lemma_lines_cleared_first(rows);
        let rest = rows.drop_first();
        assert forall|i: int|
            0 <= i < rest.len() && #[trigger] row_full(rest[i]) implies (base + 1 + i == ys.0 || base + 1
                + i == ys.1 || base + 1 + i == ys.2 || base + 1 + i == ys.3) by {
            assert(rest[i] == rows[i + 1]);
        }
        lemma_full_rows_among(rest, base + 1, ys);
        if row_full(rows[0]) {
            assert(base == ys.0 || base == ys.1 || base == ys.2 || base == ys.3);
        }
    }
}

/// Writing a piece into a well without full rows leaves at most four full
/// rows, one for each cell of the piece.
pub proof fn lemma_stamp_lines(rows: Seq<Seq<u8>>, kind: int, rot: int, x: int, y: int)
    requires
        well_shaped(rows),
        no_full_row(rows),
    ensures
        0 <= lines_cleared(stamp(rows, kind, rot, x, y)) <= 4,
{
    let v = (kind + 1) as u8;
    let r1 = put(rows, cell_x(kind, rot, x, 0), cell_y(kind, rot, y, 0), v);
    let r2 = put(r1, cell_x(kind, rot, x, 1), cell_y(kind, rot, y, 1), v);
    let r3 = put(r2, cell_x(kind, rot, x, 2), cell_y(kind, rot, y, 2), v);
    let st = stamp(rows, kind, rot, x, y);
    let ys = (cell_y(kind, rot, y, 0), cell_y(kind, rot, y, 1), cell_y(kind, rot, y, 2), cell_y(kind, rot, y, 3));
    assert(r1.len() == rows.len() && r2.len() == rows.len() && r3.len() == rows.len());
    assert(st.len() == rows.len());
    assert forall|i: int|
        0 <= i < st.len() && #[trigger] row_full(st[i]) implies (0 + i == ys.0 || 0 + i == ys.1 || 0 + i
            == ys.2 || 0 + i == ys.3) by {
        if !(i == ys.0 || i == ys.1 || i == ys.2 || i == ys.3) {
            assert(r1[i] == rows[i]);
            assert(r2[i] == rows[i]);
            assert(r3[i] == rows[i]);
            assert(st[i] == rows[i]);
        }
    }
    lemma_full_rows_among(st, 0, ys);
    lemma_kept(st);
}

/// Whether every cell of `row` is occupied.
pub fn row_is_full(row: &[u8; W]) -> (r: bool)
    ensures
        r == row_full(row@),
{
    broadcast use vstd::array::group_array_axioms;

    let mut x: usize = 0;
    while x < W
        invariant
            x <= W,
            row@.len() == W,
            forall|i: int| 0 <= i < x ==> row@[i] != 0,
        decreases W - x,
    {
        if row[x] == 0 {
            return false;
        }
        x += 1;
    }
    true
}

} // verus!
