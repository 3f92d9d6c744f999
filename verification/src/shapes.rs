use vstd::prelude::*;

verus! {

/// Number of tetromino kinds.
pub const KINDS: usize = 7;

/// Number of rotation states of each tetromino.
pub const ROTATIONS: usize = 4;

/// The four cells of tetromino `kind` in rotation `rot`, as `(dx, dy)` offsets
/// inside its 4x4 bounding box.
pub open spec fn shape(kind: int, rot: int) -> Seq<(int, int)> {
    if kind == 0 && rot == 0 {
        seq![(0, 1), (1, 1), (2, 1), (3, 1)]
    } else if kind == 0 && rot == 1 {
        seq![(2, 0), (2, 1), (2, 2), (2, 3)]
    } else if kind == 0 && rot == 2 {
        seq![(0, 2), (1, 2), (2, 2), (3, 2)]
    } else if kind == 0 && rot == 3 {
        seq![(1, 0), (1, 1), (1, 2), (1, 3)]
    } else if kind == 1 && rot == 0 {
        seq![(0, 0), (0, 1), (1, 1), (2, 1)]
    } else if kind == 1 && rot == 1 {
        seq![(1, 0), (2, 0), (1, 1), (1, 2)]
    } else if kind == 1 && rot == 2 {
        seq![(0, 1), (1, 1), (2, 1), (2, 2)]
    } else if kind == 1 && rot == 3 {
        seq![(1, 0), (1, 1), (0, 2), (1, 2)]
    } else if kind == 2 && rot == 0 {
        seq![(2, 0), (0, 1), (1, 1), (2, 1)]
    } else if kind == 2 && rot == 1 {
        seq![(1, 0), (1, 1), (1, 2), (2, 2)]
    } else if kind == 2 && rot == 2 {
        seq![(0, 1), (1, 1), (2, 1), (0, 2)]
    } else if kind == 2 && rot == 3 {
        seq![(0, 0), (1, 0), (1, 1), (1, 2)]
    } else if kind == 3 && rot == 0 {
        seq![(1, 0), (2, 0), (1, 1), (2, 1)]
    } else if kind == 3 && rot == 1 {
        seq![(1, 0), (2, 0), (1, 1), (2, 1)]
    } else if kind == 3 && rot == 2 {
        seq![(1, 0), (2, 0), (1, 1), (2, 1)]
    } else if kind == 3 && rot == 3 {
        seq![(1, 0), (2, 0), (1, 1), (2, 1)]
    } else if kind == 4 && rot == 0 {
        seq![(1, 0), (2, 0), (0, 1), (1, 1)]
    } else if kind == 4 && rot == 1 {
        seq![(1, 0), (1, 1), (2, 1), (2, 2)]
    } else if kind == 4 && rot == 2 {
        seq![(1, 1), (2, 1), (0, 2), (1, 2)]
    } else if kind == 4 && rot == 3 {
        seq![(0, 0), (0, 1), (1, 1), (1, 2)]
    } else if kind == 5 && rot == 0 {
        seq![(1, 0), (0, 1), (1, 1), (2, 1)]
    } else if kind == 5 && rot == 1 {
        seq![(1, 0), (1, 1), (2, 1), (1, 2)]
    } else if kind == 5 && rot == 2 {
        seq![(0, 1), (1, 1), (2, 1), (1, 2)]
    } else if kind == 5 && rot == 3 {
        seq![(1, 0), (0, 1), (1, 1), (1, 2)]
    } else if kind == 6 && rot == 0 {
        seq![(0, 0), (1, 0), (1, 1), (2, 1)]
    } else if kind == 6 && rot == 1 {
        seq![(2, 0), (1, 1), (2, 1), (1, 2)]
    } else if kind == 6 && rot == 2 {
        seq![(0, 1), (1, 1), (1, 2), (2, 2)]
    } else if kind == 6 && rot == 3 {
        seq![(1, 0), (0, 1), (1, 1), (0, 2)]
    } else {
        seq![(0, 0), (0, 0), (0, 0), (0, 0)]
    }
}

/// Column offset of cell `i` of a shape.
pub open spec fn shape_dx(kind: int, rot: int, i: int) -> int {
    shape(kind, rot)[i].0
}

/// Row offset of cell `i` of a shape.
pub open spec fn shape_dy(kind: int, rot: int, i: int) -> int {
    shape(kind, rot)[i].1
}

/// Every shape has four cells, all inside its 4x4 box.
pub proof fn lemma_shape_in_box(kind: int, rot: int)
    ensures
        shape(kind, rot).len() == 4,
        forall|i: int|
            0 <= i < 4 ==> 0 <= #[trigger] shape_dx(kind, rot, i) <= 3 && 0 <= shape_dy(
                kind,
                rot,
                i,
            ) <= 3,
{
}

/// Side of the box a tetromino turns in: 4 for the I piece, 3 for the others.
pub open spec fn turn_side(kind: int) -> int {
    if kind == 0 {
        4
    } else {
        3
    }
}

/// Cell `c` turned a quarter turn clockwise inside a box of side `n`.
pub open spec fn turned_cell(c: (int, int), n: int) -> (int, int) {
    (n - 1 - c.1, c.0)
}

/// Two cells share a side.
pub open spec fn touching(a: (int, int), b: (int, int)) -> bool {
    (a.0 == b.0 && (a.1 == b.1 + 1 || b.1 == a.1 + 1)) || (a.1 == b.1 && (a.0 == b.0 + 1 || b.0 == a.0
        + 1))
}

/// How many of the six pairs of the four cells share a side.
pub open spec fn touching_pairs(s: Seq<(int, int)>) -> int {
    (if touching(s[0], s[1]) { 1int } else { 0int }) + (if touching(s[0], s[2]) { 1int } else { 0int })
        + (if touching(s[0], s[3]) { 1int } else { 0int }) + (if touching(s[1], s[2]) { 1int } else { 0int })
        + (if touching(s[1], s[3]) { 1int } else { 0int }) + (if touching(s[2], s[3]) { 1int } else { 0int })
}

/// Every rotation state is a tetromino: four different cells, joined into
/// one piece (on the grid, four cells with three or more sides in common are
/// connected).
pub proof fn lemma_shape_is_tetromino(kind: int, rot: int)
    requires
        0 <= kind < 7,
        0 <= rot < 4,
    ensures
        forall|i: int, j: int| 0 <= i < j < 4 ==> #[trigger] shape(kind, rot)[i] != #[trigger] shape(kind, rot)[j],
        touching_pairs(shape(kind, rot)) >= 3,
{
    if kind == 0 && rot == 0 {
    } else if kind == 0 && rot == 1 {
    } else if kind == 0 && rot == 2 {
    } else if kind == 0 && rot == 3 {
    } else if kind == 1 && rot == 0 {
    } else if kind == 1 && rot == 1 {
    } else if kind == 1 && rot == 2 {
    } else if kind == 1 && rot == 3 {
    } else if kind == 2 && rot == 0 {
    } else if kind == 2 && rot == 1 {
    } else if kind == 2 && rot == 2 {
    } else if kind == 2 && rot == 3 {
    } else if kind == 3 && rot == 0 {
    } else if kind == 3 && rot == 1 {
    } else if kind == 3 && rot == 2 {
    } else if kind == 3 && rot == 3 {
    } else if kind == 4 && rot == 0 {
    } else if kind == 4 && rot == 1 {
    } else if kind == 4 && rot == 2 {
    } else if kind == 4 && rot == 3 {
    } else if kind == 5 && rot == 0 {
    } else if kind == 5 && rot == 1 {
    } else if kind == 5 && rot == 2 {
    } else if kind == 5 && rot == 3 {
    } else if kind == 6 && rot == 0 {
    } else if kind == 6 && rot == 1 {
    } else if kind == 6 && rot == 2 {
    } else if kind == 6 && rot == 3 {
    }
}

/// Every piece enters lying flat: its spawn state fills at most the top two
/// rows of its box, with at least two cells in the second row.
pub proof fn lemma_spawn_is_flat(kind: int)
    requires
        0 <= kind < 7,
    ensures
        forall|i: int| 0 <= i < 4 ==> 0 <= (#[trigger] shape(kind, 0)[i]).1 <= 1,
        (if shape(kind, 0)[0].1 == 1 { 1int } else { 0int }) + (if shape(kind, 0)[1].1 == 1 { 1int } else {
            0int
        }) + (if shape(kind, 0)[2].1 == 1 { 1int } else { 0int }) + (if shape(kind, 0)[3].1 == 1 {
            1int
        } else {
            0int
        }) >= 2,
{
    if kind == 0 {
    } else if kind == 1 {
    } else if kind == 2 {
    } else if kind == 3 {
    } else if kind == 4 {
    } else if kind == 5 {
    } else {
    }
}

/// The seven kinds enter as the seven tetrominoes, in the order I, J, L, O,
/// S, T, Z: the I as a bar across the second row of its box; the J, L and T
/// as a bar across the left three cells of the second row with one cell above
/// its left end, right end and middle; the O as the square in the middle
/// columns; the S and Z as two pairs of cells, the upper pair one cell right
/// of the lower one (S) or left of it (Z).
pub proof fn lemma_spawn_shapes()
    ensures
        shape(0, 0).contains((0, 1)) && shape(0, 0).contains((1, 1)) && shape(0, 0).contains((2, 1))
            && shape(0, 0).contains((3, 1)),
        shape(1, 0).contains((0, 0)) && shape(1, 0).contains((0, 1)) && shape(1, 0).contains((1, 1))
            && shape(1, 0).contains((2, 1)),
        shape(2, 0).contains((2, 0)) && shape(2, 0).contains((0, 1)) && shape(2, 0).contains((1, 1))
            && shape(2, 0).contains((2, 1)),
        shape(3, 0).contains((1, 0)) && shape(3, 0).contains((2, 0)) && shape(3, 0).contains((1, 1))
            && shape(3, 0).contains((2, 1)),
        shape(4, 0).contains((1, 0)) && shape(4, 0).contains((2, 0)) && shape(4, 0).contains((0, 1))
            && shape(4, 0).contains((1, 1)),
        shape(5, 0).contains((1, 0)) && shape(5, 0).contains((0, 1)) && shape(5, 0).contains((1, 1))
            && shape(5, 0).contains((2, 1)),
        shape(6, 0).contains((0, 0)) && shape(6, 0).contains((1, 0)) && shape(6, 0).contains((1, 1))
            && shape(6, 0).contains((2, 1)),
{
    assert(shape(0, 0)[0] == (0int, 1int) && shape(0, 0)[1] == (1int, 1int) && shape(0, 0)[2] == (2int, 1int)
        && shape(0, 0)[3] == (3int, 1int));
    assert(shape(1, 0)[0] == (0int, 0int) && shape(1, 0)[1] == (0int, 1int) && shape(1, 0)[2] == (1int, 1int)
        && shape(1, 0)[3] == (2int, 1int));
    assert(shape(2, 0)[0] == (2int, 0int) && shape(2, 0)[1] == (0int, 1int) && shape(2, 0)[2] == (1int, 1int)
        && shape(2, 0)[3] == (2int, 1int));
    assert(shape(3, 0)[0] == (1int, 0int) && shape(3, 0)[1] == (2int, 0int) && shape(3, 0)[2] == (1int, 1int)
        && shape(3, 0)[3] == (2int, 1int));
    assert(shape(4, 0)[0] == (1int, 0int) && shape(4, 0)[1] == (2int, 0int) && shape(4, 0)[2] == (0int, 1int)
        && shape(4, 0)[3] == (1int, 1int));
    assert(shape(5, 0)[0] == (1int, 0int) && shape(5, 0)[1] == (0int, 1int) && shape(5, 0)[2] == (1int, 1int)
        && shape(5, 0)[3] == (2int, 1int));
    assert(shape(6, 0)[0] == (0int, 0int) && shape(6, 0)[1] == (1int, 0int) && shape(6, 0)[2] == (1int, 1int)
        && shape(6, 0)[3] == (2int, 1int));
}

/// Turning a piece takes it to its next rotation state: each state is the
/// previous one turned a quarter turn clockwise inside the piece's box, so all
/// four states of a kind have the same shape; the square O piece stays as it
/// is.
pub proof fn lemma_rotation_is_quarter_turn(kind: int, rot: int)
    requires
        0 <= kind < 7,
        0 <= rot < 4,
    ensures
        kind != 3 ==> forall|i: int|
            0 <= i < 4 ==> shape(kind, (rot + 1) % 4).contains(
                turned_cell(#[trigger] shape(kind, rot)[i], turn_side(kind)),
            ),
        kind == 3 ==> shape(kind, (rot + 1) % 4) == shape(kind, rot),
{
    if kind == 0 && rot == 0 {
    } else if kind == 0 && rot == 1 {
    } else if kind == 0 && rot == 2 {
    } else if kind == 0 && rot == 3 {
    } else if kind == 1 && rot == 0 {
    } else if kind == 1 && rot == 1 {
    } else if kind == 1 && rot == 2 {
    } else if kind == 1 && rot == 3 {
    } else if kind == 2 && rot == 0 {
    } else if kind == 2 && rot == 1 {
    } else if kind == 2 && rot == 2 {
    } else if kind == 2 && rot == 3 {
    } else if kind == 3 && rot == 0 {
    } else if kind == 3 && rot == 1 {
    } else if kind == 3 && rot == 2 {
    } else if kind == 3 && rot == 3 {
    } else if kind == 4 && rot == 0 {
    } else if kind == 4 && rot == 1 {
    } else if kind == 4 && rot == 2 {
    } else if kind == 4 && rot == 3 {
    } else if kind == 5 && rot == 0 {
    } else if kind == 5 && rot == 1 {
    } else if kind == 5 && rot == 2 {
    } else if kind == 5 && rot == 3 {
    } else if kind == 6 && rot == 0 {
    } else if kind == 6 && rot == 1 {
    } else if kind == 6 && rot == 2 {
    } else if kind == 6 && rot == 3 {
    }
}

/// Returns the cell offsets of tetromino `kind` in rotation `rot`.
pub fn shape_offsets(kind: usize, rot: usize) -> (r: [(isize, isize); 4])
    requires
        kind < KINDS,
        rot < ROTATIONS,
    ensures
        forall|i: int|
            0 <= i < 4 ==> (#[trigger] r@[i]).0 == shape_dx(kind as int, rot as int, i) && r@[i].1
                == shape_dy(kind as int, rot as int, i),
{
    let r: [(isize, isize); 4] = match kind {
        0 => match rot {
            0 => [(0, 1), (1, 1), (2, 1), (3, 1)],
            1 => [(2, 0), (2, 1), (2, 2), (2, 3)],
            2 => [(0, 2), (1, 2), (2, 2), (3, 2)],
            _ => [(1, 0), (1, 1), (1, 2), (1, 3)],
        },
        1 => match rot {
            0 => [(0, 0), (0, 1), (1, 1), (2, 1)],
            1 => [(1, 0), (2, 0), (1, 1), (1, 2)],
            2 => [(0, 1), (1, 1), (2, 1), (2, 2)],
            _ => [(1, 0), (1, 1), (0, 2), (1, 2)],
        },
        2 => match rot {
            0 => [(2, 0), (0, 1), (1, 1), (2, 1)],
            1 => [(1, 0), (1, 1), (1, 2), (2, 2)],
            2 => [(0, 1), (1, 1), (2, 1), (0, 2)],
            _ => [(0, 0), (1, 0), (1, 1), (1, 2)],
        },
        3 => match rot {
            0 => [(1, 0), (2, 0), (1, 1), (2, 1)],
            1 => [(1, 0), (2, 0), (1, 1), (2, 1)],
            2 => [(1, 0), (2, 0), (1, 1), (2, 1)],
            _ => [(1, 0), (2, 0), (1, 1), (2, 1)],
        },
        4 => match rot {
            0 => [(1, 0), (2, 0), (0, 1), (1, 1)],
            1 => [(1, 0), (1, 1), (2, 1), (2, 2)],
            2 => [(1, 1), (2, 1), (0, 2), (1, 2)],
            _ => [(0, 0), (0, 1), (1, 1), (1, 2)],
        },
        5 => match rot {
            0 => [(1, 0), (0, 1), (1, 1), (2, 1)],
            1 => [(1, 0), (1, 1), (2, 1), (1, 2)],
            2 => [(0, 1), (1, 1), (2, 1), (1, 2)],
            _ => [(1, 0), (0, 1), (1, 1), (1, 2)],
        },
        6 => match rot {
            0 => [(0, 0), (1, 0), (1, 1), (2, 1)],
            1 => [(2, 0), (1, 1), (2, 1), (1, 2)],
            2 => [(0, 1), (1, 1), (1, 2), (2, 2)],
            _ => [(1, 0), (0, 1), (1, 1), (0, 2)],
        },
        _ => [(0, 0), (0, 0), (0, 0), (0, 0)],
    };
    proof {
        assert(r@.len() == 4);
    }
    r
}

} // verus!
