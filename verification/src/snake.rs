use vstd::prelude::*;
use vstd::wrapping::usize_specs;

verus! {

broadcast use vstd::array::group_array_axioms;

/// Columns of the snake board.
pub const GRID_W: usize = 32;

/// Rows of the snake board.
pub const GRID_H: usize = 20;

/// Room for one segment per cell.
pub const MAX_LEN: usize = 640;

/// Timer cycles between two moves of the snake.
pub const STEP_CYCLES: u64 = 1_200_000;

/// A board cell.
#[derive(Clone, Copy, PartialEq, Eq, Structural)]
pub struct Pos {
    pub x: usize,
    pub y: usize,
}

/// A heading of the snake.
#[derive(Clone, Copy, PartialEq, Eq, Structural)]
pub enum Dir {
    Up,
    Down,
    Left,
    Right,
}

/// The heading a key selects: `w`, `s`, `a`, `d` in either case.
pub open spec fn key_dir(c: u8) -> Option<Dir> {
    if c == 0x77 || c == 0x57 {
        Some(Dir::Up)
    } else if c == 0x73 || c == 0x53 {
        Some(Dir::Down)
    } else if c == 0x61 || c == 0x41 {
        Some(Dir::Left)
    } else if c == 0x64 || c == 0x44 {
        Some(Dir::Right)
    } else {
        None
    }
}

/// Maps a key to the heading it selects, if any.
pub fn map_dir(c: u8) -> (d: Option<Dir>)
    ensures
        d == key_dir(c),
{
    if c == 0x77 || c == 0x57 {
        Some(Dir::Up)
    } else if c == 0x73 || c == 0x53 {
        Some(Dir::Down)
    } else if c == 0x61 || c == 0x41 {
        Some(Dir::Left)
    } else if c == 0x64 || c == 0x44 {
        Some(Dir::Right)
    } else {
        None
    }
}

/// Two headings point in opposite directions.
pub open spec fn opposite(a: Dir, b: Dir) -> bool {
    match (a, b) {
        (Dir::Up, Dir::Down) | (Dir::Down, Dir::Up) | (Dir::Left, Dir::Right) | (
            Dir::Right,
            Dir::Left,
        ) => true,
        _ => false,
    }
}

/// Whether `a` and `b` point in opposite directions.
pub fn is_opposite(a: Dir, b: Dir) -> (r: bool)
    ensures
        r == opposite(a, b),
{
    matches!(
        (a, b),
        (Dir::Up, Dir::Down) | (Dir::Down, Dir::Up) | (Dir::Left, Dir::Right) | (Dir::Right, Dir::Left)
    )
}

/// The cell one step from `p` in direction `d`; a step off the top or left
/// edge stays on that edge.
pub open spec fn stepped(p: Pos, d: Dir) -> Pos {
    match d {
        Dir::Up => Pos { x: p.x, y: if p.y == 0 { 0 } else { (p.y - 1) as usize } },
        Dir::Down => Pos { x: p.x, y: (p.y + 1) as usize },
        Dir::Left => Pos { x: if p.x == 0 { 0 } else { (p.x - 1) as usize }, y: p.y },
        Dir::Right => Pos { x: (p.x + 1) as usize, y: p.y },
    }
}

/// Moves one cell from `p` in direction `d`.
pub fn step(p: Pos, d: Dir) -> (r: Pos)
    requires
        d == Dir::Down ==> p.y < usize::MAX,
        d == Dir::Right ==> p.x < usize::MAX,
    ensures
        r == stepped(p, d),
{
    match d {
        Dir::Up => Pos { x: p.x, y: p.y.saturating_sub(1) },
        Dir::Down => Pos { x: p.x, y: p.y + 1 },
        Dir::Left => Pos { x: p.x.saturating_sub(1), y: p.y },
        Dir::Right => Pos { x: p.x + 1, y: p.y },
    }
}

/// A step away from the top and left edges reaches a different cell next to
/// the start, one cell in the named direction: up decreases the row, down
/// increases it, left decreases the column, right increases it.
pub proof fn lemma_step_reaches_neighbour(p: Pos, d: Dir)
    requires
        d == Dir::Up ==> p.y > 0,
        d == Dir::Left ==> p.x > 0,
        d == Dir::Down ==> p.y < usize::MAX,
        d == Dir::Right ==> p.x < usize::MAX,
    ensures
        stepped(p, d) != p,
        adjacent(p, stepped(p, d)),
        d == Dir::Up ==> stepped(p, d).x == p.x && stepped(p, d).y + 1 == p.y,
        d == Dir::Down ==> stepped(p, d).x == p.x && stepped(p, d).y == p.y + 1,
        d == Dir::Left ==> stepped(p, d).x + 1 == p.x && stepped(p, d).y == p.y,
        d == Dir::Right ==> stepped(p, d).x == p.x + 1 && stepped(p, d).y == p.y,
{
}

/// A step and a step back in the opposite direction return to the start,
/// away from the top and left edges.
pub proof fn lemma_step_back(p: Pos, d: Dir, back: Dir)
    requires
        opposite(d, back),
        d == Dir::Up ==> p.y > 0,
        d == Dir::Left ==> p.x > 0,
        d == Dir::Down ==> p.y < usize::MAX,
        d == Dir::Right ==> p.x < usize::MAX,
    ensures
        stepped(stepped(p, d), back) == p,
{
}

/// A cell of the board.
pub open spec fn in_grid(p: Pos) -> bool {
    p.x < GRID_W && p.y < GRID_H
}

/// Whether `p` lies outside the board.
pub fn hit_wall(p: Pos) -> (r: bool)
    ensures
        r == !in_grid(p),
{
    p.x >= GRID_W || p.y >= GRID_H
}

/// Number of segments of `body` that a length of `len` covers.
pub open spec fn covered(len: int) -> int {
    if len < MAX_LEN {
        len
    } else {
        MAX_LEN as int
    }
}

/// `p` is one of the first `len` segments.
pub open spec fn on_snake(body: Seq<Pos>, len: int, p: Pos) -> bool {
    exists|i: int| 0 <= i < covered(len) && body[i] == p
}

/// Whether `p` is one of the first `len` segments of `body`.
pub fn hit_body(p: Pos, body: &[Pos; MAX_LEN], len: usize) -> (r: bool)
    ensures
        r == on_snake(body@, len as int, p),
{
    let mut i: usize = 0;
    while i < len && i < MAX_LEN
        invariant
            i <= MAX_LEN,
            i <= len,
            forall|j: int| 0 <= j < i ==> body@[j] != p,
        decreases MAX_LEN - i,
    {
        if body[i] == p {
            return true;
        }
        i += 1;
    }
    false
}

/// Column where the search for a food cell starts.
pub open spec fn food_x0(seed: usize) -> int {
    ((usize_specs::wrapping_add(usize_specs::wrapping_mul(seed, 1103515245), 12345) >> 8usize)
        % GRID_W) as int
}

/// Row where the search for a food cell starts.
pub open spec fn food_y0(seed: usize) -> int {
    ((usize_specs::wrapping_add(usize_specs::wrapping_mul(seed, 69069), 1) >> 8usize) % GRID_H) as int
}

/// The `k`-th cell the food search tries: each try moves 7 columns right and
/// 5 rows down, wrapping around the board.
pub open spec fn food_probe(seed: usize, k: int) -> Pos {
    Pos { x: ((food_x0(seed) + 7 * k) % GRID_W as int) as usize, y: ((food_y0(seed) + 5 * k) % GRID_H as int) as usize }
}

/// The first of the `GRID_W * GRID_H` tried cells, from the `k`-th on, that is
/// off the snake, or the top-left cell when all of them are on it.
pub open spec fn food_from(body: Seq<Pos>, len: int, seed: usize, k: int) -> Pos
    decreases GRID_W * GRID_H - k,
{
    if k >= GRID_W * GRID_H {
        Pos { x: 0, y: 0 }
    } else if !on_snake(body, len, food_probe(seed, k)) {
        food_probe(seed, k)
    } else {
        food_from(body, len, seed, k + 1)
    }
}

/// The food cell chosen for seed `seed`.
pub open spec fn food_for(body: Seq<Pos>, len: int, seed: usize) -> Pos {
    food_from(body, len, seed, 0)
}

/// Picks a food cell: the first cell off the snake along a pseudo-random
/// walk started from `seed`, or the top-left cell if the walk finds none.
pub fn spawn_food(body: &[Pos; MAX_LEN], len: usize, seed: usize) -> (r: Pos)
    ensures
        r == food_for(body@, len as int, seed),
        in_grid(r),
{
    let mut x = (seed.wrapping_mul(1103515245).wrapping_add(12345) >> 8) % GRID_W;
    let mut y = (seed.wrapping_mul(69069).wrapping_add(1) >> 8) % GRID_H;
    let mut k: usize = 0;
    while k < GRID_W * GRID_H
        invariant
            k <= GRID_W * GRID_H,
            x == food_probe(seed, k as int).x,
            y == food_probe(seed, k as int).y,
            x < GRID_W,
            y < GRID_H,
            food_for(body@, len as int, seed) == food_from(body@, len as int, seed, k as int),
        decreases GRID_W * GRID_H - k,
    {
        let p = Pos { x, y };
        if !hit_body(p, body, len) {
            return p;
        }
        proof {
            lemma_probe_next(seed, k as int);
        }
        x = (x + 7) % GRID_W;
        y = (y + 5) % GRID_H;
        k += 1;
    }
    Pos { x: 0, y: 0 }
}

proof fn lemma_probe_next(seed: usize, k: int)
    requires
        k >= 0,
    ensures
        food_probe(seed, k + 1).x == (food_probe(seed, k).x + 7) % GRID_W as int,
        food_probe(seed, k + 1).y == (food_probe(seed, k).y + 5) % GRID_H as int,
{
    let a = food_x0(seed) + 7 * k;
    let b = food_y0(seed) + 5 * k;
    vstd::arithmetic::div_mod::lemma_add_mod_noop(a, 7, GRID_W as int);
    vstd::arithmetic::div_mod::lemma_add_mod_noop(b, 5, GRID_H as int);
    vstd::arithmetic::div_mod::lemma_mod_bound(a, GRID_W as int);
    vstd::arithmetic::div_mod::lemma_mod_bound(b, GRID_H as int);
    vstd::arithmetic::div_mod::lemma_small_mod(7, GRID_W as nat);
    vstd::arithmetic::div_mod::lemma_small_mod(5, GRID_H as nat);
    assert(a + 7 == food_x0(seed) + 7 * (k + 1));
    assert(b + 5 == food_y0(seed) + 5 * (k + 1));
}

/// The food goes to a tried cell off the snake whenever one of the
/// `GRID_W * GRID_H` tried cells is off the snake.
pub proof fn lemma_food_off_snake(body: Seq<Pos>, len: int, seed: usize)
    requires
        exists|j: int| 0 <= j < GRID_W * GRID_H && !on_snake(body, len, #[trigger] food_probe(seed, j)),
    ensures
        !on_snake(body, len, food_for(body, len, seed)),
{
    lemma_food_from_off_snake(body, len, seed, 0);
}

proof fn lemma_food_from_off_snake(body: Seq<Pos>, len: int, seed: usize, k: int)
    requires
        0 <= k,
        exists|j: int| k <= j < GRID_W * GRID_H && !on_snake(body, len, #[trigger] food_probe(seed, j)),
    ensures
        !on_snake(body, len, food_from(body, len, seed, k)),
    decreases GRID_W * GRID_H - k,
{
    let j = choose|j: int| k <= j < GRID_W * GRID_H && !on_snake(body, len, #[trigger] food_probe(seed, j));
    if on_snake(body, len, food_probe(seed, k)) {
        assert(j != k);
        assert(k + 1 <= j && !on_snake(body, len, food_probe(seed, j)));
        lemma_food_from_off_snake(body, len, seed, k + 1);
    }
}

/// Two cells share a side.
pub open spec fn adjacent(a: Pos, b: Pos) -> bool {
    ||| a.x == b.x && (a.y == b.y + 1 || b.y == a.y + 1)
    ||| a.y == b.y && (a.x == b.x + 1 || b.x == a.x + 1)
}

/// The segments after the head moves to `next`: every segment takes the place
/// of the one before it and the old last segment is left behind.
pub open spec fn moved_body(body: Seq<Pos>, len: int, next: Pos) -> Seq<Pos> {
    Seq::new(
        body.len(),
        |i: int|
            if i == 0 {
                next
            } else if i < len {
                body[i - 1]
            } else {
                body[i]
            },
    )
}

/// One move of the snake with food seed `tick`: the heading stays; running
/// into a wall or into any segment ends the game and changes nothing else;
/// reaching the food grows the snake by one segment (while there is room)
/// and picks new food; otherwise the body moves one cell.
pub open spec fn advanced(g0: SnakeGame, g1: SnakeGame, tick: usize) -> bool {
    let next = stepped(g0.body@[0], g0.dir);
    let moved = moved_body(g0.body@, g0.len as int, next);
    &&& g1.dir == g0.dir
    &&& if !in_grid(next) || on_snake(g0.body@, g0.len as int, next) {
        &&& g1.game_over
        &&& g1.body == g0.body
        &&& g1.len == g0.len
        &&& g1.food == g0.food
    } else if next == g0.food && g0.len + 1 < MAX_LEN {
        &&& g1.game_over == g0.game_over
        &&& g1.len == g0.len + 1
        &&& g1.body@ == moved.update(g0.len as int, moved[g0.len - 1])
        &&& g1.food == food_for(g1.body@, g1.len as int, tick)
    } else {
        &&& g1.game_over == g0.game_over
        &&& g1.len == g0.len
        &&& g1.body@ == moved
        &&& g1.food == g0.food
    }
}

/// The state of a game of Snake.
pub struct SnakeGame {
    pub body: [Pos; MAX_LEN],
    pub len: usize,
    pub dir: Dir,
    pub food: Pos,
    pub game_over: bool,
}

impl SnakeGame {
    /// What every reachable state satisfies: the snake has between 4 and
    /// `MAX_LEN - 1` segments, all on the board, each sharing a side with the
    /// next, and no two on the same cell, except that the last two coincide
    /// for one move after the snake has grown; the food is on the board.
    pub open spec fn inv(&self) -> bool {
        &&& 4 <= self.len < MAX_LEN
        &&& snake_shape(self.body@, self.len as int)
        &&& in_grid(self.food)
    }

    /// A new game: a snake of four segments heading right from the middle of
    /// the board, and food picked with seed 13.
    pub fn new() -> (g: SnakeGame)
        ensures
            g.inv(),
            g.len == 4,
            g.body@[0] == (Pos { x: 16, y: 10 }),
            g.body@[1] == (Pos { x: 15, y: 10 }),
            g.body@[2] == (Pos { x: 14, y: 10 }),
            g.body@[3] == (Pos { x: 13, y: 10 }),
            g.dir == Dir::Right,
            g.food == food_for(g.body@, 4, 13),
            !g.game_over,
    {
        let mut body = [Pos { x: 0, y: 0 }; MAX_LEN];
        body[0] = Pos { x: GRID_W / 2, y: GRID_H / 2 };
        body[1] = Pos { x: GRID_W / 2 - 1, y: GRID_H / 2 };
        body[2] = Pos { x: GRID_W / 2 - 2, y: GRID_H / 2 };
        body[3] = Pos { x: GRID_W / 2 - 3, y: GRID_H / 2 };
        let food = spawn_food(&body, 4, 13);
        proof {
            reveal(snake_shape);
            assert(body@[0] != body@[1] && body@[0] != body@[2] && body@[0] != body@[3]);
            assert(body@[1] != body@[2] && body@[1] != body@[3] && body@[2] != body@[3]);
        }
        SnakeGame { body, len: 4, dir: Dir::Right, food, game_over: false }
    }

    /// Reacts to key `c`: `q` asks to quit; a direction key turns the snake,
    /// unless it points straight back. Returns whether the game should stop.
    pub fn handle_key(&mut self, c: u8) -> (quit: bool)
        ensures
            quit == (c == 0x71),
            final(self).body == old(self).body,
            final(self).len == old(self).len,
            final(self).food == old(self).food,
            final(self).game_over == old(self).game_over,
            final(self).dir == match key_dir(c) {
                Some(nd) => if c != 0x71 && !opposite(old(self).dir, nd) {
                    nd
                } else {
                    old(self).dir
                },
                None => old(self).dir,
            },
            !opposite(old(self).dir, final(self).dir),
            old(self).inv() ==> final(self).inv(),
    {
        if c == 0x71 {
            return true;
        }
        if let Some(nd) = map_dir(c) {
            if !is_opposite(self.dir, nd) {
                self.dir = nd;
            }
        }
        false
    }

    /// Moves the snake one cell in its heading. Running into a wall or into
    /// any segment ends the game; reaching the food grows the snake by one
    /// segment (while there is room) and picks new food with seed `tick`.
    pub fn advance(&mut self, tick: usize)
        requires
            old(self).inv(),
        ensures
            final(self).inv(),
            advanced(*old(self), *final(self), tick),
    {
        proof {
            lemma_head_in_grid(self.body@, self.len as int);
        }
        let next = step(self.body[0], self.dir);
        if hit_wall(next) || hit_body(next, &self.body, self.len) {
            self.game_over = true;
            return;
        }
        let ghost old_body = self.body@;
        let ghost len = self.len as int;
        let ghost old_self = *self;
        let ate = next == self.food;
        let mut i = self.len - 1;
        while i >= 1
            invariant
                4 <= len < MAX_LEN,
                self.len == len,
                self.dir == old_self.dir,
                self.food == old_self.food,
                self.game_over == old_self.game_over,
                old_self.inv(),
                old_body == old_self.body@,
                next == stepped(old_body[0], self.dir),
                in_grid(next),
                !on_snake(old_body, len, next),
                ate == (next == self.food),
                0 <= i < len,
                self.body@.len() == MAX_LEN,
                forall|j: int| 0 <= j <= i ==> #[trigger] self.body@[j] == old_body[j],
                forall|j: int| i < j < len ==> #[trigger] self.body@[j] == old_body[j - 1],
                forall|j: int| len <= j < MAX_LEN ==> #[trigger] self.body@[j] == old_body[j],
            decreases i,
        {
            self.body[i] = self.body[i - 1];
            i -= 1;
        }
        self.body[0] = next;
        proof {
            assert(self.body@ =~= moved_body(old_body, len, next));
            lemma_move_keeps_shape(old_body, len, self.dir, self.body@);
        }
        if ate && self.len + 1 < MAX_LEN {
            let ghost moved = self.body@;
            self.body[self.len] = self.body[self.len - 1];
            self.len += 1;
            self.food = spawn_food(&self.body, self.len, tick);
            proof {
                lemma_grow_keeps_shape(moved, len, self.body@);
            }
        }
    }

    /// The timer: when the game runs and `now` has reached `next_step`, the
    /// snake advances (with food seed `tick`) and the next move is due
    /// `STEP_CYCLES` later. Returns when the next move is due.
    pub fn on_timer(&mut self, now: u64, next_step: u64, tick: usize) -> (next: u64)
        requires
            old(self).inv(),
        ensures
            final(self).inv(),
            !old(self).game_over && now >= next_step ==> next == now.wrapping_add(STEP_CYCLES)
                && advanced(*old(self), *final(self), tick),
            !(!old(self).game_over && now >= next_step) ==> next == next_step && *final(self)
                == *old(self),
    {
        if !self.game_over && now >= next_step {
            let next = now.wrapping_add(STEP_CYCLES);
            self.advance(tick);
            next
        } else {
            next_step
        }
    }
}

/// The shape of a snake: `len` segments on the board, consecutive ones
/// sharing a side (the last two may coincide), no other two on one cell.
#[verifier::opaque]
pub open spec fn snake_shape(body: Seq<Pos>, len: int) -> bool {
    &&& forall|i: int| 0 <= i < len ==> in_grid(#[trigger] body[i])
    &&& forall|i: int|
        0 <= i < len - 1 ==> adjacent(#[trigger] body[i], body[i + 1]) || (i == len - 2 && body[i]
            == body[i + 1])
    &&& forall|i: int, j: int|
        0 <= i < j < len && #[trigger] body[i] == #[trigger] body[j] ==> i == len - 2 && j == len - 1
}

proof fn lemma_move_keeps_shape(old_body: Seq<Pos>, len: int, d: Dir, body: Seq<Pos>)
    requires
        4 <= len < MAX_LEN,
        old_body.len() == MAX_LEN,
        snake_shape(old_body, len),
        in_grid(stepped(old_body[0], d)),
        !on_snake(old_body, len, stepped(old_body[0], d)),
        body == moved_body(old_body, len, stepped(old_body[0], d)),
    ensures
        snake_shape(body, len),
        forall|i: int, j: int| 0 <= i < j < len ==> body[i] != body[j],
{
    reveal(snake_shape);
    let next = stepped(old_body[0], d);
    assert(old_body[0] != next);
    assert forall|i: int, j: int| 0 <= i < j < len implies body[i] != body[j] by {
        if i == 0 {
            assert(old_body[j - 1] != next);
        } else {
            assert(body[i] == old_body[i - 1] && body[j] == old_body[j - 1]);
        }
    }
    assert forall|i: int| 0 <= i < len - 1 implies adjacent(#[trigger] body[i], body[i + 1]) by {
        if i > 0 {
            assert(body[i] == old_body[i - 1] && body[i + 1] == old_body[i]);
            assert(old_body[i - 1] != old_body[i]);
        }
    }
}

proof fn lemma_head_in_grid(body: Seq<Pos>, len: int)
    requires
        snake_shape(body, len),
        len > 0,
    ensures
        in_grid(body[0]),
{
    reveal(snake_shape);
}

proof fn lemma_grow_keeps_shape(moved: Seq<Pos>, len: int, body: Seq<Pos>)
    requires
        4 <= len,
        len + 1 < MAX_LEN,
        moved.len() == MAX_LEN,
        snake_shape(moved, len),
        forall|i: int, j: int| 0 <= i < j < len ==> moved[i] != moved[j],
        body == moved.update(len, moved[len - 1]),
    ensures
        snake_shape(body, len + 1),
{
    reveal(snake_shape);
    assert forall|i: int, j: int|
        0 <= i < j < len + 1 && #[trigger] body[i] == #[trigger] body[j] implies i == len - 1 && j
        == len by {
        if j == len {
            assert(body[j] == moved[len - 1]);
            if i != len - 1 {
                assert(moved[i] != moved[len - 1]);
            }
        } else {
            assert(moved[i] != moved[j]);
        }
    }
}

} // verus!
