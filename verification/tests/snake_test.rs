use tg_rcore_tutorial::snake::{
    hit_body, hit_wall, is_opposite, map_dir, spawn_food, step, Dir, Pos, SnakeGame, GRID_H,
    GRID_W, MAX_LEN, STEP_CYCLES,
};

fn body_of(cells: &[(usize, usize)]) -> [Pos; MAX_LEN] {
    let mut body = [Pos { x: 0, y: 0 }; MAX_LEN];
    for (i, &(x, y)) in cells.iter().enumerate() {
        body[i] = Pos { x, y };
    }
    body
}

#[test]
fn map_dir_reads_wasd_in_both_cases() {
    assert!(map_dir(b'w') == Some(Dir::Up));
    assert!(map_dir(b'W') == Some(Dir::Up));
    assert!(map_dir(b's') == Some(Dir::Down));
    assert!(map_dir(b'A') == Some(Dir::Left));
    assert!(map_dir(b'd') == Some(Dir::Right));
    assert!(map_dir(b'q').is_none());
    assert!(map_dir(b'x').is_none());
}

#[test]
fn opposite_headings() {
    assert!(is_opposite(Dir::Up, Dir::Down));
    assert!(is_opposite(Dir::Left, Dir::Right));
    assert!(is_opposite(Dir::Right, Dir::Left));
    assert!(!is_opposite(Dir::Up, Dir::Left));
    assert!(!is_opposite(Dir::Down, Dir::Down));
}

#[test]
fn step_saturates_at_the_top_left() {
    assert!(step(Pos { x: 3, y: 0 }, Dir::Up) == Pos { x: 3, y: 0 });
    assert!(step(Pos { x: 0, y: 4 }, Dir::Left) == Pos { x: 0, y: 4 });
    assert!(step(Pos { x: 3, y: 4 }, Dir::Down) == Pos { x: 3, y: 5 });
    assert!(step(Pos { x: 3, y: 4 }, Dir::Right) == Pos { x: 4, y: 4 });
    assert!(step(Pos { x: 3, y: 4 }, Dir::Up) == Pos { x: 3, y: 3 });
}

#[test]
fn walls_and_body() {
    assert!(hit_wall(Pos { x: GRID_W, y: 0 }));
    assert!(hit_wall(Pos { x: 0, y: GRID_H }));
    assert!(!hit_wall(Pos { x: GRID_W - 1, y: GRID_H - 1 }));
    let body = body_of(&[(5, 5), (4, 5), (3, 5)]);
    assert!(hit_body(Pos { x: 4, y: 5 }, &body, 3));
    assert!(!hit_body(Pos { x: 3, y: 5 }, &body, 2));
    assert!(!hit_body(Pos { x: 6, y: 5 }, &body, 3));
}

#[test]
fn spawn_food_values() {
    let start = body_of(&[(16, 10), (15, 10), (14, 10), (13, 10)]);
    assert!(spawn_food(&start, 4, 13) == Pos { x: 11, y: 7 });
    assert!(spawn_food(&start, 4, 0) == Pos { x: 16, y: 0 });
    let on_first = body_of(&[(16, 0)]);
    assert!(spawn_food(&on_first, 1, 0) == Pos { x: 23, y: 5 });
    let on_two = body_of(&[(16, 0), (23, 5)]);
    assert!(spawn_food(&on_two, 2, 0) == Pos { x: 30, y: 10 });
}

#[test]
fn spawn_food_on_a_full_board_gives_the_corner() {
    let mut body = [Pos { x: 0, y: 0 }; MAX_LEN];
    for y in 0..GRID_H {
        for x in 0..GRID_W {
            body[y * GRID_W + x] = Pos { x, y };
        }
    }
    assert!(spawn_food(&body, MAX_LEN, 99) == Pos { x: 0, y: 0 });
}

#[test]
fn new_game_layout() {
    let g = SnakeGame::new();
    assert_eq!(g.len, 4);
    assert!(g.body[0] == Pos { x: 16, y: 10 });
    assert!(g.body[3] == Pos { x: 13, y: 10 });
    assert!(g.dir == Dir::Right);
    assert!(g.food == Pos { x: 11, y: 7 });
    assert!(!g.game_over);
}

#[test]
fn keys_turn_but_never_reverse() {
    let mut g = SnakeGame::new();
    assert!(!g.handle_key(b'a'));
    assert!(g.dir == Dir::Right);
    assert!(!g.handle_key(b'w'));
    assert!(g.dir == Dir::Up);
    assert!(!g.handle_key(b's'));
    assert!(g.dir == Dir::Up);
    assert!(!g.handle_key(b'z'));
    assert!(g.dir == Dir::Up);
    assert!(g.handle_key(b'q'));
    assert!(g.dir == Dir::Up);
}

#[test]
fn advance_moves_the_body() {
    let mut g = SnakeGame::new();
    g.advance(1);
    assert_eq!(g.len, 4);
    assert!(g.body[0] == Pos { x: 17, y: 10 });
    assert!(g.body[1] == Pos { x: 16, y: 10 });
    assert!(g.body[3] == Pos { x: 14, y: 10 });
    assert!(g.food == Pos { x: 11, y: 7 });
    assert!(!g.game_over);
}

#[test]
fn advance_eats_and_grows() {
    let mut g = SnakeGame::new();
    g.food = Pos { x: 17, y: 10 };
    g.advance(0);
    assert_eq!(g.len, 5);
    assert!(g.body[0] == Pos { x: 17, y: 10 });
    assert!(g.body[3] == Pos { x: 14, y: 10 });
    assert!(g.body[4] == Pos { x: 14, y: 10 });
    assert!(g.food == Pos { x: 16, y: 0 });
    g.advance(0);
    assert!(g.body[0] == Pos { x: 18, y: 10 });
    assert!(g.body[4] == Pos { x: 14, y: 10 });
    assert!(!g.game_over);
}

#[test]
fn advance_into_the_wall_ends_the_game() {
    let mut g = SnakeGame::new();
    for _ in 0..15 {
        g.advance(1);
    }
    assert!(!g.game_over);
    assert!(g.body[0] == Pos { x: 31, y: 10 });
    g.advance(1);
    assert!(g.game_over);
    assert!(g.body[0] == Pos { x: 31, y: 10 });
}

#[test]
fn advance_into_itself_ends_the_game() {
    let mut g = SnakeGame::new();
    g.body = body_of(&[(5, 5), (6, 5), (6, 6), (5, 6), (4, 6)]);
    g.len = 5;
    g.dir = Dir::Down;
    g.advance(1);
    assert!(g.game_over);
    assert!(g.body[0] == Pos { x: 5, y: 5 });
}

#[test]
fn on_timer_waits_for_the_step() {
    let mut g = SnakeGame::new();
    assert_eq!(g.on_timer(100, 200, 1), 200);
    assert!(g.body[0] == Pos { x: 16, y: 10 });
    assert_eq!(g.on_timer(200, 200, 1), 200 + STEP_CYCLES);
    assert!(g.body[0] == Pos { x: 17, y: 10 });
    assert_eq!(g.on_timer(u64::MAX, 5, 1), STEP_CYCLES - 1);
    g.game_over = true;
    assert_eq!(g.on_timer(1000, 5, 1), 5);
}

#[test]
fn food_avoids_the_snake_while_a_tried_cell_is_free() {
    let start = body_of(&[(16, 0), (23, 5), (30, 10), (5, 15)]);
    let f = spawn_food(&start, 4, 0);
    assert!(!hit_body(f, &start, 4));
    assert!(f == Pos { x: 12, y: 0 });
}

#[test]
fn the_timer_step_moves_the_snake() {
    let mut g = SnakeGame::new();
    g.handle_key(b's');
    let next = g.on_timer(5000, 4000, 1);
    assert_eq!(next, 5000 + STEP_CYCLES);
    assert!(g.dir == Dir::Down);
    assert!(g.body[0] == Pos { x: 16, y: 11 });
    assert!(g.body[1] == Pos { x: 16, y: 10 });
}
