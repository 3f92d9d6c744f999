use tg_rcore_tutorial::board::{Board, H, W};
use tg_rcore_tutorial::tetris_user::{
    collides, lock_piece, render, spawn, try_move, try_rotate, Piece, UserTetris, START_SEED,
};

fn empty() -> Board {
    [[0u8; W]; H]
}

#[test]
fn user_spawn_steps_the_generator() {
    let mut seed = START_SEED;
    let p = spawn(&mut seed);
    assert_eq!(seed, 4174162356);
    assert_eq!((p.kind, p.rot, p.x, p.y), (6, 0, 3, 0));
    let p = spawn(&mut seed);
    assert_eq!(seed, 1074874845);
    assert_eq!(p.kind, 0);
}

#[test]
fn cells_above_the_well_are_free() {
    let board = empty();
    let p = Piece { kind: 0, rot: 1, x: 3, y: -3 };
    assert!(!collides(&p, &board));
    assert!(collides(&Piece { x: -3, ..p }, &board));
    assert!(collides(&Piece { y: 17, ..p }, &board));
}

#[test]
fn try_move_reverts_on_collision() {
    let board = empty();
    let mut p = Piece { kind: 3, rot: 0, x: -1, y: 0 };
    assert!(!try_move(&mut p, -1, 0, &board));
    assert_eq!(p.x, -1);
    assert!(try_move(&mut p, 1, 2, &board));
    assert_eq!((p.x, p.y), (0, 2));
}

#[test]
fn try_rotate_kicks_off_the_wall() {
    let board = empty();
    let mut p = Piece { kind: 0, rot: 1, x: -1, y: 5 };
    try_rotate(&mut p, &board);
    assert_eq!((p.rot, p.x), (2, 0));
    let mut stuck = Piece { kind: 0, rot: 1, x: -2, y: 5 };
    try_rotate(&mut stuck, &board);
    assert_eq!((stuck.rot, stuck.x), (1, -2));
    let mut q = Piece { kind: 0, rot: 1, x: 7, y: 5 };
    try_rotate(&mut q, &board);
    assert_eq!((q.rot, q.x), (2, 6));
    let mut r = Piece { kind: 0, rot: 0, x: 3, y: 5 };
    try_rotate(&mut r, &board);
    assert_eq!((r.rot, r.x), (1, 3));
}

#[test]
fn try_rotate_gives_up_when_boxed_in() {
    let mut board = [[1u8; W]; H];
    for y in 4..8 {
        for x in 3..7 {
            board[y][x] = 0;
        }
    }
    board[5][5] = 1;
    let mut p = Piece { kind: 0, rot: 0, x: 3, y: 3 };
    assert!(!collides(&p, &board));
    try_rotate(&mut p, &board);
    assert_eq!((p.rot, p.x), (0, 3));
}

#[test]
fn user_lock_skips_cells_above_the_well() {
    let mut board = empty();
    lock_piece(&Piece { kind: 2, rot: 0, x: 0, y: -1 }, &mut board);
    assert_eq!(board[0], [3, 3, 3, 0, 0, 0, 0, 0, 0, 0]);
    assert_eq!(board.iter().flatten().filter(|&&c| c != 0).count(), 3);
}

#[test]
fn user_game_flow() {
    let mut g = UserTetris::new();
    assert_eq!(g.current.kind, 6);
    assert!(!g.handle_key(b'd'));
    assert_eq!(g.current.x, 4);
    assert!(!g.handle_key(b'w'));
    assert_eq!(g.current.rot, 1);
    assert!(!g.on_frame(7));
    assert_eq!(g.current.y, 0);
    assert!(!g.on_frame(8));
    assert_eq!(g.current.y, 1);
    assert!(g.handle_key(b'q'));
    let mut drops = 0;
    while !g.handle_key(b's') {
        drops += 1;
        assert!(!collides(&g.current, &g.board));
        assert!(drops < 10_000);
    }
}

#[test]
fn frame_text_layout() {
    let mut board = empty();
    board[19][0] = 1;
    let p = Piece { kind: 3, rot: 0, x: 3, y: 0 };
    let text = render(&board, &p, 1200);
    let s = String::from_utf8(text).unwrap();
    let lines: Vec<&str> = s.split('\n').collect();
    assert_eq!(lines[0], "\x1b[HTetris  WASD move/rotate  q quit  score=1200");
    assert_eq!(lines[1], "+--------------------+");
    assert_eq!(lines[2], "|        [][]        |");
    assert_eq!(lines[3], "|        [][]        |");
    assert_eq!(lines[4], "|                    |");
    assert_eq!(lines[21], "|[]                  |");
    assert_eq!(lines[22], "+--------------------+");
    assert_eq!(lines[23], "");
    assert_eq!(lines.len(), 24);
}
