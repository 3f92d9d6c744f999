use tg_rcore_tutorial::board::{row_is_full, Board, H, W};
use tg_rcore_tutorial::shapes::shape_offsets;
use tg_rcore_tutorial::tetris::{
    clear_lines, collide, lock_piece, spawn_piece, step_down, Piece, Tetris, STEP_CYCLES,
};
use tg_rcore_tutorial::tetris_user;

fn empty() -> Board {
    [[0u8; W]; H]
}

#[test]
fn shape_table_entries() {
    assert_eq!(shape_offsets(0, 0), [(0, 1), (1, 1), (2, 1), (3, 1)]);
    assert_eq!(shape_offsets(0, 1), [(2, 0), (2, 1), (2, 2), (2, 3)]);
    assert_eq!(shape_offsets(3, 2), [(1, 0), (2, 0), (1, 1), (2, 1)]);
    assert_eq!(shape_offsets(6, 3), [(1, 0), (0, 1), (1, 1), (0, 2)]);
}

#[test]
fn spawn_piece_steps_the_generator() {
    let mut seed = 0u32;
    let p = spawn_piece(&mut seed);
    assert_eq!(seed, 1013904223);
    assert_eq!((p.kind, p.rot, p.x, p.y), (3, 0, 3, 0));
    let mut seed = 42u32;
    let p = spawn_piece(&mut seed);
    assert_eq!(seed, 1083814273);
    assert_eq!(p.kind, 3);
    let p = spawn_piece(&mut seed);
    assert_eq!(seed, 378494188);
    assert_eq!(p.kind, 2);
}

#[test]
fn row_is_full_needs_every_cell() {
    assert!(row_is_full(&[1; W]));
    let mut row = [1u8; W];
    row[7] = 0;
    assert!(!row_is_full(&row));
}

#[test]
fn collide_detects_walls_floor_and_blocks() {
    let mut board = empty();
    let i_piece = Piece { kind: 0, rot: 0, x: 3, y: 0 };
    assert!(!collide(&board, i_piece));
    assert!(collide(&board, Piece { x: -1, ..i_piece }));
    assert!(collide(&board, Piece { x: 7, ..i_piece }));
    assert!(!collide(&board, Piece { x: 6, ..i_piece }));
    assert!(collide(&board, Piece { y: 19, ..i_piece }));
    assert!(!collide(&board, Piece { y: 18, ..i_piece }));
    board[1][5] = 4;
    assert!(collide(&board, i_piece));
    assert!(collide(&board, Piece { x: isize::MAX - 3, ..i_piece }));
}

#[test]
fn lock_piece_writes_kind_plus_one_inside_the_well() {
    let mut board = empty();
    lock_piece(&mut board, Piece { kind: 1, rot: 0, x: 0, y: 0 });
    assert_eq!(board[0][0], 2);
    assert_eq!(board[1][0], 2);
    assert_eq!(board[1][1], 2);
    assert_eq!(board[1][2], 2);
    let total: usize = board.iter().flatten().filter(|&&c| c != 0).count();
    assert_eq!(total, 4);
    let mut board = empty();
    lock_piece(&mut board, Piece { kind: 0, rot: 1, x: 0, y: -2 });
    assert_eq!(board[0][2], 1);
    assert_eq!(board[1][2], 1);
    let total: usize = board.iter().flatten().filter(|&&c| c != 0).count();
    assert_eq!(total, 2);
}

fn sample_board() -> Board {
    let mut board = empty();
    board[19] = [1; W];
    board[18][0] = 5;
    board[17] = [2; W];
    board[16][9] = 3;
    board[15] = [6; W];
    board
}

#[test]
fn clear_lines_drops_the_rows_above() {
    let mut board = sample_board();
    let n = clear_lines(&mut board);
    assert_eq!(n, 3);
    let mut expected = empty();
    expected[19][0] = 5;
    expected[18][9] = 3;
    assert_eq!(board, expected);
}

#[test]
fn both_games_clear_lines_alike() {
    let mut a = sample_board();
    let mut b = sample_board();
    assert_eq!(clear_lines(&mut a), tetris_user::clear_lines(&mut b));
    assert_eq!(a, b);
    let mut full = [[3u8; W]; H];
    let mut full2 = full;
    assert_eq!(clear_lines(&mut full), 20);
    assert_eq!(tetris_user::clear_lines(&mut full2), 20);
    assert_eq!(full, empty());
    assert_eq!(full2, empty());
}

#[test]
fn clear_lines_without_full_rows_keeps_the_well() {
    let mut board = empty();
    board[19][3] = 1;
    board[10][0] = 2;
    let before = board;
    assert_eq!(clear_lines(&mut board), 0);
    assert_eq!(board, before);
}

#[test]
fn step_down_moves_locks_and_ends_the_game() {
    let mut board = empty();
    let mut piece = Piece { kind: 3, rot: 0, x: 3, y: 0 };
    let mut seed = 0u32;
    let mut score = 0usize;
    let mut over = false;
    step_down(&mut board, &mut piece, &mut seed, &mut score, &mut over);
    assert_eq!(piece.y, 1);
    assert_eq!(seed, 0);
    piece.y = 18;
    step_down(&mut board, &mut piece, &mut seed, &mut score, &mut over);
    assert_eq!(board[18][4], 4);
    assert_eq!(board[19][5], 4);
    assert_eq!(seed, 1013904223);
    assert_eq!((piece.kind, piece.x, piece.y), (3, 3, 0));
    assert!(!over);

    let mut board = empty();
    for row in board.iter_mut().take(2) {
        row[4] = 1;
    }
    board[19] = [1; W];
    board[19][0] = 0;
    let mut piece = Piece { kind: 0, rot: 1, x: -2, y: 16 };
    let mut seed = 0u32;
    let mut score = 5usize;
    let mut over = false;
    step_down(&mut board, &mut piece, &mut seed, &mut score, &mut over);
    assert_eq!(score, 105);
    assert!(over);
    assert_eq!((piece.kind, piece.rot, piece.x, piece.y), (0, 1, -2, 16));
    let before = board;
    step_down(&mut board, &mut piece, &mut seed, &mut score, &mut over);
    assert_eq!(board, before);
    assert_eq!(score, 105);
}

#[test]
fn kernel_game_keys() {
    let mut g = Tetris::new(42);
    assert_eq!(g.piece.kind, 3);
    assert_eq!(g.seed, 1083814273);
    assert!(!g.handle_key(b'a'));
    assert_eq!(g.piece.x, 2);
    assert!(!g.handle_key(b'D'));
    assert_eq!(g.piece.x, 3);
    for _ in 0..10 {
        g.handle_key(b'a');
    }
    assert_eq!(g.piece.x, -1);
    assert!(!g.handle_key(b'w'));
    assert_eq!(g.piece.rot, 1);
    assert!(!g.handle_key(b's'));
    assert_eq!(g.piece.y, 1);
    assert!(!g.handle_key(b'x'));
    assert!(g.handle_key(b'q'));
    assert!(g.handle_key(b'Q'));
}

#[test]
fn kernel_game_timer() {
    let mut g = Tetris::new(0);
    let next = g.on_timer(5, 10, );
    assert_eq!(next, 10);
    assert_eq!(g.piece.y, 0);
    let next = g.on_timer(10, 10);
    assert_eq!(next, 10 + STEP_CYCLES);
    assert_eq!(g.piece.y, 1);
    let next = g.on_timer(u64::MAX, 0);
    assert_eq!(next, STEP_CYCLES - 1);
    g.game_over = true;
    assert_eq!(g.on_timer(u64::MAX, 0), 0);
    assert_eq!(g.piece.y, 2);
}

#[test]
fn kernel_game_until_over_keeps_piece_off_blocks() {
    let mut g = Tetris::new(7);
    let mut steps = 0;
    while !g.game_over && steps < 10_000 {
        g.handle_key(b's');
        steps += 1;
        if !g.game_over {
            assert!(!collide(&g.board, g.piece));
        }
        assert!(g.board.iter().flatten().all(|&c| c <= 7));
    }
    assert!(g.game_over);
}

#[test]
fn clearing_again_clears_nothing() {
    let mut board = sample_board();
    assert_eq!(clear_lines(&mut board), 3);
    let once = board;
    assert_eq!(clear_lines(&mut board), 0);
    assert_eq!(board, once);
    assert!((0..H).all(|y| !row_is_full(&board[y])));
}

#[test]
fn a_step_scores_a_multiple_of_100_up_to_400() {
    let mut board = empty();
    for y in 16..20 {
        for x in 0..W {
            if x != 0 {
                board[y][x] = 2;
            }
        }
    }
    let mut piece = Piece { kind: 0, rot: 1, x: -2, y: 16 };
    let mut seed = 0u32;
    let mut score = 100usize;
    let mut over = false;
    step_down(&mut board, &mut piece, &mut seed, &mut score, &mut over);
    assert_eq!(score, 500);
    assert!((0..H).all(|y| !row_is_full(&board[y])));
}
