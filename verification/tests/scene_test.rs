use tg_rcore_tutorial::board::{Board, H, W};
use tg_rcore_tutorial::display::FrameBuffer;
use tg_rcore_tutorial::snake::{Pos, SnakeGame};
use tg_rcore_tutorial::snake_draw::{draw_idle_panel, draw_scene as draw_snake};
use tg_rcore_tutorial::tetris::Piece;
use tg_rcore_tutorial::tetris_draw::{brighten, color_of, darken, draw_block, draw_scene as draw_tetris};

fn pixel(fb: &mut FrameBuffer, x: usize, y: usize) -> [u8; 4] {
    let off = fb.byte_offset(x, y).unwrap();
    let bytes = fb.as_bytes_mut();
    [bytes[off], bytes[off + 1], bytes[off + 2], bytes[off + 3]]
}

#[test]
fn snake_scene_pixels() {
    let mut raw = vec![0u8; 400 * 300 * 4];
    let mut fb = FrameBuffer::from_scanout(400, 300, &mut raw).unwrap();
    let g = SnakeGame::new();
    draw_snake(&mut fb, &g.body, g.len, g.food, false);
    assert_eq!(pixel(&mut fb, 0, 0), [30, 24, 20, 255]);
    assert_eq!(pixel(&mut fb, 20, 36), [92, 80, 75, 255]);
    assert_eq!(pixel(&mut fb, 24, 40), [48, 40, 34, 255]);
    assert_eq!(pixel(&mut fb, 35, 40), [44, 36, 30, 255]);
    assert_eq!(pixel(&mut fb, 147, 119), [90, 90, 255, 255]);
    assert_eq!(pixel(&mut fb, 201, 151), [170, 255, 120, 255]);
    assert_eq!(pixel(&mut fb, 24 + 13 * 11 + 5, 40 + 110 + 5), [120, 220, 70, 255]);
    assert_eq!(pixel(&mut fb, 120, 145), [44, 36, 30, 255]);
}

#[test]
fn snake_scene_game_over_banner() {
    let mut raw = vec![0u8; 400 * 300 * 4];
    let mut fb = FrameBuffer::from_scanout(400, 300, &mut raw).unwrap();
    let g = SnakeGame::new();
    draw_snake(&mut fb, &g.body, g.len, Pos { x: 0, y: 0 }, true);
    assert_eq!(pixel(&mut fb, 120, 145), [35, 35, 180, 255]);
    assert_eq!(pixel(&mut fb, 29, 45), [90, 90, 255, 255]);
}

#[test]
fn idle_panel_pixels() {
    let mut raw = vec![0u8; 400 * 300 * 4];
    let mut fb = FrameBuffer::from_scanout(400, 300, &mut raw).unwrap();
    draw_idle_panel(&mut fb);
    assert_eq!(pixel(&mut fb, 0, 0), [30, 24, 20, 255]);
    assert_eq!(pixel(&mut fb, 102, 127), [90, 65, 50, 255]);
    assert_eq!(pixel(&mut fb, 150, 150), [44, 36, 30, 255]);
    assert_eq!(pixel(&mut fb, 299, 174), [90, 65, 50, 255]);
    assert_eq!(pixel(&mut fb, 300, 174), [30, 24, 20, 255]);
}

#[test]
fn palette_and_shades() {
    assert_eq!(color_of(0), (0, 0, 0));
    assert_eq!(color_of(1), (90, 220, 255));
    assert_eq!(color_of(7), (255, 110, 120));
    assert_eq!(brighten((90, 220, 255), 28), (118, 248, 255));
    assert_eq!(darken((90, 220, 20), 35), (55, 185, 0));
}

#[test]
fn block_has_light_and_dark_bands() {
    let mut raw = vec![0u8; 20 * 20 * 4];
    let mut fb = FrameBuffer::from_scanout(20, 20, &mut raw).unwrap();
    draw_block(&mut fb, 0, 0, 14, (90, 220, 255));
    assert_eq!(pixel(&mut fb, 0, 0), [0, 0, 0, 0]);
    assert_eq!(pixel(&mut fb, 1, 1), [255, 248, 118, 255]);
    assert_eq!(pixel(&mut fb, 6, 6), [255, 220, 90, 255]);
    assert_eq!(pixel(&mut fb, 11, 6), [220, 185, 55, 255]);
    assert_eq!(pixel(&mut fb, 6, 12), [220, 185, 55, 255]);
    assert_eq!(pixel(&mut fb, 13, 6), [0, 0, 0, 0]);
}

#[test]
fn tetris_scene_pixels() {
    let mut raw = vec![0u8; 320 * 400 * 4];
    let mut fb = FrameBuffer::from_scanout(320, 400, &mut raw).unwrap();
    let mut board: Board = [[0u8; W]; H];
    board[19][0] = 1;
    let piece = Piece { kind: 3, rot: 0, x: 4, y: 0 };
    draw_tetris(&mut fb, &board, piece, 500, false);
    assert_eq!(pixel(&mut fb, 0, 0), [28, 22, 18, 255]);
    assert_eq!(pixel(&mut fb, 47, 54), [95, 78, 65, 255]);
    assert_eq!(pixel(&mut fb, 53, 60), [52, 39, 32, 255]);
    assert_eq!(pixel(&mut fb, 67, 60), [44, 34, 28, 255]);
    assert_eq!(pixel(&mut fb, 60, 333), [255, 220, 90, 255]);
    assert_eq!(pixel(&mut fb, 54, 327), [255, 248, 118, 255]);
    assert_eq!(pixel(&mut fb, 129, 66), [90, 230, 255, 255]);
    assert_eq!(pixel(&mut fb, 220, 76), [160, 220, 110, 255]);
    assert_eq!(pixel(&mut fb, 270, 76), [40, 31, 25, 255]);
    assert_eq!(pixel(&mut fb, 100, 200), [44, 34, 28, 255]);
}

#[test]
fn tetris_scene_game_over_banner() {
    let mut raw = vec![0u8; 320 * 400 * 4];
    let mut fb = FrameBuffer::from_scanout(320, 400, &mut raw).unwrap();
    let board: Board = [[0u8; W]; H];
    let piece = Piece { kind: 3, rot: 0, x: 4, y: 0 };
    draw_tetris(&mut fb, &board, piece, 0, true);
    assert_eq!(pixel(&mut fb, 100, 200), [60, 50, 170, 255]);
    assert_eq!(pixel(&mut fb, 220, 76), [40, 31, 25, 255]);
}
