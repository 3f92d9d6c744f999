pub mod board;
pub mod shapes;
pub mod tetris;
pub mod tetris_user;
pub mod snake;
pub mod bump;
pub mod display;
pub mod raster;
pub mod tangram;
pub mod render;
pub mod snake_draw;
pub mod tetris_draw;
pub mod text;
