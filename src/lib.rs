pub mod board;
pub mod board_points;
pub mod colored_point;
pub mod coord;
pub mod directions;
pub mod progress;
pub mod puzzle_piece;
pub mod rubicscube;
pub mod shape;
pub mod solution;
pub mod solver;
pub mod tagged_point;
pub mod text;
