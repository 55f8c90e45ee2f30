//! A 2048 tile-sliding game: the slide-and-merge of one line, the 4×4 board
//! that applies it along a direction, and the colour table of the tiles.
pub mod board;
pub mod color;
pub mod line;
mod random;
