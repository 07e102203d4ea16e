//! A maze generator on a square grid: paths grow at random from frontier
//! cells and are committed once they touch the maze, a connectivity
//! search keeps growth out of unreachable pockets, and the finished grid
//! is coloured and rendered as a PNG image.

pub mod frontier;
pub mod growth;
pub mod maze;
pub mod maze_display;
pub mod oracle;
