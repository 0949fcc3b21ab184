//! Conway's Game of Life on a toroidal grid, advanced generation by
//! generation while examining only the cells whose neighbourhood changed.
pub mod life;
pub mod world;
pub mod terminalvisualizer;
