pub mod tile;
pub mod game;
pub mod moves;
pub mod brute_force;
