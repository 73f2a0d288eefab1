pub mod maze;
pub mod coord_set;
pub mod paths;
pub mod search;
pub mod farthest;
pub mod generate;
pub mod construct;
mod random;
pub mod connect;
pub mod spanning;
pub mod walk;
pub mod area;
