//! Solvers for the quests of Everybody Codes 2024, on top of a small verified
//! library of grid geometry and shortest paths.
//!
//! The library: [`grid`] has points, compass directions and rectangular
//! grids; [`graph`] has a directed weighted graph over points with
//! Dijkstra's search, whose answers [`walks`] defines and [`search`] proves
//! right; [`frontier`] is the priority queue of the search, [`point_map`]
//! the map keyed by points that graph and search are stored in; [`flood`]
//! counts steps between neighbours; [`text`] reads lines, words and numbers,
//! [`chart`] finds the places of characters in a map drawn in text,
//! [`rules`] holds rules written a line each, and [`spanning`] proves that
//! stars tied nearest-first are tied as short as can be.
//!
//! The quests: one module each, with a function for each part that takes
//! the notes of the quest as text.

pub mod chart;
pub mod flood;
pub mod frontier;
pub mod graph;
pub mod grid;
pub mod order;
pub mod point_map;
pub mod quest01;
pub mod quest02;
pub mod quest03;
pub mod quest04;
pub mod quest05;
pub mod quest06;
pub mod quest07;
pub mod quest08;
pub mod quest09;
pub mod quest11;
pub mod quest12;
pub mod quest13;
pub mod quest14;
pub mod quest15;
pub mod quest16;
pub mod quest17;
pub mod quest18;
pub mod rules;
pub mod search;
pub mod spanning;
pub mod text;
pub mod walks;
