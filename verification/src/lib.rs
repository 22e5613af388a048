//! A verified library for the galaxy pad of ICFP Contest 2020: the term
//! language and its evaluator, the modulation of values, the game protocol,
//! pictures, and the strategies of the team's ships.
pub mod text;
pub mod parser;
pub mod eval;
pub mod modulation;
pub mod modulate;
pub mod client;
pub mod room;
pub mod galaxy;
pub mod visualize;
pub mod draw;
pub mod recognize;
pub mod routing;
pub mod wata;
pub mod defender;
pub mod chokudai;
pub mod orbiter;
pub mod totsugeki;
pub mod tos;
