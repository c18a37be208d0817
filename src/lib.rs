//! Rules engine for Go played on a cubic lattice.
//!
//! Stones sit on the integer points `(x, y, z)` of an `n × n × n` cube and
//! touch their six axis-aligned neighbours. [`Board`] stores stones and answers
//! spatial questions (groups, liberties, captures); [`GameRules`] adds turn
//! order, legality (suicide and ko), undo history and territory scoring.
pub mod stone;
pub mod lattice;
pub mod connectivity;
pub mod board;
pub mod flood;
pub mod seed;
pub mod rules;
pub mod territory;
pub mod ai;
pub mod guide;
pub mod view_direction;
pub mod laws;

pub use stone::{Stone, StoneColor};
pub use lattice::Position;
pub use board::Board;
pub use rules::GameRules;
pub use guide::GuideSystem;
pub use view_direction::ViewDirection;
pub use ai::make_ai_move;
