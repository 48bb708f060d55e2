//! A cooperative, tick-driven scheduler of composable timed actions.
//!
//! Time is counted in nanoseconds, as `u64`.
pub mod action;
pub mod battle;
pub mod map;
pub mod scene;

pub use action::{Action, Boxed, Color, Effect, Fork, Kind, Leaf, Phase, Sequence};
pub use battle::BattleScreen;
pub use map::{BattleMap, Pos};
pub use scene::Scene;
