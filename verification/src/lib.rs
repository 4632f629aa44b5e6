//! A feasibility solver for a cooperative trick-taking card game.
//!
//! Cards come in four ordinary suits (ranks 1 to 9) and a dominant trump
//! suit (ranks 1 to 4). Each player owns a hand, a list of won tricks and a
//! list of assigned tasks (goals). The solver searches the space of legal
//! plays for a complete game in which every task is satisfied.

pub mod card;
pub mod deal;
pub mod hand;
pub mod player;
pub mod solver;
pub mod state;
pub mod task;
pub mod trick;

pub use card::Card;
