//! Heads-up No-Limit Hold'em game logic: cards, hand evaluation, the betting
//! state machine and the configuration checks of a CFR+ solver.

pub mod card;
pub mod config;
pub mod game;
pub mod hand;

pub use card::{Card, CardSet, Deck};
pub use config::{CFRConfig, CFRConfigError, ConfigError, GameConfig};
pub use game::{Action, ActionHistory, LegalActions, Player, Street};
pub use hand::{Hand, HandType};
pub mod solver;

pub use game::{GameState, InfoSet};
pub use solver::{CFRSolver, SolverError};
