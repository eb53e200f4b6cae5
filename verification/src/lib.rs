//! A Monte Carlo Tree Search (MCTS) engine for two-player, turn-based,
//! perfect-information games.
//!
//! The engine repeatedly runs the four MCTS phases against a shared tree:
//! selection walks the explored tree along children of maximal UCT value,
//! expansion materialises one random unexpanded action of the chosen leaf,
//! simulation plays a random rollout from the new node, and backpropagation
//! feeds the rollout result back into the statistics of every node on the
//! path to the root.
//!
//! All nodes live in one append-only arena; parent and child links are plain
//! indices into it, so the tree has no self-referential ownership. The UCT
//! value is computed in Q32 fixed-point arithmetic, which keeps the bandit
//! formula deterministic and lets every step of it carry a contract.
//!
//! The engine is written against the [`game_state_trait::GameState`]
//! abstraction only; `chess_env` plugs in a chess rules crate, and
//! `placeholder_env` provides a minimal conforming state for exercising the
//! engine's own logic.

pub mod chess_env;
pub mod fixed_point;
pub mod game_state_trait;
pub mod mcts;
pub mod placeholder_env;
