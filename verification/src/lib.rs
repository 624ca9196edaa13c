//! Hand evaluation for a rummy-style card game.
//!
//! A hand of cards, jokers among them, is held against a requirement of so
//! many foursies (four or more cards of one suit in consecutive ranks) and so
//! many threesies (three or more cards of one rank). The library lists every
//! run that a hand holds, composes runs into every laydown that meets the
//! requirement, and scores the hand by what it finds.

pub mod card;
pub mod deck;
pub mod eval;
pub mod hand;
pub mod joker_laws;
pub mod laydown;
pub mod laydown_laws;
pub mod lists;
pub mod notation;
pub mod order;
pub mod run_laws;
pub mod runs;
pub mod score_laws;

pub use card::Card;
pub use eval::{hand_eval, HandScore};
pub use laydown::{get_all_laydown_possibilities, get_all_laydown_possibilities_helper};
pub use runs::{
    get_foursies, get_runs, get_runs_helper, get_threesies, RunConstraints, RunKind,
};
