//! Core of a trick-taking card-game server: the 40-card deck, the per-game
//! state machine that validates plays and resolves rounds, the event
//! broadcasting model, and the registry of in-progress games.

pub mod cards;
pub mod events;
pub mod game;
pub mod laws;
pub mod registry;

pub use cards::Card;
pub use cards::Suit;
pub use events::Event;
pub use registry::GameInfo;
