//! A minimal interactive-fiction runtime: a world of uniquely identified
//! locations, a session that tracks the player's current location, a
//! persistence codec for the world file, and a small line command language.

pub mod codec;
pub mod command;
pub mod config;
pub mod error;
pub mod ids;
pub mod location;
pub mod state;
pub mod world;
