//! The core of a game of ships that are built from parts and fly between
//! celestial objects: the store of all objects under stable handles, the
//! trees that attached parts form, their traversal, detaching and deleting,
//! and what the contacts of a tick mean to the game. The physics is done
//! elsewhere; this crate holds the rules.

pub mod world;
