//! Core of a small entity-component-system runtime: packed component stores
//! with a stable iteration chain, a registry of stores with readers-writer
//! loans, and the transition engine of a stack of application states.
//!
//! The library decides and keeps the books; it never waits and starts no
//! thread. Where a request cannot be granted yet it says so, and where a
//! step of the state machine owes the systems a lifecycle call it names the
//! call. Waiting, waking and running systems in parallel are the part of
//! the program around it.

pub mod component;
pub mod dispatcher;
pub mod entity;
pub mod meta;
pub mod resources;
pub mod state;
pub mod store;
pub mod syncmap;
