//! A verified remapping engine for evdev-style input events.
//!
//! The engine turns a stream of raw key and axis events into a stream of
//! synthesized events, honoring dual-role keys, chorded remaps, axis
//! rules with direction filters and integer scaling, modifier-aware
//! press and release ordering, and transparent pass-through of event
//! families that no rule claims. Device handling, configuration-file
//! reading and command-line plumbing live outside the library.

pub mod laws;
pub mod mapping;
pub mod remapper;
pub mod resolver;
