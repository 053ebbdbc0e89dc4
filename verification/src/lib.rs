//! Tracks which USB devices are attached and decides when a NumLock policy
//! toggle must be applied: the toggle is forced on exactly while some watched
//! device identity is among the connected ones.

pub mod identity;
pub mod tracker;
