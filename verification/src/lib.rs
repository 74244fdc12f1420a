//! Account resolution: deduplicate an ordered sequence of account references
//! into canonical account records with conservatively merged permission
//! flags, and map every original reference back to its canonical slot.

pub mod accounts;
pub mod laws;
pub mod model;
pub mod resolver;
