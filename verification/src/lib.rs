//! Verified core of the Food Club arena model: pirate and course data,
//! the integer dice model of an arena, bet enumeration and the counting
//! done over historical arenas.

pub mod model;
pub mod pirates;
pub mod arena;
pub mod bets;
pub mod hashing;
pub mod stats;
pub mod slate;
pub mod food_counts;
pub mod repeats;
pub mod scans;
pub mod pairs;
pub mod food_order;
