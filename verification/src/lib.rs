//! Engine of an elimination contest among tributes grouped into districts:
//! event templates, their weighted sampling, their resolution into narrated
//! results, and the phase machine that drives a whole game.

pub mod binding;
pub mod catalog;
pub mod chance;
pub mod counting;
pub mod district;
pub mod draw;
pub mod event;
pub mod placeholder;
pub mod population;
pub mod pronouns;
pub mod rate;
pub mod render;
pub mod report;
pub mod resolution;
pub mod simulation;
pub mod slots;
pub mod text;
pub mod tribute;
