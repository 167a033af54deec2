//! The logic of `rip`, a deletion tool that sends files to a graveyard
//! instead of unlinking them, and can bring them back.
//!
//! - `path`: Unix paths as text, their components, comparison and joining;
//! - `grave`: choosing a free place for a file to rest;
//! - `record`: the record of burials, its lines and the searches in it;
//! - `clock`: the time stamp of a record line;
//! - `config`: the graveyard's location and the choice of what a run does;
//! - `size`: human-readable byte counts;
//! - `steps`: what happens to one target, and which graves come back;
//! - `text`: characters, strings and decimal numerals.

pub mod clock;
pub mod config;
pub mod grave;
pub mod path;
pub mod record;
pub mod size;
pub mod steps;
pub mod text;
