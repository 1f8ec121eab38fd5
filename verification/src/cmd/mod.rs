//! What the commands of the tool do with one feature file.

pub mod check;
pub mod format;
