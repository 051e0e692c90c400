//! What holds of the analyzer as a whole.
pub mod definitions;
pub mod evaluation;
pub mod files;
pub mod forms;
pub mod inlining;
pub mod lines;
pub mod names;
pub mod numbers;
pub mod programs;
pub mod resolving;
pub mod statements;
pub mod states;
pub mod substitution;
pub mod views;
