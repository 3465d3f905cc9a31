//! Data model and view logic of a terminal dashboard that groups tracked
//! tasks into a tree of projects.

pub mod seqs;
pub mod strings;
pub mod data;
pub mod theme;
pub mod detail;
pub mod keys;
pub mod ui;
pub mod rows;
pub mod text;
pub mod folding;
pub mod laws;
