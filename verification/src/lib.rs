//! Verified core of an AUR helper.

pub mod error;
pub mod git;
pub mod index;
pub mod interrupt;
pub mod laws;
pub mod logging;
pub mod maps;
pub mod mirror;
pub mod names;
pub mod order;
pub mod pacman;
pub mod paths;
pub mod resolver;
pub mod rotate;
pub mod runopts;
pub mod seqs;
pub mod system;
pub mod targets;
pub mod text;
pub mod trace;
pub mod ui;
pub mod units;
pub mod version;
