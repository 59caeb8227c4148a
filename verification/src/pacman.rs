//! What pacman knows and does.

pub mod alpm_db;
pub mod dload;
pub mod invoke;
pub mod preflight;
pub mod sync;
pub mod vercmp;
pub mod verdiff;
