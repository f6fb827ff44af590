pub mod license;
pub mod merge;
pub mod save;
