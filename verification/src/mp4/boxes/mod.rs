pub mod iv;
pub mod schm;
pub mod senc;
pub mod tenc;
pub mod sidx;
pub mod tfdt;
pub mod trun;
