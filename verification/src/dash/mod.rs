pub mod master;
pub mod segments;
