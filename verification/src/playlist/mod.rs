pub mod types;
pub mod master;
