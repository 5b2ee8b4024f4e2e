pub mod bytes;
pub mod records;
pub mod blob;
pub mod paths;
pub mod plan;
pub mod cli;
