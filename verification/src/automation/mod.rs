pub mod hooks;
pub mod summary;
