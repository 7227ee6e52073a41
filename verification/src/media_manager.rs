pub mod media_manager;
pub mod operations;
pub mod stub;
