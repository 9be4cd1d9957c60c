pub mod file_manager;
pub mod model;
pub mod packet;
