pub mod config;
pub mod dispatch;
pub mod kinet;
pub mod text;
pub mod utils;
