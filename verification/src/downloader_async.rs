//! The async downloader.
pub mod downloader;
pub mod server_task;
