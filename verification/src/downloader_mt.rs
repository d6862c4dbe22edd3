//! The multi-threaded downloader.
pub mod dmserver;
pub mod odm;
