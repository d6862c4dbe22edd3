//! Planning and decision logic of a segmented HTTP downloader, verified with Verus.

pub mod dmserver;
pub mod downloader_async;
pub mod downloader_mt;
pub mod headers;
pub mod number;
pub mod odm;
pub mod paths;
pub mod ranges;
pub mod response;
pub mod text;
