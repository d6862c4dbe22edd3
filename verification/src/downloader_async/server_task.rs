//! The async downloader's requests from the browser extension.
use vstd::prelude::*;

verus! {

/// A download request from the browser extension: the URL and the headers to
/// send with it.
#[derive(Clone, Debug)]
pub struct DownloadRequest {
    pub url: String,
    pub headers: Vec<(String, String)>,
}

} // verus!
