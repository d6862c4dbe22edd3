//! The multi-threaded downloader's listener for requests from the browser.
use vstd::prelude::*;
pub use crate::dmserver::RequestInfo;
use crate::dmserver::{handle_req, step_for, ServerStep};

verus! {

/// Decides what to do with one incoming request (the same rules as the first
/// downloader's listener).
pub fn start_listening(request: &str) -> (r: ServerStep)
    ensures
        step_for(request@, r),
{
    handle_req(request)
}

} // verus!
