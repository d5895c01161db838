//! Deferred script-management commands: plain data describing work the
//! host performs against its script store. Building a command is the
//! library's part; applying one drives the host's context manager and
//! stays outside this crate.

use vstd::prelude::*;

verus! {

/// Orders the script with the given identifier deleted: its unload hook
/// run, its context released, and its entry removed from the store.
#[derive(Debug)]
pub struct DeleteScript {
    pub id: String,
}

impl DeleteScript {
    /// A delete command for the script with the given identifier.
    pub fn new(id: String) -> (r: DeleteScript)
        ensures
            r.id == id,
    {
        DeleteScript { id }
    }
}

/// Orders a script created under the given identifier, or reloaded in
/// place when one already exists.
#[derive(Debug)]
pub struct CreateOrUpdateScript {
    pub id: String,
    pub content: Vec<u8>,
}

impl CreateOrUpdateScript {
    /// A create-or-update command carrying the script's source bytes.
    pub fn new(id: String, content: Vec<u8>) -> (r: CreateOrUpdateScript)
        ensures
            r.id == id,
            r.content@ == content@,
    {
        CreateOrUpdateScript { id, content }
    }
}

} // verus!
