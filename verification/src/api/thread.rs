//! The script-facing thread object. Sleeping and pause polling are outside
//! work and live with the embedder.

use vstd::prelude::*;

verus! {

/// The script-facing thread handle.
#[derive(Debug, Clone, Copy)]
pub struct Thread {}

impl Thread {
    pub fn new() -> Thread {
        Thread {  }
    }

    /// The script-visible constructor.
    pub fn ctor() -> Thread {
        Thread {  }
    }
}

} // verus!
