//! The library's error type.  Failures that can arise inside the engine
//! itself are corrupt on-disk records; file I/O failures belong to the
//! application around the engine and never originate here.

use vstd::prelude::*;

verus! {

/// An engine error, carrying a human-readable message.
#[derive(Debug)]
pub struct QuickKVError(pub String);

impl QuickKVError {
    pub fn new(message: String) -> (r: QuickKVError)
        ensures
            r.0@ == message@,
    {
        QuickKVError(message)
    }

    /// The error's message.
    pub fn message(&self) -> (r: &String)
        ensures
            r@ == self.0@,
    {
        &self.0
    }
}

} // verus!
