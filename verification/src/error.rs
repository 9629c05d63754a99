//! The error type of the store: a message for the user.
use vstd::prelude::*;

verus! {

/// An error of the store, carrying the message that is shown to the user.
#[derive(Debug)]
pub struct KvError(pub String);

impl KvError {
    /// The message, as the error is displayed.
    pub fn to_string(&self) -> (s: String)
        ensures
            s@ == self.0@,
    {
        self.0.clone()
    }
}

impl From<String> for KvError {
    fn from(s: String) -> (e: KvError) {
        KvError(s)
    }
}

impl vstd::std_specs::convert::FromSpecImpl<String> for KvError {
    open spec fn obeys_from_spec() -> bool {
        true
    }

    open spec fn from_spec(v: String) -> KvError {
        KvError(v)
    }
}

} // verus!
