//! The error that the library's operations report, as text for protocol replies.

use vstd::prelude::*;
use crate::text::{append, owned};

verus! {

/// A failed operation and its human-readable reason.
#[derive(Debug)]
pub struct Error {
    pub message: String,
}

impl Error {
    pub fn new(message: &str) -> (e: Error)
        ensures
            e.message@ == message@,
    {
        Error { message: owned(message) }
    }

    /// `prefix` followed by `detail`.
    pub fn with(prefix: &str, detail: &str) -> (e: Error)
        ensures
            e.message@ == prefix@ + detail@,
    {
        let mut message = owned(prefix);
        append(&mut message, detail);
        Error { message }
    }

    /// `prefix`, `detail`, then `suffix`.
    pub fn around(prefix: &str, detail: &str, suffix: &str) -> (e: Error)
        ensures
            e.message@ == prefix@ + detail@ + suffix@,
    {
        let mut message = owned(prefix);
        append(&mut message, detail);
        append(&mut message, suffix);
        Error { message }
    }

    pub fn text(&self) -> (r: String)
        ensures
            r@ == self.message@,
    {
        owned(self.message.as_str())
    }
}

} // verus!
