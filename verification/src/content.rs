//! A page's body text, stored as its own content-addressed blob so
//! that unchanged bodies are shared between versions.

use vstd::prelude::*;
use crate::errors::HrdbError;
use crate::store::{read, Store};

verus! {

/// The body text of a page.
#[derive(Debug)]
pub struct Content(pub String);

impl Content {
    /// Load the content blob stored under `hash`.
    pub fn from(store: &Store, hash: &str) -> (r: Result<Content, HrdbError>)
        requires
            store.wf(),
        ensures
            match r {
                Ok(c) => store@.contains_key(hash@) && c.0@ == store@[hash@],
                Err(e) => e == HrdbError::NotFound && !store@.contains_key(hash@),
            },
    {
        match read(store, hash) {
            Ok(v) => Ok(Content(v)),
            Err(e) => Err(e),
        }
    }

    pub fn new(content: String) -> (r: Content)
        ensures
            r.0@ == content@,
    {
        Content(content)
    }

    pub fn to_string(&self) -> (r: String)
        ensures
            r@ == self.0@,
    {
        self.0.clone()
    }
}

} // verus!
