//! A language entry: a named path with optional requirements.  The record
//! is parsed and listed; no action is implemented for it yet.

use vstd::prelude::*;

verus! {

/// A language support entry from the configuration.
#[derive(Clone, Debug)]
pub struct Language {
    pub name: String,
    pub path: String,
    pub require: Option<Vec<String>>,
}

} // verus!
