//! An earlier shape of the tool record, kept for configurations that still
//! use it: the same artifacts, with the dependency list under `requires`.

use vstd::prelude::*;

verus! {

/// A tool record whose dependency list is named `requires`.
#[derive(Clone, Debug)]
pub struct Tools {
    pub name: String,
    pub bin: String,
    pub config: Option<String>,
    pub lib: Option<String>,
    pub requires: Option<Vec<String>>,
}

impl Tools {
    /// The display name.
    pub fn name(&self) -> (r: &String)
        ensures
            r == self.name,
    {
        &self.name
    }

    /// The binary artifact's source path.
    pub fn bin(&self) -> (r: &String)
        ensures
            r == self.bin,
    {
        &self.bin
    }

    /// The configuration artifact's source path, if one is declared.
    pub fn config(&self) -> (r: Option<&String>)
        ensures
            r matches Some(c) ==> self.config == Some(*c),
            r is None ==> self.config is None,
    {
        self.config.as_ref()
    }

    /// The library artifact's source path, if one is declared.
    pub fn lib(&self) -> (r: Option<&String>)
        ensures
            r matches Some(l) ==> self.lib == Some(*l),
            r is None ==> self.lib is None,
    {
        self.lib.as_ref()
    }
}

} // verus!
