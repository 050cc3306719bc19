//! A project dependency, as the lock-file parser hands it to a scan.

use crate::version::{version_text, Version};
use vstd::prelude::*;

verus! {

/// Mathematical image of a [`Dependency`].
pub ghost struct DependencyView {
    pub name: Seq<char>,
    pub version: Seq<u64>,
}

/// A package name pinned at a version.
#[derive(Debug)]
pub struct Dependency {
    pub name: String,
    pub version: Version,
}

impl View for Dependency {
    type V = DependencyView;

    open spec fn view(&self) -> DependencyView {
        DependencyView { name: self.name@, version: self.version@ }
    }
}

impl Dependency {
    /// The package name.
    pub fn name(&self) -> (r: &str)
        ensures
            r@ == self@.name,
    {
        self.name.as_str()
    }

    /// The version, rendered as text.
    pub fn version(&self) -> (r: String)
        ensures
            r@ == version_text(self@.version),
    {
        self.version.to_text()
    }
}

} // verus!
