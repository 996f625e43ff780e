//! The topology map as the interactive tools read it back.

use vstd::prelude::*;

verus! {

/// A single project discovered in the ecosystem.
#[derive(Debug, Clone, Default)]
pub struct ProjectMeta {
    pub name: String,
    pub path: String,
}

/// The projects of a topology map.
#[derive(Debug, Clone, Default)]
pub struct TopographyMap {
    pub projects: Vec<ProjectMeta>,
}

/// A project the tools can act on: it has both a name and a path.
pub open spec fn is_usable(p: ProjectMeta) -> bool {
    p.name@.len() > 0 && p.path@.len() > 0
}

impl ProjectMeta {
    /// Whether the project has both a name and a path.
    pub fn usable(&self) -> (r: bool)
        ensures
            r == is_usable(*self),
    {
        self.name.as_str().unicode_len() > 0 && self.path.as_str().unicode_len() > 0
    }
}

} // verus!
