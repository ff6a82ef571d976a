use vstd::prelude::*;
use crate::object::UNLOAD;

verus! {

/// A predicate over an object's tags: every bit of `with` set, every bit of
/// `without` clear.
#[derive(Clone, Copy, Debug, PartialEq, Eq, Structural)]
pub struct Filter {
    pub with: u64,
    pub without: u64,
}

impl Filter {
    pub open spec fn spec_matches(self, tags: u64) -> bool {
        &&& tags & self.with == self.with
        &&& tags & self.without == 0
    }

    /// Whether an object carrying `tags` satisfies this filter.
    pub fn matches(&self, tags: u64) -> (r: bool)
        ensures
            r == self.spec_matches(tags),
    {
        tags & self.with == self.with && tags & self.without == 0
    }
}

/// A class of model objects that get a view: the filter that selects the
/// models, and the tags that a fresh view object starts with.
#[derive(Clone, Copy, Debug, PartialEq, Eq, Structural)]
pub struct ViewableKind {
    pub filter: Filter,
    pub bundle: u64,
}

impl ViewableKind {
    pub open spec fn spec_view_bundle(self) -> u64 {
        self.bundle | UNLOAD
    }

    /// Tags of a freshly spawned view of this kind: the kind's own bundle and
    /// the persistence-exclusion marker.
    pub fn view_bundle(&self) -> (r: u64)
        ensures
            r == self.spec_view_bundle(),
    {
        self.bundle | UNLOAD
    }
}

/// A kind as registered: its definition and, for a specialization, the base
/// kind whose view it refines.
#[derive(Clone, Copy, Debug, PartialEq, Eq, Structural)]
pub struct Kind {
    pub def: ViewableKind,
    pub base: Option<usize>,
}

} // verus!
