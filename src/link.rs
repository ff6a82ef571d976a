use vstd::prelude::*;
use crate::object::Object;

verus! {

/// One model/view relationship of a given kind. The model carries
/// `Viewable` for the kind, the view object carries `View` for it.
#[derive(Clone, Copy, Debug, PartialEq, Eq, Structural)]
pub struct Link {
    pub kind: usize,
    pub model: Object,
    pub view: Object,
}

/// The view side of a link: the model this view object represents.
#[derive(Clone, Copy, Debug, PartialEq, Eq, Structural)]
pub struct View {
    pub viewable: Object,
}

impl View {
    /// The model represented by this view.
    pub fn viewable(&self) -> (r: Object)
        ensures
            r == self.viewable,
    {
        self.viewable
    }
}

/// The model side of a link: the view object that represents this model.
#[derive(Clone, Copy, Debug, PartialEq, Eq, Structural)]
pub struct Viewable {
    pub view: Object,
}

impl Viewable {
    /// The view object of this model.
    pub fn view(&self) -> (r: Object)
        ensures
            r == self.view,
    {
        self.view
    }
}

} // verus!
