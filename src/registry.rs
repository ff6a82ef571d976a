use vstd::prelude::*;
use crate::object::Object;

verus! {

/// Views of model `m` listed in `s`, in order of registration.
pub open spec fn views_of(s: Seq<(Object, Object)>, m: Object) -> Seq<Object>
    decreases s.len(),
{
    if s.len() == 0 {
        Seq::empty()
    } else {
        let rest = views_of(s.drop_last(), m);
        if s.last().0 == m {
            rest.push(s.last().1)
        } else {
            rest
        }
    }
}

/// The model that `s` records for view `v` (the latest entry wins).
pub open spec fn model_of(s: Seq<(Object, Object)>, v: Object) -> Option<Object>
    decreases s.len(),
{
    if s.len() == 0 {
        None
    } else if s.last().1 == v {
        Some(s.last().0)
    } else {
        model_of(s.drop_last(), v)
    }
}

pub open spec fn has_model(s: Seq<(Object, Object)>, m: Object) -> bool {
    exists|i: int| 0 <= i < s.len() && (#[trigger] s[i]).0 == m
}

pub open spec fn has_view(s: Seq<(Object, Object)>, v: Object) -> bool {
    exists|i: int| 0 <= i < s.len() && (#[trigger] s[i]).1 == v
}

/// No view object is listed twice.
pub open spec fn views_unique(s: Seq<(Object, Object)>) -> bool {
    forall|i: int, j: int| 0 <= i < s.len() && 0 <= j < s.len() && i != j ==> (#[trigger] s[i]).1 != (#[trigger] s[j]).1
}

/// Reverse index of model/view pairs: which models have views, which
/// objects are views, and of what.
pub struct Viewables {
    entries: Vec<(Object, Object)>,
}

impl vstd::view::View for Viewables {
    type V = Seq<(Object, Object)>;

    closed spec fn view(&self) -> Seq<(Object, Object)> {
        self.entries@
    }
}

impl Viewables {
    pub(crate) fn new() -> (r: Viewables)
        ensures
            r@ == Seq::<(Object, Object)>::empty(),
    {
        Viewables { entries: Vec::new() }
    }

    pub(crate) fn push(&mut self, model: Object, view: Object)
        ensures
            final(self)@ == old(self)@.push((model, view)),
    {
        self.entries.push((model, view));
    }

    /// Whether `model` has at least one view.
    pub fn contains(&self, model: Object) -> (r: bool)
        ensures
            r == has_model(self@, model),
    {
        let mut i: usize = 0;
        while i < self.entries.len()
            invariant
                0 <= i <= self.entries@.len(),
                forall|j: int| 0 <= j < i ==> (#[trigger] self.entries@[j]).0 != model,
            decreases self.entries@.len() - i,
        {
            if self.entries[i].0 == model {
                return true;
            }
            i = i + 1;
        }
        false
    }

    /// Whether `object` is a registered view.
    pub fn is_view(&self, object: Object) -> (r: bool)
        ensures
            r == has_view(self@, object),
    {
        let mut i: usize = 0;
        while i < self.entries.len()
            invariant
                0 <= i <= self.entries@.len(),
                forall|j: int| 0 <= j < i ==> (#[trigger] self.entries@[j]).1 != object,
            decreases self.entries@.len() - i,
        {
            if self.entries[i].1 == object {
                return true;
            }
            i = i + 1;
        }
        false
    }

    /// The model that view `object` represents, if it is a registered view.
    pub fn model_of(&self, object: Object) -> (r: Option<Object>)
        ensures
            r == model_of(self@, object),
    {
        let mut r: Option<Object> = None;
        let mut i: usize = 0;
        while i < self.entries.len()
            invariant
                0 <= i <= self.entries@.len(),
                r == model_of(self.entries@.subrange(0, i as int), object),
            decreases self.entries@.len() - i,
        {
            assert(self.entries@.subrange(0, i + 1).drop_last() =~= self.entries@.subrange(0, i as int));
            if self.entries[i].1 == object {
                r = Some(self.entries[i].0);
            }
            i = i + 1;
        }
        assert(self.entries@.subrange(0, i as int) =~= self.entries@);
        r
    }

    /// The views of `model`, in order of registration; empty if it has none.
    pub fn views(&self, model: Object) -> (r: Vec<Object>)
        ensures
            r@ == views_of(self@, model),
    {
        let mut r: Vec<Object> = Vec::new();
        let mut i: usize = 0;
        while i < self.entries.len()
            invariant
                0 <= i <= self.entries@.len(),
                r@ == views_of(self.entries@.subrange(0, i as int), model),
            decreases self.entries@.len() - i,
        {
            assert(self.entries@.subrange(0, i + 1).drop_last() =~= self.entries@.subrange(0, i as int));
            if self.entries[i].0 == model {
                r.push(self.entries[i].1);
            }
            i = i + 1;
        }
        assert(self.entries@.subrange(0, i as int) =~= self.entries@);
        r
    }

    /// Every model that has at least one view, each once.
    pub fn iter(&self) -> (r: Vec<Object>)
        ensures
            r@.no_duplicates(),
            forall|m: Object| r@.contains(m) <==> has_model(self@, m),
    {
        let mut r: Vec<Object> = Vec::new();
        let mut i: usize = 0;
        while i < self.entries.len()
            invariant
                0 <= i <= self.entries@.len(),
                r@.no_duplicates(),
                forall|m: Object| r@.contains(m) <==> exists|j: int| 0 <= j < i && (#[trigger] self.entries@[j]).0 == m,
            decreases self.entries@.len() - i,
        {
            let m = self.entries[i].0;
            let mut seen = false;
            let mut k: usize = 0;
            while k < r.len()
                invariant
                    0 <= k <= r@.len(),
                    seen <==> exists|j: int| 0 <= j < k && r@[j] == m,
                decreases r@.len() - k,
            {
                if r[k] == m {
                    seen = true;
                }
                k = k + 1;
            }
            let ghost old_r = r@;
            proof {
                if seen {
                    let j = choose|j: int| 0 <= j < k && r@[j] == m;
                    assert(r@.contains(m));
                }
            }
            if !seen {
                r.push(m);
            }
            proof {
                assert(r@.contains(m)) by {
                    if !seen {
                        assert(r@[r@.len() - 1] == m);
                    }
                }
                assert forall|x: Object| old_r.contains(x) implies r@.contains(x) by {
                    let a = choose|a: int| 0 <= a < old_r.len() && old_r[a] == x;
                    assert(r@[a] == x);
                }
                assert forall|x: Object| r@.contains(x) && x != m implies old_r.contains(x) by {
                    let a = choose|a: int| 0 <= a < r@.len() && r@[a] == x;
                    assert(old_r[a] == x);
                }
                assert forall|x: Object| r@.contains(x) <==> exists|j: int| 0 <= j < i + 1 && (#[trigger] self.entries@[j]).0 == x by {
                    if r@.contains(x) {
                        if x == m {
                            assert(self.entries@[i as int].0 == x);
                        } else {
                            assert(old_r.contains(x));
                        }
                    }
                    if exists|j: int| 0 <= j < i + 1 && (#[trigger] self.entries@[j]).0 == x {
                        let j = choose|j: int| 0 <= j < i + 1 && (#[trigger] self.entries@[j]).0 == x;
                        if j < i {
                            assert(old_r.contains(x));
                        }
                    }
                }
            }
            i = i + 1;
        }
        r
    }
}

} // verus!
