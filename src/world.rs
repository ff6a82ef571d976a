use vstd::prelude::*;
use vstd::view::View as _;
use crate::kind::{Kind, ViewableKind};
use crate::link::{Link, View, Viewable};
use crate::object::{Object, ObjectState};
use crate::registry::Viewables;

verus! {

/// Model/view pairs of the base-kind links in `links`, in order.
pub open spec fn base_pairs(links: Seq<Link>, kinds: Seq<Kind>) -> Seq<(Object, Object)>
    decreases links.len(),
{
    if links.len() == 0 {
        Seq::empty()
    } else {
        let rest = base_pairs(links.drop_last(), kinds);
        if kinds[links.last().kind as int].base is None {
            rest.push((links.last().model, links.last().view))
        } else {
            rest
        }
    }
}

/// Models of the links of kind `k`, in link order.
pub open spec fn models_of_kind(links: Seq<Link>, k: usize) -> Seq<Object>
    decreases links.len(),
{
    if links.len() == 0 {
        Seq::empty()
    } else if links.last().kind == k {
        models_of_kind(links.drop_last(), k).push(links.last().model)
    } else {
        models_of_kind(links.drop_last(), k)
    }
}

/// View objects of the links of kind `k`, in link order.
pub open spec fn views_of_kind(links: Seq<Link>, k: usize) -> Seq<Object>
    decreases links.len(),
{
    if links.len() == 0 {
        Seq::empty()
    } else if links.last().kind == k {
        views_of_kind(links.drop_last(), k).push(links.last().view)
    } else {
        views_of_kind(links.drop_last(), k)
    }
}

/// The abstract state of a world: objects by index, registered kinds by id,
/// the link table and the registry's entries.
pub struct WorldState {
    pub objects: Seq<ObjectState>,
    pub kinds: Seq<Kind>,
    pub links: Seq<Link>,
    pub registry: Seq<(Object, Object)>,
}

impl WorldState {
    /// Object `o` exists.
    pub open spec fn alive(self, o: Object) -> bool {
        o.index < self.objects.len() && self.objects[o.index as int].alive
    }

    /// The tags of object `o`.
    pub open spec fn tags(self, o: Object) -> u64 {
        self.objects[o.index as int].tags
    }

    /// Kind `k` is a base kind, not a specialization.
    pub open spec fn is_base(self, k: usize) -> bool {
        self.kinds[k as int].base is None
    }

    /// The base kind of `k`: `k` itself unless it is a specialization.
    pub open spec fn root(self, k: usize) -> usize {
        match self.kinds[k as int].base {
            Some(b) => b,
            None => k,
        }
    }

    /// Model `m` is eligible for a view of kind `k`: it exists and satisfies the
    /// filters of `k` and of its base kind.
    pub open spec fn in_view(self, k: usize, m: Object) -> bool {
        &&& self.alive(m)
        &&& self.kinds[self.root(k) as int].def.filter.spec_matches(self.tags(m))
        &&& self.kinds[k as int].def.filter.spec_matches(self.tags(m))
    }

    /// Model `m` carries `Viewable` for kind `k`.
    pub open spec fn linked(self, k: usize, m: Object) -> bool {
        exists|i: int| 0 <= i < self.links.len() && (#[trigger] self.links[i]).kind == k && self.links[i].model == m
    }

    /// Object `v` carries `View` for kind `k`.
    pub open spec fn viewed(self, k: usize, v: Object) -> bool {
        exists|i: int| 0 <= i < self.links.len() && (#[trigger] self.links[i]).kind == k && self.links[i].view == v
    }

    /// Object index `o` is the view of a base-kind link whose model is no longer
    /// eligible: the despawn stage destroys it.
    pub open spec fn doomed(self, o: int) -> bool {
        exists|i: int|
            0 <= i < self.links.len() && (#[trigger] self.links[i]).view.index == o && self.is_base(self.links[i].kind)
                && !self.in_view(self.links[i].kind, self.links[i].model)
    }

    /// A specialization refines a base kind registered before it.
    pub open spec fn kinds_wf(self) -> bool {
        forall|k: int|
            0 <= k < self.kinds.len() ==> match (#[trigger] self.kinds[k]).base {
                None => true,
                Some(b) => b < k && self.kinds[b as int].base is None,
            }
    }

    /// Links name registered kinds and known models, and their view objects exist.
    pub open spec fn links_in_range(self) -> bool {
        forall|i: int|
            0 <= i < self.links.len() ==> {
                &&& (#[trigger] self.links[i]).kind < self.kinds.len()
                &&& self.links[i].model.index < self.objects.len()
                &&& self.alive(self.links[i].view)
            }
    }

    /// At most one view per model and kind, and one model per view and kind.
    pub open spec fn links_unique(self) -> bool {
        &&& forall|i: int, j: int|
            0 <= i < self.links.len() && 0 <= j < self.links.len() && i != j && (#[trigger] self.links[i]).kind
                == (#[trigger] self.links[j]).kind ==> self.links[i].model != self.links[j].model
                && self.links[i].view != self.links[j].view
    }

    /// A view object belongs to one model and one base kind; a specialization
    /// link shares the view object of its base link.
    pub open spec fn links_layered(self) -> bool {
        &&& forall|i: int, j: int|
            0 <= i < self.links.len() && 0 <= j < self.links.len() && (#[trigger] self.links[i]).view
                == (#[trigger] self.links[j]).view ==> self.links[i].model == self.links[j].model
                && self.root(self.links[i].kind) == self.root(self.links[j].kind)
        &&& forall|i: int|
            0 <= i < self.links.len() && !self.is_base((#[trigger] self.links[i]).kind) ==> self.links.contains(
                Link { kind: self.root(self.links[i].kind), model: self.links[i].model, view: self.links[i].view },
            )
    }

    /// `post` is `self` with object `v` destroyed and every link through view `v` gone.
    pub open spec fn view_destroyed(self, post: WorldState, v: Object) -> bool {
        &&& post.kinds == self.kinds
        &&& post.objects == self.objects.update(v.index as int, ObjectState { alive: false, tags: self.tags(v) })
        &&& forall|l: Link| #[trigger] post.links.contains(l) <==> self.links.contains(l) && l.view != v
    }

    /// The spawn stage of base kind `k`, over the objects below index `n`, turned
    /// `self` into `post` and created the links `r`: one fresh view object, link
    /// and registry pair for each eligible model that had no view of kind `k`.
    pub open spec fn spawned(self, post: WorldState, k: usize, n: int, r: Seq<Link>) -> bool {
        &&& post.kinds == self.kinds
        &&& post.objects.len() == self.objects.len() + r.len()
        &&& forall|o: int| 0 <= o < self.objects.len() ==> #[trigger] post.objects[o] == self.objects[o]
        &&& forall|i: int|
            0 <= i < r.len() ==> #[trigger] post.objects[self.objects.len() + i] == (ObjectState {
                alive: true,
                tags: self.kinds[k as int].def.spec_view_bundle(),
            })
        &&& post.links == self.links + r
        &&& post.registry == self.registry + r.map_values(|l: Link| (l.model, l.view))
        &&& forall|i: int|
            0 <= i < r.len() ==> {
                &&& (#[trigger] r[i]).kind == k
                &&& r[i].view.index == self.objects.len() + i
                &&& r[i].model.index < n
                &&& self.in_view(k, r[i].model)
                &&& !self.linked(k, r[i].model)
            }
        &&& forall|m: Object| m.index < n && self.in_view(k, m) ==> #[trigger] post.linked(k, m)
    }

    /// The build stage of specialization `k` turned `self` into `post` and
    /// created the links `r`: each eligible model whose base view exists and
    /// that had no link of kind `k` gets one, through the same view object.
    pub open spec fn built(self, post: WorldState, k: usize, r: Seq<Link>) -> bool {
        &&& post.kinds == self.kinds
        &&& post.objects == self.objects
        &&& post.registry == self.registry
        &&& post.links == self.links + r
        &&& forall|i: int|
            0 <= i < r.len() ==> {
                &&& (#[trigger] r[i]).kind == k
                &&& self.links.contains(Link { kind: self.root(k), model: r[i].model, view: r[i].view })
                &&& self.in_view(k, r[i].model)
                &&& !self.linked(k, r[i].model)
            }
        &&& forall|m: Object| self.linked(self.root(k), m) && self.in_view(k, m) ==> #[trigger] post.linked(k, m)
    }

    /// The despawn stage turned `self` into `post`: every link whose model is no
    /// longer eligible is gone, and with a base link its view object is destroyed.
    pub open spec fn despawned(self, post: WorldState) -> bool {
        &&& post.kinds == self.kinds
        &&& post.objects.len() == self.objects.len()
        &&& forall|o: int|
            0 <= o < self.objects.len() ==> (#[trigger] post.objects[o]).tags == self.objects[o].tags
                && post.objects[o].alive == (self.objects[o].alive && !self.doomed(o))
        &&& forall|i: int|
            0 <= i < self.links.len() ==> (post.links.contains(#[trigger] self.links[i]) <==> self.in_view(
                self.links[i].kind,
                self.links[i].model,
            ))
        &&& forall|l: Link| #[trigger] post.links.contains(l) ==> self.links.contains(l)
    }

    /// One tick turned `self` into `post` and made the links `r`, whose builders
    /// are to run: afterwards a model has a view of a kind exactly when it is
    /// eligible for it, views of models that are not are destroyed, fresh view
    /// objects exist, and every link that stays is the link it was.
    pub open spec fn updated(self, post: WorldState, r: Seq<Link>) -> bool {
        &&& post.kinds == self.kinds
        &&& post.objects.len() >= self.objects.len()
        &&& forall|o: int|
            0 <= o < self.objects.len() ==> (#[trigger] post.objects[o]).tags == self.objects[o].tags
                && post.objects[o].alive == (self.objects[o].alive && !self.doomed(o))
        &&& forall|o: int| self.objects.len() <= o < post.objects.len() ==> (#[trigger] post.objects[o]).alive
        &&& forall|k: usize, m: Object|
            k < self.kinds.len() ==> (#[trigger] post.linked(k, m) <==> m.index < self.objects.len() && self.in_view(
                k,
                m,
            ))
        &&& forall|l: Link| self.links.contains(l) && self.in_view(l.kind, l.model) ==> #[trigger] post.links.contains(l)
        &&& forall|l: Link| #[trigger] post.links.contains(l) ==> self.links.contains(l) || r.contains(l)
        &&& forall|i: int| 0 <= i < r.len() ==> post.links.contains(#[trigger] r[i]) && !self.linked(r[i].kind, r[i].model)
        &&& forall|i: int, j: int|
            0 <= i < r.len() && 0 <= j < r.len() && i != j ==> !((#[trigger] r[i]).kind == (#[trigger] r[j]).kind
                && r[i].model == r[j].model)
    }

    /// The invariant of a world; the registry lists exactly the model/view
    /// pairs of the base-kind links.
    pub open spec fn wf(self) -> bool {
        &&& self.kinds_wf()
        &&& self.links_in_range()
        &&& self.links_unique()
        &&& self.links_layered()
        &&& self.registry == base_pairs(self.links, self.kinds)
    }
}

/// Why a specialization could not be registered.
#[derive(Clone, Copy, Debug, PartialEq, Eq, Structural)]
pub enum RegisterError {
    /// The base kind id names no registered kind.
    UnknownBase,
    /// The base kind is itself a specialization.
    NotBase,
}

/// The object store together with the view engine's state: registered kinds,
/// links and the registry.
pub struct World {
    objects: Vec<ObjectState>,
    kinds: Vec<Kind>,
    links: Vec<Link>,
    registry: Viewables,
}

impl World {
    /// The abstract state of this world.
    pub closed spec fn state(&self) -> WorldState {
        WorldState { objects: self.objects@, kinds: self.kinds@, links: self.links@, registry: self.registry@ }
    }

    /// An empty world: no objects, no kinds.
    pub fn new() -> (r: World)
        ensures
            r.state().wf(),
            r.state().objects.len() == 0,
            r.state().kinds.len() == 0,
            r.state().links.len() == 0,
            r.state().registry.len() == 0,
    {
        World { objects: Vec::new(), kinds: Vec::new(), links: Vec::new(), registry: Viewables::new() }
    }

    /// Creates an object carrying `tags`.
    pub fn spawn(&mut self, tags: u64) -> (r: Object)
        requires
            old(self).state().wf(),
        ensures
            final(self).state().wf(),
            r.index == old(self).state().objects.len(),
            final(self).state() == (WorldState {
                objects: old(self).state().objects.push(ObjectState { alive: true, tags }),
                ..old(self).state()
            }),
    {
        let r = Object { index: self.objects.len() };
        self.objects.push(ObjectState { alive: true, tags });
        r
    }

    /// Adds the bits of `tags` to a live object; does nothing to a missing one.
    pub fn insert(&mut self, o: Object, tags: u64)
        requires
            old(self).state().wf(),
        ensures
            final(self).state().wf(),
            old(self).state().alive(o) ==> final(self).state() == (WorldState {
                objects: old(self).state().objects.update(
                    o.index as int,
                    ObjectState { alive: true, tags: old(self).state().tags(o) | tags },
                ),
                ..old(self).state()
            }),
            !old(self).state().alive(o) ==> final(self).state() == old(self).state(),
    {
        if o.index < self.objects.len() && self.objects[o.index].alive {
            let t = self.objects[o.index].tags | tags;
            self.objects.set(o.index, ObjectState { alive: true, tags: t });
        }
    }

    /// Clears the bits of `tags` on a live object; does nothing to a missing one.
    pub fn remove(&mut self, o: Object, tags: u64)
        requires
            old(self).state().wf(),
        ensures
            final(self).state().wf(),
            old(self).state().alive(o) ==> final(self).state() == (WorldState {
                objects: old(self).state().objects.update(
                    o.index as int,
                    ObjectState { alive: true, tags: old(self).state().tags(o) & !tags },
                ),
                ..old(self).state()
            }),
            !old(self).state().alive(o) ==> final(self).state() == old(self).state(),
    {
        if o.index < self.objects.len() && self.objects[o.index].alive {
            let t = self.objects[o.index].tags & !tags;
            self.objects.set(o.index, ObjectState { alive: true, tags: t });
        }
    }

    /// Whether `o` exists.
    pub fn is_alive(&self, o: Object) -> (r: bool)
        ensures
            r == self.state().alive(o),
    {
        o.index < self.objects.len() && self.objects[o.index].alive
    }

    /// The tags of `o`, if it exists.
    pub fn tags(&self, o: Object) -> (r: Option<u64>)
        ensures
            r == (if self.state().alive(o) {
                Some(self.state().tags(o))
            } else {
                None
            }),
    {
        if o.index < self.objects.len() && self.objects[o.index].alive {
            Some(self.objects[o.index].tags)
        } else {
            None
        }
    }

    /// The registry of model/view pairs.
    pub fn registry(&self) -> (r: &Viewables)
        ensures
            r@ == self.state().registry,
    {
        &self.registry
    }

    /// Registers `kind` as viewable under its own builder and returns its id.
    pub fn register_viewable(&mut self, kind: ViewableKind) -> (r: usize)
        requires
            old(self).state().wf(),
        ensures
            final(self).state().wf(),
            r == old(self).state().kinds.len(),
            final(self).state() == (WorldState {
                kinds: old(self).state().kinds.push(Kind { def: kind, base: None }),
                ..old(self).state()
            }),
    {
        let r = self.kinds.len();
        self.kinds.push(Kind { def: kind, base: None });
        proof {
            let s = self.state();
            assert forall|i: int| 0 <= i < s.links.len() implies #[trigger] s.links[i] == old(self).state().links[i]
                && s.root(s.links[i].kind) == old(self).state().root(s.links[i].kind) by {}
            lemma_base_pairs_kinds_push(s.links, old(self).state().kinds, Kind { def: kind, base: None });
        }
        r
    }

    /// Registers `kind` as a specialization of the base kind `base`: its views
    /// are the base kind's view objects, refined in place.
    pub fn register_view(&mut self, base: usize, kind: ViewableKind) -> (r: Result<usize, RegisterError>)
        requires
            old(self).state().wf(),
        ensures
            final(self).state().wf(),
            base >= old(self).state().kinds.len() ==> r == Err::<usize, RegisterError>(RegisterError::UnknownBase)
                && final(self).state() == old(self).state(),
            base < old(self).state().kinds.len() && !old(self).state().is_base(base) ==> r == Err::<
                usize,
                RegisterError,
            >(RegisterError::NotBase) && final(self).state() == old(self).state(),
            base < old(self).state().kinds.len() && old(self).state().is_base(base) ==> r == Ok::<usize, RegisterError>(
                old(self).state().kinds.len() as usize,
            ) && final(self).state() == (WorldState {
                kinds: old(self).state().kinds.push(Kind { def: kind, base: Some(base) }),
                ..old(self).state()
            }),
    {
        if base >= self.kinds.len() {
            return Err(RegisterError::UnknownBase);
        }
        if self.kinds[base].base.is_some() {
            return Err(RegisterError::NotBase);
        }
        let r = self.kinds.len();
        self.kinds.push(Kind { def: kind, base: Some(base) });
        proof {
            let s = self.state();
            assert forall|i: int| 0 <= i < s.links.len() implies #[trigger] s.links[i] == old(self).state().links[i]
                && s.root(s.links[i].kind) == old(self).state().root(s.links[i].kind) by {}
            lemma_base_pairs_kinds_push(s.links, old(self).state().kinds, Kind { def: kind, base: Some(base) });
        }
        Ok(r)
    }

    /// Every model that carries `Viewable` of kind `k`.
    pub fn models(&self, k: usize) -> (r: Vec<Object>)
        ensures
            r@ == models_of_kind(self.state().links, k),
    {
        let mut r: Vec<Object> = Vec::new();
        let mut i: usize = 0;
        while i < self.links.len()
            invariant
                0 <= i <= self.links@.len(),
                r@ == models_of_kind(self.links@.subrange(0, i as int), k),
            decreases self.links@.len() - i,
        {
            assert(self.links@.subrange(0, i + 1).drop_last() =~= self.links@.subrange(0, i as int));
            if self.links[i].kind == k {
                r.push(self.links[i].model);
            }
            i = i + 1;
        }
        assert(self.links@.subrange(0, i as int) =~= self.links@);
        r
    }

    /// Every object that carries `View` of kind `k`.
    pub fn views(&self, k: usize) -> (r: Vec<Object>)
        ensures
            r@ == views_of_kind(self.state().links, k),
    {
        let mut r: Vec<Object> = Vec::new();
        let mut i: usize = 0;
        while i < self.links.len()
            invariant
                0 <= i <= self.links@.len(),
                r@ == views_of_kind(self.links@.subrange(0, i as int), k),
            decreases self.links@.len() - i,
        {
            assert(self.links@.subrange(0, i + 1).drop_last() =~= self.links@.subrange(0, i as int));
            if self.links[i].kind == k {
                r.push(self.links[i].view);
            }
            i = i + 1;
        }
        assert(self.links@.subrange(0, i as int) =~= self.links@);
        r
    }

    /// Index of the link of kind `k` whose model is `m`.
    fn find_by_model(&self, k: usize, m: Object) -> (r: Option<usize>)
        ensures
            match r {
                Some(i) => i < self.state().links.len() && self.state().links[i as int].kind == k
                    && self.state().links[i as int].model == m,
                None => !self.state().linked(k, m),
            },
    {
        let mut i: usize = 0;
        while i < self.links.len()
            invariant
                0 <= i <= self.links@.len(),
                forall|j: int| 0 <= j < i ==> !((#[trigger] self.links@[j]).kind == k && self.links@[j].model == m),
            decreases self.links@.len() - i,
        {
            if self.links[i].kind == k && self.links[i].model == m {
                return Some(i);
            }
            i = i + 1;
        }
        None
    }

    /// Index of the link of kind `k` whose view is `v`.
    fn find_by_view(&self, k: usize, v: Object) -> (r: Option<usize>)
        ensures
            match r {
                Some(i) => i < self.state().links.len() && self.state().links[i as int].kind == k
                    && self.state().links[i as int].view == v,
                None => !self.state().viewed(k, v),
            },
    {
        let mut i: usize = 0;
        while i < self.links.len()
            invariant
                0 <= i <= self.links@.len(),
                forall|j: int| 0 <= j < i ==> !((#[trigger] self.links@[j]).kind == k && self.links@[j].view == v),
            decreases self.links@.len() - i,
        {
            if self.links[i].kind == k && self.links[i].view == v {
                return Some(i);
            }
            i = i + 1;
        }
        None
    }

    /// The `Viewable` of kind `k` carried by model `m`, if any.
    pub fn viewable_of(&self, m: Object, k: usize) -> (r: Option<Viewable>)
        requires
            self.state().wf(),
        ensures
            r is Some <==> self.state().linked(k, m),
            match r {
                Some(x) => self.state().links.contains(Link { kind: k, model: m, view: x.view }),
                None => !self.state().linked(k, m),
            },
    {
        match self.find_by_model(k, m) {
            Some(i) => {
                proof {
                    assert(self.state().links[i as int] == Link { kind: k, model: m, view: self.links@[i as int].view });
                }
                Some(Viewable { view: self.links[i].view })
            },
            None => None,
        }
    }

    /// The `View` of kind `k` carried by object `v`, if any.
    pub fn view_of(&self, v: Object, k: usize) -> (r: Option<View>)
        requires
            self.state().wf(),
        ensures
            r is Some <==> self.state().viewed(k, v),
            match r {
                Some(x) => self.state().links.contains(Link { kind: k, model: x.viewable, view: v }),
                None => !self.state().viewed(k, v),
            },
    {
        match self.find_by_view(k, v) {
            Some(i) => {
                proof {
                    assert(self.state().links[i as int] == Link { kind: k, model: self.links@[i as int].model, view: v });
                }
                Some(View { viewable: self.links[i].model })
            },
            None => None,
        }
    }

    /// Keeps the links whose flag in `keep` is set, in order; the registry
    /// loses the pair of every dropped base link in the same pass.
    fn retain_links(&mut self, keep: Vec<bool>)
        requires
            old(self).state().wf(),
            keep@.len() == old(self).state().links.len(),
            forall|i: int, j: int|
                0 <= i < keep@.len() && 0 <= j < keep@.len() && #[trigger] keep@[i] && !old(self).state().is_base(
                    old(self).state().links[i].kind,
                ) && #[trigger] old(self).state().links[j] == (Link {
                    kind: old(self).state().root(old(self).state().links[i].kind),
                    model: old(self).state().links[i].model,
                    view: old(self).state().links[i].view,
                }) ==> keep@[j],
        ensures
            final(self).state().wf(),
            final(self).state().objects == old(self).state().objects,
            final(self).state().kinds == old(self).state().kinds,
            forall|i: int|
                0 <= i < keep@.len() ==> (final(self).state().links.contains(#[trigger] old(self).state().links[i])
                    <==> keep@[i]),
            forall|l: Link| #[trigger] final(self).state().links.contains(l) ==> old(self).state().links.contains(l),
    {
        let ghost pre = self.state();
        let mut kept: Vec<Link> = Vec::new();
        let mut reg = Viewables::new();
        let ghost mut src: Seq<int> = Seq::empty();
        let mut i: usize = 0;
        while i < self.links.len()
            invariant
                pre == self.state(),
                pre.wf(),
                keep@.len() == pre.links.len(),
                0 <= i <= pre.links.len(),
                kept@.len() == src.len(),
                forall|a: int|
                    0 <= a < src.len() ==> 0 <= #[trigger] src[a] < i && keep@[src[a]] && kept@[a] == pre.links[src[a]],
                forall|a: int, b: int| 0 <= a < b < src.len() ==> #[trigger] src[a] < #[trigger] src[b],
                forall|j: int| 0 <= j < i && #[trigger] keep@[j] ==> kept@.contains(pre.links[j]),
                reg@ == base_pairs(kept@, pre.kinds),
            decreases pre.links.len() - i,
        {
            if keep[i] {
                let l = self.links[i];
                let ghost before = kept@;
                kept.push(l);
                if self.kinds[l.kind].base.is_none() {
                    reg.push(l.model, l.view);
                }
                proof {
                    src = src.push(i as int);
                    assert(kept@.drop_last() =~= before);
                    assert forall|j: int| 0 <= j < i + 1 && #[trigger] keep@[j] implies kept@.contains(pre.links[j]) by {
                        if j < i {
                            let a = choose|a: int| 0 <= a < before.len() && before[a] == pre.links[j];
                            assert(kept@[a] == pre.links[j]);
                        } else {
                            assert(kept@[kept@.len() - 1] == pre.links[j]);
                        }
                    }
                }
            }
            i = i + 1;
        }
        proof {
            let k = kept@;
            assert forall|a: int, b: int| 0 <= a < k.len() && 0 <= b < k.len() && a != b implies src[a] != src[b] by {
                if a < b {
                    assert(src[a] < src[b]);
                } else {
                    assert(src[b] < src[a]);
                }
            }
            assert forall|x: int|
                0 <= x < k.len() && !pre.is_base((#[trigger] k[x]).kind) implies k.contains(
                Link { kind: pre.root(k[x].kind), model: k[x].model, view: k[x].view },
            ) by {
                let bl = Link { kind: pre.root(k[x].kind), model: k[x].model, view: k[x].view };
                assert(pre.links[src[x]] == k[x]);
                assert(pre.links.contains(bl));
                let j = choose|j: int| 0 <= j < pre.links.len() && pre.links[j] == bl;
                assert(keep@[j]);
            }
            assert forall|l: Link| #[trigger] k.contains(l) implies pre.links.contains(l) by {
                let a = choose|a: int| 0 <= a < k.len() && k[a] == l;
                assert(pre.links[src[a]] == l);
            }
            assert forall|j: int| 0 <= j < keep@.len() && k.contains(#[trigger] pre.links[j]) implies keep@[j] by {
                let a = choose|a: int| 0 <= a < k.len() && k[a] == pre.links[j];
                assert(pre.links[src[a]] == pre.links[j]);
            }
            let post = WorldState { links: k, registry: reg@, ..pre };
            assert(post.kinds_wf());
            assert(post.links_in_range()) by {
                assert forall|a: int| 0 <= a < k.len() implies #[trigger] k[a] == pre.links[src[a]] by {}
            }
            assert(post.links_unique()) by {
                assert forall|a: int, b: int| 0 <= a < k.len() && 0 <= b < k.len() && a != b implies
                    #[trigger] k[a] == pre.links[src[a]] && #[trigger] k[b] == pre.links[src[b]] by {}
            }
            assert(post.links_layered()) by {
                assert forall|a: int, b: int| 0 <= a < k.len() && 0 <= b < k.len() implies
                    #[trigger] k[a] == pre.links[src[a]] && #[trigger] k[b] == pre.links[src[b]] by {}
            }
        }
        self.links = kept;
        self.registry = reg;
    }

    /// Destroys object `v` together with every link that has it as view.
    fn destroy(&mut self, v: Object)
        requires
            old(self).state().wf(),
            v.index < old(self).state().objects.len(),
        ensures
            final(self).state().wf(),
            old(self).state().view_destroyed(final(self).state(), v),
    {
        let ghost pre = self.state();
        let mut keep: Vec<bool> = Vec::new();
        let mut i: usize = 0;
        while i < self.links.len()
            invariant
                pre == self.state(),
                0 <= i <= pre.links.len(),
                keep@.len() == i,
                forall|j: int| 0 <= j < i ==> #[trigger] keep@[j] == (pre.links[j].view != v),
            decreases pre.links.len() - i,
        {
            keep.push(self.links[i].view != v);
            i = i + 1;
        }
        self.retain_links(keep);
        let ghost mid = self.state();
        let t = self.objects[v.index].tags;
        self.objects.set(v.index, ObjectState { alive: false, tags: t });
        proof {
            let post = self.state();
            assert forall|l: Link| #[trigger] post.links.contains(l) <==> pre.links.contains(l) && l.view != v by {
                if pre.links.contains(l) {
                    let j = choose|j: int| 0 <= j < pre.links.len() && pre.links[j] == l;
                    assert(mid.links.contains(pre.links[j]) <==> keep@[j]);
                }
                if post.links.contains(l) {
                    let a = choose|a: int| 0 <= a < post.links.len() && post.links[a] == l;
                    let j = choose|j: int| 0 <= j < pre.links.len() && pre.links[j] == l;
                    assert(mid.links.contains(pre.links[j]) <==> keep@[j]);
                }
            }
            assert forall|a: int| 0 <= a < post.links.len() implies post.alive((#[trigger] post.links[a]).view) by {
                assert(post.links.contains(post.links[a]));
                assert(mid.alive(mid.links[a].view));
            }
        }
    }

    /// Destroys `o` if it exists. Links through `o` as view go with it; links
    /// with `o` as model stay until the despawn stage of the next tick.
    pub fn despawn(&mut self, o: Object)
        requires
            old(self).state().wf(),
        ensures
            final(self).state().wf(),
            old(self).state().alive(o) ==> old(self).state().view_destroyed(final(self).state(), o),
            !old(self).state().alive(o) ==> final(self).state() == old(self).state(),
    {
        if o.index < self.objects.len() && self.objects[o.index].alive {
            self.destroy(o);
        }
    }

    /// Tears down the view of kind `k` of model `m`, if there is one: the view
    /// object, every link through it and its registry pair. The model then looks
    /// unviewed, and the next tick spawns and builds a fresh view for it.
    pub fn rebuild(&mut self, m: Object, k: usize) -> (r: bool)
        requires
            old(self).state().wf(),
        ensures
            final(self).state().wf(),
            r == old(self).state().linked(k, m),
            r ==> forall|v: Object|
                old(self).state().links.contains(Link { kind: k, model: m, view: v })
                    ==> #[trigger] old(self).state().view_destroyed(final(self).state(), v),
            !r ==> final(self).state() == old(self).state(),
    {
        match self.find_by_model(k, m) {
            Some(i) => {
                let v = self.links[i].view;
                let ghost pre = self.state();
                proof {
                    assert forall|w: Object| pre.links.contains(Link { kind: k, model: m, view: w }) implies w == v by {
                        let j = choose|j: int| 0 <= j < pre.links.len() && pre.links[j] == Link { kind: k, model: m, view: w };
                        if j != i {
                            assert(pre.links[j].model != pre.links[i as int].model);
                        }
                    }
                }
                self.destroy(v);
                true
            },
            None => false,
        }
    }

    /// Whether model `m` is eligible for a view of kind `k`.
    fn in_view(&self, k: usize, m: Object) -> (r: bool)
        requires
            self.state().wf(),
            k < self.state().kinds.len(),
        ensures
            r == self.state().in_view(k, m),
    {
        if m.index >= self.objects.len() || !self.objects[m.index].alive {
            return false;
        }
        let tags = self.objects[m.index].tags;
        let root = match self.kinds[k].base {
            Some(b) => b,
            None => k,
        };
        self.kinds[root].def.filter.matches(tags) && self.kinds[k].def.filter.matches(tags)
    }

    /// Spawn stage of base kind `k`: every live object below index `n` that
    /// matches the kind and has no view of it gets a fresh view object, tagged
    /// with the kind's view bundle, linked both ways and registered. Returns the
    /// new links, in the order they were made.
    pub fn spawn_stage(&mut self, k: usize, n: usize) -> (r: Vec<Link>)
        requires
            old(self).state().wf(),
            k < old(self).state().kinds.len(),
            old(self).state().is_base(k),
            n <= old(self).state().objects.len(),
        ensures
            final(self).state().wf(),
            old(self).state().spawned(final(self).state(), k, n as int, r@),
    {
        let ghost pre = self.state();
        let bundle = self.kinds[k].def.view_bundle();
        let mut r: Vec<Link> = Vec::new();
        let mut i: usize = 0;
        proof {
            assert(pre.links + r@ =~= pre.links);
            assert(pre.registry + r@.map_values(|l: Link| (l.model, l.view)) =~= pre.registry);
        }
        while i < n
            invariant
                pre.wf(),
                self.state().wf(),
                k < pre.kinds.len(),
                pre.is_base(k),
                n <= pre.objects.len(),
                0 <= i <= n,
                bundle == pre.kinds[k as int].def.spec_view_bundle(),
                pre.spawned(self.state(), k, i as int, r@),
            decreases n - i,
        {
            let m = Object { index: i };
            let ghost cur = self.state();
            let eligible = self.in_view(k, m);
            if eligible && self.find_by_model(k, m).is_none() {
                let v = Object { index: self.objects.len() };
                let l = Link { kind: k, model: m, view: v };
                self.objects.push(ObjectState { alive: true, tags: bundle });
                self.links.push(l);
                self.registry.push(m, v);
                let ghost r0 = r@;
                r.push(l);
                proof {
                    let post = self.state();
                    assert(post.links.drop_last() =~= cur.links);
                    assert(pre.links + r@ =~= post.links);
                    assert(pre.registry + r@.map_values(|l: Link| (l.model, l.view)) =~= post.registry);
                    assert forall|a: int| 0 <= a < cur.links.len() implies (#[trigger] cur.links[a]).view != v by {
                        assert(cur.alive(cur.links[a].view));
                    }
                    assert(!pre.linked(k, m)) by {
                        if pre.linked(k, m) {
                            let a = choose|a: int| 0 <= a < pre.links.len() && (#[trigger] pre.links[a]).kind == k && pre.links[a].model == m;
                            assert(cur.links[a] == pre.links[a]);
                        }
                    }
                    assert(post.links[post.links.len() - 1] == l);
                    assert forall|o: Object| o.index < i + 1 && pre.in_view(k, o) implies #[trigger] post.linked(k, o) by {
                        if o.index < i {
                            assert(cur.linked(k, o));
                            let a = choose|a: int| 0 <= a < cur.links.len() && (#[trigger] cur.links[a]).kind == k && cur.links[a].model == o;
                            assert(post.links[a] == cur.links[a]);
                        } else {
                            assert(o == m);
                        }
                    }
                    assert(post.objects[(pre.objects.len() + r0.len()) as int] == ObjectState { alive: true, tags: bundle });
                    assert(post.links_in_range());
                    assert(post.links_unique());
                    assert(post.links_layered());
                }
            } else {
                proof {
                    assert forall|o: Object| o.index < i + 1 && pre.in_view(k, o) implies #[trigger] cur.linked(k, o) by {
                        if o.index == i {
                            assert(o == m);
                        }
                    }
                }
            }
            i = i + 1;
        }
        r
    }

    /// Build stage of specialization `k`: every model that already has a view of
    /// the base kind and is eligible for `k`, but has no link of kind `k` yet, gets
    /// one through the same view object. Returns the new links.
    pub fn build_stage(&mut self, k: usize) -> (r: Vec<Link>)
        requires
            old(self).state().wf(),
            k < old(self).state().kinds.len(),
            !old(self).state().is_base(k),
        ensures
            final(self).state().wf(),
            old(self).state().built(final(self).state(), k, r@),
    {
        let ghost pre = self.state();
        let base = match self.kinds[k].base {
            Some(b) => b,
            None => k,
        };
        let count = self.links.len();
        let mut r: Vec<Link> = Vec::new();
        let mut i: usize = 0;
        proof {
            assert(pre.links + r@ =~= pre.links);
        }
        while i < count
            invariant
                pre.wf(),
                self.state().wf(),
                k < pre.kinds.len(),
                !pre.is_base(k),
                base == pre.root(k),
                count == pre.links.len(),
                0 <= i <= count,
                self.state().kinds == pre.kinds,
                self.state().objects == pre.objects,
                self.state().registry == pre.registry,
                self.state().links == pre.links + r@,
                forall|a: int|
                    0 <= a < r@.len() ==> {
                        &&& (#[trigger] r@[a]).kind == k
                        &&& pre.links.contains(Link { kind: base, model: r@[a].model, view: r@[a].view })
                        &&& pre.in_view(k, r@[a].model)
                        &&& !pre.linked(k, r@[a].model)
                    },
                forall|j: int|
                    0 <= j < i && (#[trigger] pre.links[j]).kind == base && pre.in_view(k, pre.links[j].model)
                        ==> self.state().linked(k, pre.links[j].model),
            decreases count - i,
        {
            let l = self.links[i];
            let ghost cur = self.state();
            proof {
                assert(l == pre.links[i as int]);
            }
            if l.kind == base && self.in_view(k, l.model) && self.find_by_model(k, l.model).is_none() {
                let nl = Link { kind: k, model: l.model, view: l.view };
                self.links.push(nl);
                let ghost r0 = r@;
                r.push(nl);
                proof {
                    let post = self.state();
                    assert(post.links.drop_last() =~= cur.links);
                    assert(pre.links + r@ =~= post.links);
                    assert(pre.links.contains(l));
                    assert(!pre.linked(k, l.model)) by {
                        if pre.linked(k, l.model) {
                            let a = choose|a: int| 0 <= a < pre.links.len() && (#[trigger] pre.links[a]).kind == k && pre.links[a].model == l.model;
                            assert(cur.links[a] == pre.links[a]);
                        }
                    }
                    assert(post.links[post.links.len() - 1] == nl);
                    assert forall|j: int|
                        0 <= j < i + 1 && (#[trigger] pre.links[j]).kind == base && pre.in_view(k, pre.links[j].model)
                            implies post.linked(k, pre.links[j].model) by {
                        if j < i {
                            let a = choose|a: int| 0 <= a < cur.links.len() && (#[trigger] cur.links[a]).kind == k && cur.links[a].model == pre.links[j].model;
                            assert(post.links[a] == cur.links[a]);
                        }
                    }
                    assert(cur.links[i as int] == l);
                    assert forall|a: int| 0 <= a < cur.links.len() && (#[trigger] cur.links[a]).view == l.view implies
                        cur.links[a].model == l.model && cur.root(cur.links[a].kind) == base by {
                        assert(cur.root(cur.links[i as int].kind) == base);
                    }
                    assert(post.links_in_range());
                    assert(post.links_unique());
                    assert(post.links_layered()) by {
                        assert(post.links.contains(Link { kind: base, model: l.model, view: l.view })) by {
                            assert(post.links[i as int] == l);
                        }
                        assert forall|a: int| 0 <= a < cur.links.len() && !post.is_base((#[trigger] post.links[a]).kind) implies post.links.contains(
                            Link { kind: post.root(post.links[a].kind), model: post.links[a].model, view: post.links[a].view },
                        ) by {
                            assert(post.links[a] == cur.links[a]);
                            let bl = Link { kind: cur.root(cur.links[a].kind), model: cur.links[a].model, view: cur.links[a].view };
                            let b = choose|b: int| 0 <= b < cur.links.len() && cur.links[b] == bl;
                            assert(post.links[b] == bl);
                        }
                    }
                    assert(base_pairs(post.links, post.kinds) == base_pairs(cur.links, cur.kinds));
                }
            } else {
                proof {
                    assert forall|j: int|
                        0 <= j < i + 1 && (#[trigger] pre.links[j]).kind == base && pre.in_view(k, pre.links[j].model)
                            implies cur.linked(k, pre.links[j].model) by {
                        if j == i {
                            assert(cur.links[i as int] == l);
                        }
                    }
                }
            }
            i = i + 1;
        }
        proof {
            let post = self.state();
            assert forall|m: Object| pre.linked(pre.root(k), m) && pre.in_view(k, m) implies #[trigger] post.linked(k, m) by {
                let j = choose|j: int| 0 <= j < pre.links.len() && (#[trigger] pre.links[j]).kind == pre.root(k) && pre.links[j].model == m;
            }
        }
        r
    }

    /// Despawn stage, the last of a tick: every link whose model no longer
    /// exists or no longer satisfies its kind is dropped together with its
    /// registry pair, and the view object of each dropped base link is destroyed.
    pub fn despawn_stage(&mut self)
        requires
            old(self).state().wf(),
        ensures
            final(self).state().wf(),
            old(self).state().despawned(final(self).state()),
    {
        let ghost pre = self.state();
        let mut keep: Vec<bool> = Vec::new();
        let mut dead: Vec<Object> = Vec::new();
        let ghost mut dsrc: Seq<int> = Seq::empty();
        let mut i: usize = 0;
        while i < self.links.len()
            invariant
                pre == self.state(),
                pre.wf(),
                0 <= i <= pre.links.len(),
                keep@.len() == i,
                forall|j: int| 0 <= j < i ==> #[trigger] keep@[j] == pre.in_view(pre.links[j].kind, pre.links[j].model),
                dsrc.len() == dead@.len(),
                forall|a: int|
                    0 <= a < dsrc.len() ==> 0 <= #[trigger] dsrc[a] < i && dead@[a] == pre.links[dsrc[a]].view
                        && pre.is_base(pre.links[dsrc[a]].kind) && !keep@[dsrc[a]],
                forall|j: int|
                    0 <= j < i && pre.is_base((#[trigger] pre.links[j]).kind) && !keep@[j] ==> dead@.contains(
                        pre.links[j].view,
                    ),
            decreases pre.links.len() - i,
        {
            let l = self.links[i];
            let eligible = self.in_view(l.kind, l.model);
            keep.push(eligible);
            let ghost d0 = dead@;
            if !eligible && self.kinds[l.kind].base.is_none() {
                dead.push(l.view);
                proof {
                    dsrc = dsrc.push(i as int);
                }
            }
            proof {
                assert forall|j: int|
                    0 <= j < i + 1 && pre.is_base((#[trigger] pre.links[j]).kind) && !keep@[j] implies dead@.contains(
                        pre.links[j].view,
                    ) by {
                    if j < i {
                        let a = choose|a: int| 0 <= a < d0.len() && d0[a] == pre.links[j].view;
                        assert(dead@[a] == d0[a]);
                    } else {
                        assert(dead@[dead@.len() - 1] == pre.links[j].view);
                    }
                }
            }
            i = i + 1;
        }
        proof {
            assert forall|a: int, b: int|
                0 <= a < keep@.len() && 0 <= b < keep@.len() && #[trigger] keep@[a] && !pre.is_base(pre.links[a].kind)
                    && #[trigger] pre.links[b] == (Link {
                    kind: pre.root(pre.links[a].kind),
                    model: pre.links[a].model,
                    view: pre.links[a].view,
                }) implies keep@[b] by {
                assert(pre.root(pre.root(pre.links[a].kind)) == pre.root(pre.links[a].kind));
            }
        }
        self.retain_links(keep);
        let ghost mid = self.state();
        let mut a: usize = 0;
        while a < dead.len()
            invariant
                pre.wf(),
                0 <= a <= dead@.len(),
                dsrc.len() == dead@.len(),
                forall|x: int|
                    0 <= x < dsrc.len() ==> 0 <= #[trigger] dsrc[x] < pre.links.len() && dead@[x]
                        == pre.links[dsrc[x]].view,
                self.state().links == mid.links,
                self.state().kinds == mid.kinds,
                self.state().registry == mid.registry,
                self.state().objects.len() == mid.objects.len(),
                mid.objects == pre.objects,
                forall|o: int|
                    0 <= o < mid.objects.len() ==> (#[trigger] self.state().objects[o]).tags == mid.objects[o].tags
                        && self.state().objects[o].alive == (mid.objects[o].alive && !(exists|b: int|
                        0 <= b < a && (#[trigger] dead@[b]).index == o)),
            decreases dead@.len() - a,
        {
            let v = dead[a];
            proof {
                assert(pre.alive(pre.links[dsrc[a as int]].view));
            }
            let t = self.objects[v.index].tags;
            self.objects.set(v.index, ObjectState { alive: false, tags: t });
            proof {
                let cur = self.state();
                assert forall|o: int| 0 <= o < mid.objects.len() implies (#[trigger] cur.objects[o]).tags
                    == mid.objects[o].tags && cur.objects[o].alive == (mid.objects[o].alive && !(exists|b: int|
                    0 <= b < a + 1 && (#[trigger] dead@[b]).index == o)) by {
                    if o == v.index {
                        assert(dead@[a as int].index == o);
                    }
                }
            }
            a = a + 1;
        }
        proof {
            let post = self.state();
            assert forall|o: int| 0 <= o < pre.objects.len() implies (exists|b: int|
                0 <= b < dead@.len() && (#[trigger] dead@[b]).index == o) == pre.doomed(o) by {
                if exists|b: int| 0 <= b < dead@.len() && (#[trigger] dead@[b]).index == o {
                    let b = choose|b: int| 0 <= b < dead@.len() && (#[trigger] dead@[b]).index == o;
                    let j = dsrc[b];
                    assert(pre.links[j].view.index == o);
                }
                if pre.doomed(o) {
                    let j = choose|j: int|
                        0 <= j < pre.links.len() && (#[trigger] pre.links[j]).view.index == o && pre.is_base(pre.links[j].kind)
                            && !pre.in_view(pre.links[j].kind, pre.links[j].model);
                    assert(dead@.contains(pre.links[j].view));
                    let b = choose|b: int| 0 <= b < dead@.len() && dead@[b] == pre.links[j].view;
                    assert(dead@[b].index == o);
                }
            }
            assert forall|x: int| 0 <= x < post.links.len() implies post.alive((#[trigger] post.links[x]).view) by {
                let l = post.links[x];
                assert(post.links.contains(l));
                let j = choose|j: int| 0 <= j < pre.links.len() && pre.links[j] == l;
                assert(pre.in_view(l.kind, l.model));
                if pre.doomed(l.view.index as int) {
                    let d = choose|d: int|
                        0 <= d < pre.links.len() && (#[trigger] pre.links[d]).view.index == l.view.index && pre.is_base(pre.links[d].kind)
                            && !pre.in_view(pre.links[d].kind, pre.links[d].model);
                    assert(pre.links[d].view == l.view);
                    assert(pre.links[d].model == l.model);
                    assert(pre.root(pre.links[d].kind) == pre.root(l.kind));
                    assert(false);
                }
                assert(mid.alive(l.view));
            }
        }
    }

    /// One tick: the spawn stage of each base kind and the build stage of each
    /// specialization, in order of registration (a base kind always comes before
    /// its specializations), then the despawn stage. Objects created during the
    /// tick are first considered on the next one. Returns the links made this
    /// tick: for each, the kind's builder is to run once on the view object.
    pub fn update(&mut self) -> (r: Vec<Link>)
        requires
            old(self).state().wf(),
        ensures
            final(self).state().wf(),
            old(self).state().updated(final(self).state(), r@),
    {
        let ghost pre = self.state();
        let n = self.objects.len();
        let mut r: Vec<Link> = Vec::new();
        let mut k: usize = 0;
        proof {
            assert(pre.links + r@ =~= pre.links);
        }
        while k < self.kinds.len()
            invariant
                pre.wf(),
                self.state().wf(),
                n == pre.objects.len(),
                0 <= k <= pre.kinds.len(),
                self.state().kinds == pre.kinds,
                self.state().objects.len() >= n,
                forall|o: int| 0 <= o < n ==> #[trigger] self.state().objects[o] == pre.objects[o],
                forall|o: int| n <= o < self.state().objects.len() ==> (#[trigger] self.state().objects[o]).alive,
                self.state().links == pre.links + r@,
                forall|a: int|
                    0 <= a < r@.len() ==> {
                        &&& (#[trigger] r@[a]).kind < k
                        &&& r@[a].model.index < n
                        &&& pre.in_view(r@[a].kind, r@[a].model)
                        &&& !pre.linked(r@[a].kind, r@[a].model)
                    },
                forall|kk: usize, m: Object|
                    kk < k ==> (#[trigger] self.state().linked(kk, m) <==> pre.linked(kk, m) || (m.index < n
                        && pre.in_view(kk, m))),
                forall|kk: usize, m: Object|
                    k <= kk < pre.kinds.len() ==> (#[trigger] self.state().linked(kk, m) <==> pre.linked(kk, m)),
            decreases pre.kinds.len() - k,
        {
            let ghost cur = self.state();
            let ghost r0 = r@;
            let mut made = if self.kinds[k].base.is_none() {
                self.spawn_stage(k, n)
            } else {
                self.build_stage(k)
            };
            let ghost s = made@;
            r.append(&mut made);
            proof {
                let post = self.state();
                assert(post.links == cur.links + s);
                assert(pre.links + r@ =~= post.links);
                assert forall|o: int| 0 <= o < n implies #[trigger] post.objects[o] == pre.objects[o] by {
                    assert(cur.objects[o] == pre.objects[o]);
                }
                assert forall|o: int| n <= o < post.objects.len() implies (#[trigger] post.objects[o]).alive by {
                    if o < cur.objects.len() {
                        assert(post.objects[o] == cur.objects[o]);
                    } else {
                        let x = o - cur.objects.len();
                        assert(post.objects[cur.objects.len() + x] == post.objects[o]);
                    }
                }
                assert forall|a: int| 0 <= a < s.len() implies {
                    &&& (#[trigger] s[a]).kind == k
                    &&& s[a].model.index < n
                    &&& pre.in_view(k, s[a].model)
                    &&& !pre.linked(k, s[a].model)
                } by {
                    let m = s[a].model;
                    if cur.is_base(k) {
                        assert(cur.objects[m.index as int] == pre.objects[m.index as int]);
                    } else {
                        let bl = Link { kind: cur.root(k), model: m, view: s[a].view };
                        let b = choose|b: int| 0 <= b < cur.links.len() && cur.links[b] == bl;
                        assert(cur.linked(cur.root(k), m));
                        if pre.linked(cur.root(k), m) {
                            let c = choose|c: int| 0 <= c < pre.links.len() && (#[trigger] pre.links[c]).kind == cur.root(k) && pre.links[c].model == m;
                        }
                        assert(m.index < n);
                        assert(cur.objects[m.index as int] == pre.objects[m.index as int]);
                    }
                    if pre.linked(k, m) {
                        let c = choose|c: int| 0 <= c < pre.links.len() && (#[trigger] pre.links[c]).kind == k && pre.links[c].model == m;
                        assert(cur.links[c] == pre.links[c]);
                    }
                }
                assert forall|a: int| 0 <= a < r@.len() implies {
                    &&& (#[trigger] r@[a]).kind < k + 1
                    &&& r@[a].model.index < n
                    &&& pre.in_view(r@[a].kind, r@[a].model)
                    &&& !pre.linked(r@[a].kind, r@[a].model)
                } by {
                    if a >= r0.len() {
                        assert(r@[a] == s[a - r0.len()]);
                    } else {
                        assert(r@[a] == r0[a]);
                    }
                }
                assert forall|kk: usize, m: Object| #[trigger] post.linked(kk, m) == (cur.linked(kk, m) || (kk == k
                    && exists|a: int| 0 <= a < s.len() && (#[trigger] s[a]).model == m)) by {
                    lemma_linked_append(cur, post, s, kk, m);
                }
                assert forall|kk: usize, m: Object|
                    kk < k + 1 implies (#[trigger] post.linked(kk, m) <==> pre.linked(kk, m) || (m.index < n
                        && pre.in_view(kk, m))) by {
                    if kk == k {
                        if m.index < n && pre.in_view(k, m) {
                            assert(cur.objects[m.index as int] == pre.objects[m.index as int]);
                            if !cur.is_base(k) {
                                let rt = cur.root(k);
                                assert(cur.kinds[rt as int].base is None);
                                assert(pre.in_view(rt, m));
                                assert(cur.linked(rt, m));
                            }
                        }
                        if pre.linked(k, m) {
                            let c = choose|c: int| 0 <= c < pre.links.len() && (#[trigger] pre.links[c]).kind == k && pre.links[c].model == m;
                            assert(cur.links[c] == pre.links[c]);
                        }
                    }
                }
            }
            k = k + 1;
        }
        let ghost mid = self.state();
        self.despawn_stage();
        proof {
            let post = self.state();
            assert forall|k: usize, m: Object| #[trigger] post.linked(k, m) <==> mid.linked(k, m) && mid.in_view(k, m) by {
                if post.linked(k, m) {
                    let a = choose|a: int| 0 <= a < post.links.len() && (#[trigger] post.links[a]).kind == k && post.links[a].model == m;
                    assert(post.links.contains(post.links[a]));
                    let j = choose|j: int| 0 <= j < mid.links.len() && mid.links[j] == post.links[a];
                }
                if mid.linked(k, m) && mid.in_view(k, m) {
                    let j = choose|j: int| 0 <= j < mid.links.len() && (#[trigger] mid.links[j]).kind == k && mid.links[j].model == m;
                    assert(post.links.contains(mid.links[j]));
                    let a = choose|a: int| 0 <= a < post.links.len() && post.links[a] == mid.links[j];
                }
            }
            assert forall|k: usize, m: Object|
                k < pre.kinds.len() implies (#[trigger] post.linked(k, m) <==> m.index < n && pre.in_view(k, m)) by {
                if pre.linked(k, m) {
                    let c = choose|c: int| 0 <= c < pre.links.len() && (#[trigger] pre.links[c]).kind == k && pre.links[c].model == m;
                }
                if m.index < n {
                    assert(mid.objects[m.index as int] == pre.objects[m.index as int]);
                }
                assert(mid.linked(k, m) <==> pre.linked(k, m) || (m.index < n && pre.in_view(k, m)));
            }
            assert forall|j: int| 0 <= j < mid.links.len() && j >= pre.links.len() implies
                mid.in_view((#[trigger] mid.links[j]).kind, mid.links[j].model) by {
                let l = mid.links[j];
                assert(l == r@[j - pre.links.len()]);
                assert(mid.objects[l.model.index as int] == pre.objects[l.model.index as int]);
            }
            assert forall|o: int| 0 <= o < mid.objects.len() implies #[trigger] mid.doomed(o) == (o < n && pre.doomed(o)) by {
                if mid.doomed(o) {
                    let j = choose|j: int|
                        0 <= j < mid.links.len() && (#[trigger] mid.links[j]).view.index == o && mid.is_base(mid.links[j].kind)
                            && !mid.in_view(mid.links[j].kind, mid.links[j].model);
                    assert(j < pre.links.len());
                    assert(mid.links[j] == pre.links[j]);
                    assert(pre.alive(pre.links[j].view));
                    assert(mid.objects[pre.links[j].model.index as int] == pre.objects[pre.links[j].model.index as int]);
                }
                if o < n && pre.doomed(o) {
                    let j = choose|j: int|
                        0 <= j < pre.links.len() && (#[trigger] pre.links[j]).view.index == o && pre.is_base(pre.links[j].kind)
                            && !pre.in_view(pre.links[j].kind, pre.links[j].model);
                    assert(mid.links[j] == pre.links[j]);
                    assert(mid.objects[pre.links[j].model.index as int] == pre.objects[pre.links[j].model.index as int]);
                }
            }
            assert forall|o: int| 0 <= o < n implies (#[trigger] post.objects[o]).tags == pre.objects[o].tags
                && post.objects[o].alive == (pre.objects[o].alive && !pre.doomed(o)) by {
                assert(mid.objects[o] == pre.objects[o]);
            }
            assert forall|o: int| n <= o < post.objects.len() implies (#[trigger] post.objects[o]).alive by {
                assert(mid.objects[o].alive);
            }
            assert forall|l: Link| pre.links.contains(l) && pre.in_view(l.kind, l.model) implies #[trigger] post.links.contains(l) by {
                let j = choose|j: int| 0 <= j < pre.links.len() && pre.links[j] == l;
                assert(mid.links[j] == l);
                assert(mid.objects[l.model.index as int] == pre.objects[l.model.index as int]);
            }
            assert forall|l: Link| #[trigger] post.links.contains(l) implies pre.links.contains(l) || r@.contains(l) by {
                assert(mid.links.contains(l));
                let j = choose|j: int| 0 <= j < mid.links.len() && mid.links[j] == l;
                if j < pre.links.len() {
                    assert(pre.links[j] == l);
                } else {
                    assert(r@[j - pre.links.len()] == l);
                }
            }
            assert forall|i: int| 0 <= i < r@.len() implies post.links.contains(#[trigger] r@[i]) && !pre.linked(
                r@[i].kind,
                r@[i].model,
            ) by {
                let j = pre.links.len() + i;
                assert(mid.links[j] == r@[i]);
                assert(mid.in_view(mid.links[j].kind, mid.links[j].model));
            }
            assert forall|i: int, j: int|
                0 <= i < r@.len() && 0 <= j < r@.len() && i != j implies !((#[trigger] r@[i]).kind == (#[trigger] r@[j]).kind
                && r@[i].model == r@[j].model) by {
                assert(mid.links[pre.links.len() + i] == r@[i]);
                assert(mid.links[pre.links.len() + j] == r@[j]);
            }
        }
        r
    }
}

/// Registering a kind leaves the base pairs of existing links as they were.
proof fn lemma_base_pairs_kinds_push(links: Seq<Link>, kinds: Seq<Kind>, k: Kind)
    requires
        forall|i: int| 0 <= i < links.len() ==> (#[trigger] links[i]).kind < kinds.len(),
    ensures
        base_pairs(links, kinds.push(k)) == base_pairs(links, kinds),
    decreases links.len(),
{
    if links.len() > 0 {
        let rest = links.drop_last();
        assert forall|i: int| 0 <= i < rest.len() implies (#[trigger] rest[i]).kind < kinds.len() by {
            assert(rest[i] == links[i]);
        }
        lemma_base_pairs_kinds_push(rest, kinds, k);
        assert(kinds.push(k)[links.last().kind as int] == kinds[links.last().kind as int]);
    }
}

} // verus!

verus! {

/// A model is linked after appending `r` exactly when it was linked before or
/// one of the appended links is its.
proof fn lemma_linked_append(s: WorldState, t: WorldState, r: Seq<Link>, k: usize, m: Object)
    requires
        t.links == s.links + r,
    ensures
        t.linked(k, m) == (s.linked(k, m) || exists|a: int| 0 <= a < r.len() && (#[trigger] r[a]).kind == k && r[a].model == m),
{
    if t.linked(k, m) {
        let i = choose|i: int| 0 <= i < t.links.len() && (#[trigger] t.links[i]).kind == k && t.links[i].model == m;
        if i < s.links.len() {
            assert(s.links[i] == t.links[i]);
        } else {
            assert(r[i - s.links.len()] == t.links[i]);
        }
    }
    if s.linked(k, m) {
        let i = choose|i: int| 0 <= i < s.links.len() && (#[trigger] s.links[i]).kind == k && s.links[i].model == m;
        assert(t.links[i] == s.links[i]);
    }
    if exists|a: int| 0 <= a < r.len() && (#[trigger] r[a]).kind == k && r[a].model == m {
        let a = choose|a: int| 0 <= a < r.len() && (#[trigger] r[a]).kind == k && r[a].model == m;
        assert(t.links[s.links.len() + a] == r[a]);
    }
}

} // verus!
