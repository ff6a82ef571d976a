use vstd::prelude::*;
use crate::kind::Kind;
use crate::link::Link;
use crate::object::Object;
use crate::registry::{has_model, has_view, model_of, views_of, views_unique};
use crate::world::{base_pairs, WorldState};

verus! {

/// After a tick, a model eligible for a kind carries exactly one link of that
/// kind; its view object exists and links back to that model alone.
pub proof fn lemma_spawn_links_both_ways(pre: WorldState, post: WorldState, r: Seq<Link>, k: usize, m: Object)
    requires
        pre.wf(),
        post.wf(),
        pre.updated(post, r),
        k < pre.kinds.len(),
        m.index < pre.objects.len(),
        pre.in_view(k, m),
    ensures
        exists|v: Object|
            {
                &&& #[trigger] post.links.contains(Link { kind: k, model: m, view: v })
                &&& post.alive(v)
                &&& forall|w: Object| post.links.contains(Link { kind: k, model: m, view: w }) ==> w == v
                &&& forall|x: Object| post.links.contains(Link { kind: k, model: x, view: v }) ==> x == m
            },
{
    assert(post.linked(k, m));
    let i = choose|i: int| 0 <= i < post.links.len() && (#[trigger] post.links[i]).kind == k && post.links[i].model == m;
    let v = post.links[i].view;
    assert(post.links.contains(Link { kind: k, model: m, view: v })) by {
        assert(post.links[i] == Link { kind: k, model: m, view: v });
    }
    assert forall|w: Object| post.links.contains(Link { kind: k, model: m, view: w }) implies w == v by {
        let j = choose|j: int| 0 <= j < post.links.len() && post.links[j] == Link { kind: k, model: m, view: w };
        if j != i {
            assert(post.links[j].model != post.links[i].model);
        }
    }
    assert forall|x: Object| post.links.contains(Link { kind: k, model: x, view: v }) implies x == m by {
        let j = choose|j: int| 0 <= j < post.links.len() && post.links[j] == Link { kind: k, model: x, view: v };
        if j != i {
            assert(post.links[j].view != post.links[i].view);
        }
    }
}

/// Running the spawn stage again over the same objects makes nothing: no new
/// view object, link or registry pair.
pub proof fn lemma_spawn_idempotent(
    s0: WorldState,
    s1: WorldState,
    s2: WorldState,
    k: usize,
    n: int,
    r1: Seq<Link>,
    r2: Seq<Link>,
)
    requires
        s0.wf(),
        k < s0.kinds.len(),
        0 <= n <= s0.objects.len(),
        s0.spawned(s1, k, n, r1),
        s1.spawned(s2, k, n, r2),
    ensures
        r2.len() == 0,
        s2 == s1,
{
    if r2.len() > 0 {
        let m = r2[0].model;
        assert(s1.objects[m.index as int] == s0.objects[m.index as int]);
        assert(s1.linked(k, m));
    }
    assert(s2.objects =~= s1.objects) by {
        assert forall|o: int| 0 <= o < s1.objects.len() implies s2.objects[o] == s1.objects[o] by {}
    }
    assert(s2.links =~= s1.links);
    assert(s2.registry =~= s1.registry);
}

/// When a model stops being eligible for a base kind, one tick later its view
/// object no longer exists, the model carries no link of that kind, and the
/// registry no longer lists the pair: all three together.
pub proof fn lemma_despawn_total(pre: WorldState, post: WorldState, r: Seq<Link>, k: usize, m: Object, v: Object)
    requires
        pre.wf(),
        post.wf(),
        pre.updated(post, r),
        pre.links.contains(Link { kind: k, model: m, view: v }),
        pre.is_base(k),
        !pre.in_view(k, m),
    ensures
        !post.alive(v),
        !post.linked(k, m),
        !post.registry.contains((m, v)),
{
    let i = choose|i: int| 0 <= i < pre.links.len() && pre.links[i] == Link { kind: k, model: m, view: v };
    assert(pre.doomed(v.index as int)) by {
        assert(pre.links[i].view.index == v.index);
    }
    assert(pre.alive(v));
    assert(post.objects[v.index as int].alive == (pre.objects[v.index as int].alive && !pre.doomed(v.index as int)));
    if post.registry.contains((m, v)) {
        lemma_base_pairs_member(post.links, post.kinds, (m, v));
        let j = choose|j: int|
            0 <= j < post.links.len() && post.kinds[(#[trigger] post.links[j]).kind as int].base is None
                && post.links[j].model == m && post.links[j].view == v;
        assert(post.alive(post.links[j].view));
    }
}

/// Specializations layered on one base kind share the base kind's view object:
/// after a tick, a model eligible for two of them has one view object that
/// carries the base link and both specialization links.
pub proof fn lemma_layers_share_view(
    pre: WorldState,
    post: WorldState,
    r: Seq<Link>,
    t: usize,
    s1: usize,
    s2: usize,
    m: Object,
)
    requires
        pre.wf(),
        post.wf(),
        pre.updated(post, r),
        s1 < pre.kinds.len(),
        s2 < pre.kinds.len(),
        pre.kinds[s1 as int].base == Some(t),
        pre.kinds[s2 as int].base == Some(t),
        m.index < pre.objects.len(),
        pre.in_view(s1, m),
        pre.in_view(s2, m),
    ensures
        exists|v: Object|
            {
                &&& post.alive(v)
                &&& #[trigger] post.links.contains(Link { kind: t, model: m, view: v })
                &&& post.links.contains(Link { kind: s1, model: m, view: v })
                &&& post.links.contains(Link { kind: s2, model: m, view: v })
            },
{
    assert(post.linked(s1, m));
    assert(post.linked(s2, m));
    let i = choose|i: int| 0 <= i < post.links.len() && (#[trigger] post.links[i]).kind == s1 && post.links[i].model == m;
    let j = choose|j: int| 0 <= j < post.links.len() && (#[trigger] post.links[j]).kind == s2 && post.links[j].model == m;
    let v = post.links[i].view;
    let w = post.links[j].view;
    assert(post.links.contains(Link { kind: t, model: m, view: v }));
    assert(post.links.contains(Link { kind: t, model: m, view: w }));
    let a = choose|a: int| 0 <= a < post.links.len() && post.links[a] == Link { kind: t, model: m, view: v };
    let b = choose|b: int| 0 <= b < post.links.len() && post.links[b] == Link { kind: t, model: m, view: w };
    if a != b {
        assert(post.links[a].model != post.links[b].model);
    }
    assert(post.links[i] == Link { kind: s1, model: m, view: v });
    assert(post.links[j] == Link { kind: s2, model: m, view: v });
    assert(post.links.contains(Link { kind: s1, model: m, view: v }));
    assert(post.links.contains(Link { kind: s2, model: m, view: v }));
}

/// A builder runs once per model and kind: a link made by one tick is not made
/// again by the next.
pub proof fn lemma_built_once(s0: WorldState, s1: WorldState, s2: WorldState, r1: Seq<Link>, r2: Seq<Link>, l: Link)
    requires
        s0.updated(s1, r1),
        s1.updated(s2, r2),
        r1.contains(l),
    ensures
        forall|i: int| 0 <= i < r2.len() ==> !((#[trigger] r2[i]).kind == l.kind && r2[i].model == l.model),
{
    let a = choose|a: int| 0 <= a < r1.len() && r1[a] == l;
    assert(s1.links.contains(r1[a]));
    let j = choose|j: int| 0 <= j < s1.links.len() && s1.links[j] == l;
    assert(s1.linked(l.kind, l.model)) by {
        assert(s1.links[j].kind == l.kind && s1.links[j].model == l.model);
    }
}

/// The registry is consistent: it contains a model exactly when the model has
/// a view of some base kind, the model has views exactly when the registry
/// contains it, and each of its views is a registered view that maps back to it.
pub proof fn lemma_registry_consistent(s: WorldState, m: Object)
    requires
        s.wf(),
    ensures
        has_model(s.registry, m) <==> exists|k: usize| s.is_base(k) && #[trigger] s.linked(k, m),
        views_of(s.registry, m).len() > 0 <==> has_model(s.registry, m),
        forall|v: Object| #[trigger] views_of(s.registry, m).contains(v) ==> has_view(s.registry, v) && model_of(s.registry, v) == Some(m),
{
    lemma_views_of_nonempty(s.registry, m);
    lemma_base_pairs_views_unique(s);
    if has_model(s.registry, m) {
        let i = choose|i: int| 0 <= i < s.registry.len() && (#[trigger] s.registry[i]).0 == m;
        assert(s.registry.contains(s.registry[i]));
        lemma_base_pairs_member(s.links, s.kinds, s.registry[i]);
        let j = choose|j: int|
            0 <= j < s.links.len() && s.kinds[(#[trigger] s.links[j]).kind as int].base is None
                && s.links[j].model == m && s.links[j].view == s.registry[i].1;
        assert(s.linked(s.links[j].kind, m));
    }
    if exists|k: usize| s.is_base(k) && #[trigger] s.linked(k, m) {
        let k = choose|k: usize| s.is_base(k) && #[trigger] s.linked(k, m);
        let j = choose|j: int| 0 <= j < s.links.len() && (#[trigger] s.links[j]).kind == k && s.links[j].model == m;
        let p = (m, s.links[j].view);
        lemma_base_pairs_member(s.links, s.kinds, p);
        let i = choose|i: int| 0 <= i < s.registry.len() && s.registry[i] == p;
        assert(s.registry[i].0 == m);
    }
    assert forall|v: Object| #[trigger] views_of(s.registry, m).contains(v) implies has_view(s.registry, v) && model_of(s.registry, v) == Some(m) by {
        lemma_views_of_member(s.registry, m, v);
        let i = choose|i: int| 0 <= i < s.registry.len() && s.registry[i] == (m, v);
        lemma_model_of_unique(s.registry, i);
    }
}

/// After a rebuild and one further tick, an eligible model has a fresh view
/// object, distinct from the destroyed one, which stays destroyed; the new link
/// is among those whose builders run.
pub proof fn lemma_rebuild_round_trip(
    s0: WorldState,
    s1: WorldState,
    s2: WorldState,
    r: Seq<Link>,
    k: usize,
    m: Object,
    v: Object,
)
    requires
        s0.wf(),
        s1.wf(),
        s2.wf(),
        k < s0.kinds.len(),
        s0.links.contains(Link { kind: k, model: m, view: v }),
        s0.view_destroyed(s1, v),
        s1.updated(s2, r),
        m.index < s1.objects.len(),
        s1.in_view(k, m),
    ensures
        !s2.alive(v),
        exists|w: Object|
            w != v && s2.alive(w) && #[trigger] s2.links.contains(Link { kind: k, model: m, view: w }) && r.contains(
                Link { kind: k, model: m, view: w },
            ),
{
    let i = choose|i: int| 0 <= i < s0.links.len() && s0.links[i] == Link { kind: k, model: m, view: v };
    assert(s0.alive(s0.links[i].view));
    assert(s2.objects[v.index as int].alive == (s1.objects[v.index as int].alive && !s1.doomed(v.index as int)));
    assert(s2.linked(k, m));
    let j = choose|j: int| 0 <= j < s2.links.len() && (#[trigger] s2.links[j]).kind == k && s2.links[j].model == m;
    let w = s2.links[j].view;
    let l = Link { kind: k, model: m, view: w };
    assert(s2.links[j] == l);
    assert(s2.links.contains(l));
    assert(s2.alive(w));
    if s1.links.contains(l) {
        assert(s0.links.contains(l));
        let a = choose|a: int| 0 <= a < s0.links.len() && s0.links[a] == l;
        if a != i {
            assert(s0.links[a].model != s0.links[i].model);
        }
    }
}

/// A non-empty list of views exactly when some entry has the model.
proof fn lemma_views_of_nonempty(s: Seq<(Object, Object)>, m: Object)
    ensures
        views_of(s, m).len() > 0 <==> has_model(s, m),
    decreases s.len(),
{
    if s.len() > 0 {
        let rest = s.drop_last();
        lemma_views_of_nonempty(rest, m);
        if has_model(rest, m) {
            let i = choose|i: int| 0 <= i < rest.len() && (#[trigger] rest[i]).0 == m;
            assert(s[i] == rest[i]);
        }
        if has_model(s, m) && s.last().0 != m {
            let i = choose|i: int| 0 <= i < s.len() && (#[trigger] s[i]).0 == m;
            assert(rest[i] == s[i]);
        }
        if s.last().0 == m {
            assert(s[s.len() - 1].0 == m);
        }
    }
}

/// Every listed view of a model comes from an entry pairing the two.
proof fn lemma_views_of_member(s: Seq<(Object, Object)>, m: Object, v: Object)
    requires
        views_of(s, m).contains(v),
    ensures
        s.contains((m, v)),
        has_view(s, v),
    decreases s.len(),
{
    let rest = s.drop_last();
    if s.last().0 == m && s.last().1 == v {
        assert(s[s.len() - 1] == (m, v));
    } else {
        if s.last().0 == m {
            let a = choose|a: int| 0 <= a < views_of(s, m).len() && views_of(s, m)[a] == v;
            assert(views_of(rest, m)[a] == v);
        }
        lemma_views_of_member(rest, m, v);
        let i = choose|i: int| 0 <= i < rest.len() && rest[i] == (m, v);
        assert(s[i] == rest[i]);
    }
    let i = choose|i: int| 0 <= i < s.len() && s[i] == (m, v);
    assert(s[i].1 == v);
}

/// With views listed once, the inverse lookup of an entry's view is its model.
proof fn lemma_model_of_unique(s: Seq<(Object, Object)>, i: int)
    requires
        views_unique(s),
        0 <= i < s.len(),
    ensures
        model_of(s, s[i].1) == Some(s[i].0),
    decreases s.len(),
{
    let rest = s.drop_last();
    if i < s.len() - 1 {
        assert(s[s.len() - 1].1 != s[i].1);
        assert(views_unique(rest)) by {
            assert forall|a: int, b: int| 0 <= a < rest.len() && 0 <= b < rest.len() && a != b implies (#[trigger] rest[a]).1
                != (#[trigger] rest[b]).1 by {
                assert(rest[a] == s[a] && rest[b] == s[b]);
            }
        }
        lemma_model_of_unique(rest, i);
        assert(rest[i] == s[i]);
    }
}

/// A pair is among the base pairs exactly when a base-kind link joins the two.
proof fn lemma_base_pairs_member(links: Seq<Link>, kinds: Seq<Kind>, p: (Object, Object))
    ensures
        base_pairs(links, kinds).contains(p) <==> exists|i: int|
            0 <= i < links.len() && kinds[(#[trigger] links[i]).kind as int].base is None && links[i].model == p.0
                && links[i].view == p.1,
    decreases links.len(),
{
    if links.len() > 0 {
        let rest = links.drop_last();
        let bp = base_pairs(links, kinds);
        let br = base_pairs(rest, kinds);
        lemma_base_pairs_member(rest, kinds, p);
        let last = links.len() - 1;
        if bp.contains(p) {
            let a = choose|a: int| 0 <= a < bp.len() && bp[a] == p;
            if a < br.len() {
                assert(br[a] == p);
                let i = choose|i: int|
                    0 <= i < rest.len() && kinds[(#[trigger] rest[i]).kind as int].base is None && rest[i].model == p.0
                        && rest[i].view == p.1;
                assert(links[i] == rest[i]);
            } else {
                assert(links[last] == links.last());
            }
        }
        if exists|i: int|
            0 <= i < links.len() && kinds[(#[trigger] links[i]).kind as int].base is None && links[i].model == p.0
                && links[i].view == p.1 {
            let i = choose|i: int|
                0 <= i < links.len() && kinds[(#[trigger] links[i]).kind as int].base is None && links[i].model == p.0
                    && links[i].view == p.1;
            if i < last {
                assert(rest[i] == links[i]);
                let a = choose|a: int| 0 <= a < br.len() && br[a] == p;
                assert(bp[a] == p);
            } else {
                assert(bp[bp.len() - 1] == p);
            }
        }
    }
}

/// The registry of a well-formed state lists each view object once.
proof fn lemma_base_pairs_views_unique(s: WorldState)
    requires
        s.wf(),
    ensures
        views_unique(s.registry),
{
    lemma_base_pairs_unique_prefix(s, s.links.len() as int);
    assert(s.links.subrange(0, s.links.len() as int) =~= s.links);
}

proof fn lemma_base_pairs_unique_prefix(s: WorldState, n: int)
    requires
        s.wf(),
        0 <= n <= s.links.len(),
    ensures
        views_unique(base_pairs(s.links.subrange(0, n), s.kinds)),
    decreases n,
{
    if n > 0 {
        let pre = s.links.subrange(0, n);
        let rest = s.links.subrange(0, n - 1);
        assert(pre.drop_last() =~= rest);
        lemma_base_pairs_unique_prefix(s, n - 1);
        let bp = base_pairs(pre, s.kinds);
        let br = base_pairs(rest, s.kinds);
        let l = s.links[n - 1];
        if s.kinds[l.kind as int].base is None {
            assert forall|a: int| 0 <= a < br.len() implies (#[trigger] br[a]).1 != l.view by {
                lemma_base_pairs_member(rest, s.kinds, br[a]);
                assert(br.contains(br[a]));
                let i = choose|i: int|
                    0 <= i < rest.len() && s.kinds[(#[trigger] rest[i]).kind as int].base is None && rest[i].model == br[a].0
                        && rest[i].view == br[a].1;
                assert(rest[i] == s.links[i]);
                if s.links[i].view == l.view {
                    assert(s.root(s.links[i].kind) == s.root(l.kind));
                    assert(s.links[i].kind == l.kind);
                }
            }
            assert(views_unique(bp)) by {
                assert forall|a: int, b: int| 0 <= a < bp.len() && 0 <= b < bp.len() && a != b implies (#[trigger] bp[a]).1
                    != (#[trigger] bp[b]).1 by {
                    if a < br.len() && b < br.len() {
                        assert(bp[a] == br[a] && bp[b] == br[b]);
                    } else if a < br.len() {
                        assert(bp[a] == br[a]);
                    } else {
                        assert(bp[b] == br[b]);
                    }
                }
            }
        }
    }
}

} // verus!
