use moonshine_view::{Filter, Link, Object, RegisterError, ViewableKind, World, UNLOAD};

const M: u64 = 2;
const POSITION: u64 = 4;
const SAVE: u64 = 8;
const SPECIAL: u64 = 16;
const ROUND: u64 = 32;

fn kind_with(with: u64) -> ViewableKind {
    ViewableKind { filter: Filter { with, without: 0 }, bundle: 0 }
}

#[test]
fn test_viewable_spawn() {
    let mut world = World::new();
    let k = world.register_viewable(kind_with(M));
    world.spawn(M);

    world.update();
    let models = world.models(k);
    let views = world.views(k);
    assert_eq!(models.len(), 1);
    assert_eq!(views.len(), 1);
    let view = world.view_of(views[0], k).unwrap();
    assert!(models[0] == view.viewable());
}

#[test]
fn test_viewable_despawn() {
    let mut world = World::new();
    let k = world.register_viewable(kind_with(M));

    let m = world.spawn(M);
    world.update();

    let v = world.viewable_of(m, k).unwrap().view();

    world.despawn(m);
    world.update();

    assert!(!world.is_alive(m));
    assert!(!world.is_alive(v));
    assert!(world.views(k).is_empty());
}

#[test]
fn square_view_follows_its_filter() {
    let mut world = World::new();
    let square = world.register_viewable(kind_with(POSITION | SAVE));
    let m = world.spawn(POSITION | SAVE);
    world.update();

    let v1 = world.viewable_of(m, square).unwrap().view();
    assert_eq!(world.view_of(v1, square).unwrap().viewable(), m);
    assert!(world.registry().contains(m));

    world.remove(m, SAVE);
    world.update();
    assert!(!world.is_alive(v1));
    assert!(world.viewable_of(m, square).is_none());
    assert!(!world.registry().contains(m));
    assert!(world.is_alive(m));
}

#[test]
fn every_matching_model_gets_one_view() {
    let mut world = World::new();
    let k = world.register_viewable(kind_with(M));
    let a = world.spawn(M);
    let b = world.spawn(M | POSITION);
    let c = world.spawn(POSITION);
    let built = world.update();
    assert_eq!(built.len(), 2);
    for m in [a, b] {
        let v = world.viewable_of(m, k).unwrap().view();
        assert!(world.is_alive(v));
        assert_eq!(world.view_of(v, k).unwrap().viewable(), m);
        assert_eq!(world.registry().views(m), vec![v]);
    }
    assert!(world.viewable_of(c, k).is_none());
    let va = world.viewable_of(a, k).unwrap().view();
    let vb = world.viewable_of(b, k).unwrap().view();
    assert_ne!(va, vb);
}

#[test]
fn view_starts_with_bundle_and_unload() {
    let mut world = World::new();
    let kind = ViewableKind { filter: Filter { with: M, without: 0 }, bundle: POSITION };
    assert_eq!(kind.view_bundle(), POSITION | UNLOAD);
    let k = world.register_viewable(kind);
    let m = world.spawn(M);
    world.update();
    let v = world.viewable_of(m, k).unwrap().view();
    assert_eq!(world.tags(v), Some(POSITION | UNLOAD));
}

#[test]
fn spawn_stage_twice_makes_nothing_new() {
    let mut world = World::new();
    let k = world.register_viewable(kind_with(M));
    let m = world.spawn(M);
    let n = 1;
    let first = world.spawn_stage(k, n);
    assert_eq!(first.len(), 1);
    assert_eq!(first[0].model, m);
    let views = world.views(k);
    let second = world.spawn_stage(k, n);
    assert!(second.is_empty());
    assert_eq!(world.views(k), views);
    assert_eq!(world.registry().views(m), views);
}

#[test]
fn update_again_builds_nothing() {
    let mut world = World::new();
    let k = world.register_viewable(kind_with(M));
    let m = world.spawn(M);
    let first = world.update();
    assert_eq!(first.len(), 1);
    let v = world.viewable_of(m, k).unwrap().view();
    let second = world.update();
    assert!(second.is_empty());
    assert_eq!(world.viewable_of(m, k).unwrap().view(), v);
}

#[test]
fn destroyed_model_loses_view_registry_and_link() {
    let mut world = World::new();
    let k = world.register_viewable(kind_with(M));
    let m = world.spawn(M);
    world.update();
    let v = world.viewable_of(m, k).unwrap().view();
    world.despawn(m);
    world.update();
    assert!(!world.is_alive(v));
    assert!(world.viewable_of(m, k).is_none());
    assert!(world.view_of(v, k).is_none());
    assert!(!world.registry().contains(m));
    assert!(!world.registry().is_view(v));
}

#[test]
fn excluded_tag_despawns_view() {
    let mut world = World::new();
    let k = world.register_viewable(ViewableKind { filter: Filter { with: M, without: SAVE }, bundle: 0 });
    let m = world.spawn(M);
    world.update();
    let v = world.viewable_of(m, k).unwrap().view();
    world.insert(m, SAVE);
    world.update();
    assert!(!world.is_alive(v));
    assert!(world.viewable_of(m, k).is_none());
}

#[test]
fn specializations_share_one_view() {
    let mut world = World::new();
    let shape = world.register_viewable(kind_with(POSITION));
    let special = world.register_view(shape, kind_with(POSITION | SPECIAL)).unwrap();
    let round = world.register_view(shape, kind_with(POSITION | ROUND)).unwrap();
    let m = world.spawn(POSITION | SPECIAL | ROUND);
    let built = world.update();
    assert_eq!(built.len(), 3);
    let v = world.viewable_of(m, shape).unwrap().view();
    assert_eq!(world.viewable_of(m, special).unwrap().view(), v);
    assert_eq!(world.viewable_of(m, round).unwrap().view(), v);
    assert_eq!(world.view_of(v, special).unwrap().viewable(), m);
    assert_eq!(world.view_of(v, round).unwrap().viewable(), m);
    assert_eq!(built[0], Link { kind: shape, model: m, view: v });
    assert_eq!(built[1], Link { kind: special, model: m, view: v });
    assert_eq!(built[2], Link { kind: round, model: m, view: v });
    assert_eq!(world.registry().views(m), vec![v]);
    assert!(world.update().is_empty());
}

#[test]
fn specialization_order_gives_same_content() {
    let mut one = World::new();
    let base1 = one.register_viewable(kind_with(POSITION));
    let a1 = one.register_view(base1, kind_with(POSITION | SPECIAL)).unwrap();
    let b1 = one.register_view(base1, kind_with(POSITION | ROUND)).unwrap();
    let mut two = World::new();
    let base2 = two.register_viewable(kind_with(POSITION));
    let b2 = two.register_view(base2, kind_with(POSITION | ROUND)).unwrap();
    let a2 = two.register_view(base2, kind_with(POSITION | SPECIAL)).unwrap();
    let m1 = one.spawn(POSITION | SPECIAL | ROUND);
    let m2 = two.spawn(POSITION | SPECIAL | ROUND);
    one.update();
    two.update();
    let v1 = one.viewable_of(m1, base1).unwrap().view();
    let v2 = two.viewable_of(m2, base2).unwrap().view();
    assert_eq!(one.viewable_of(m1, a1).unwrap().view(), v1);
    assert_eq!(one.viewable_of(m1, b1).unwrap().view(), v1);
    assert_eq!(two.viewable_of(m2, a2).unwrap().view(), v2);
    assert_eq!(two.viewable_of(m2, b2).unwrap().view(), v2);
}

#[test]
fn specialization_drops_when_its_filter_fails() {
    let mut world = World::new();
    let shape = world.register_viewable(kind_with(POSITION));
    let special = world.register_view(shape, kind_with(POSITION | SPECIAL)).unwrap();
    let m = world.spawn(POSITION | SPECIAL);
    world.update();
    let v = world.viewable_of(m, shape).unwrap().view();
    world.remove(m, SPECIAL);
    world.update();
    assert!(world.is_alive(v));
    assert_eq!(world.viewable_of(m, shape).unwrap().view(), v);
    assert!(world.viewable_of(m, special).is_none());
    assert!(world.view_of(v, special).is_none());
    world.insert(m, SPECIAL);
    let built = world.update();
    assert_eq!(built, vec![Link { kind: special, model: m, view: v }]);
}

#[test]
fn base_removal_drops_all_layers() {
    let mut world = World::new();
    let shape = world.register_viewable(kind_with(POSITION));
    let special = world.register_view(shape, kind_with(POSITION | SPECIAL)).unwrap();
    let m = world.spawn(POSITION | SPECIAL);
    world.update();
    let v = world.viewable_of(m, shape).unwrap().view();
    world.remove(m, POSITION);
    world.update();
    assert!(!world.is_alive(v));
    assert!(world.viewable_of(m, shape).is_none());
    assert!(world.viewable_of(m, special).is_none());
}

#[test]
fn register_view_errors() {
    let mut world = World::new();
    assert_eq!(world.register_view(0, kind_with(M)), Err(RegisterError::UnknownBase));
    let base = world.register_viewable(kind_with(M));
    let special = world.register_view(base, kind_with(M | SAVE)).unwrap();
    assert_eq!(special, 1);
    assert_eq!(world.register_view(special, kind_with(M)), Err(RegisterError::NotBase));
    assert_eq!(world.register_view(5, kind_with(M)), Err(RegisterError::UnknownBase));
}

#[test]
fn registry_is_consistent() {
    let mut world = World::new();
    let a = world.register_viewable(kind_with(M));
    let b = world.register_viewable(kind_with(POSITION));
    let both = world.spawn(M | POSITION);
    let only_m = world.spawn(M);
    let none = world.spawn(SAVE);
    world.update();
    let reg = world.registry();
    let mut models = reg.iter();
    models.sort_by_key(|o| o.index);
    assert_eq!(models, vec![both, only_m]);
    assert!(!reg.contains(none));
    assert!(reg.views(none).is_empty());
    for m in [both, only_m, none] {
        let views = reg.views(m);
        assert_eq!(views.is_empty(), !reg.contains(m));
        for v in views {
            assert!(reg.is_view(v));
            assert_eq!(reg.model_of(v), Some(m));
        }
    }
    assert_eq!(reg.views(both).len(), 2);
    assert_eq!(reg.views(both)[0], world.viewable_of(both, a).unwrap().view());
    assert_eq!(reg.views(both)[1], world.viewable_of(both, b).unwrap().view());
    assert!(!reg.is_view(both));
    assert_eq!(reg.model_of(both), None);
}

#[test]
fn rebuild_makes_a_fresh_view() {
    let mut world = World::new();
    let k = world.register_viewable(kind_with(M));
    let m = world.spawn(M);
    world.update();
    let old = world.viewable_of(m, k).unwrap().view();
    assert!(world.rebuild(m, k));
    assert!(!world.is_alive(old));
    assert!(world.viewable_of(m, k).is_none());
    assert!(!world.registry().contains(m));
    let built = world.update();
    let fresh = world.viewable_of(m, k).unwrap().view();
    assert_ne!(fresh, old);
    assert!(world.is_alive(fresh));
    assert!(!world.is_alive(old));
    assert_eq!(world.view_of(fresh, k).unwrap().viewable(), m);
    assert_eq!(built, vec![Link { kind: k, model: m, view: fresh }]);
}

#[test]
fn rebuild_without_view_does_nothing() {
    let mut world = World::new();
    let k = world.register_viewable(kind_with(M));
    let m = world.spawn(POSITION);
    world.update();
    assert!(!world.rebuild(m, k));
    assert!(world.is_alive(m));
}

#[test]
fn despawning_a_view_unlinks_its_model() {
    let mut world = World::new();
    let k = world.register_viewable(kind_with(M));
    let m = world.spawn(M);
    world.update();
    let v = world.viewable_of(m, k).unwrap().view();
    world.despawn(v);
    assert!(world.viewable_of(m, k).is_none());
    assert!(!world.registry().contains(m));
    world.update();
    let fresh = world.viewable_of(m, k).unwrap().view();
    assert_ne!(fresh, v);
}

#[test]
fn missing_objects_are_ignored() {
    let mut world = World::new();
    let ghost = Object { index: 7 };
    world.insert(ghost, M);
    world.remove(ghost, M);
    world.despawn(ghost);
    assert!(!world.is_alive(ghost));
    assert_eq!(world.tags(ghost), None);
    let m = world.spawn(M | SAVE);
    world.despawn(m);
    world.insert(m, POSITION);
    assert_eq!(world.tags(m), None);
}

#[test]
fn insert_and_remove_tags() {
    let mut world = World::new();
    let m = world.spawn(M);
    world.insert(m, SAVE | POSITION);
    assert_eq!(world.tags(m), Some(M | SAVE | POSITION));
    world.remove(m, M | POSITION);
    assert_eq!(world.tags(m), Some(SAVE));
}

#[test]
fn filter_checks_with_and_without() {
    let f = Filter { with: M | SAVE, without: POSITION };
    assert!(f.matches(M | SAVE));
    assert!(f.matches(M | SAVE | ROUND));
    assert!(!f.matches(M));
    assert!(!f.matches(M | SAVE | POSITION));
    assert!(Filter { with: 0, without: 0 }.matches(0));
}

#[test]
fn objects_created_during_a_tick_wait_for_the_next() {
    let mut world = World::new();
    let all = world.register_viewable(kind_with(0));
    let m = world.spawn(M);
    let built = world.update();
    assert_eq!(built.len(), 1);
    let v = world.viewable_of(m, all).unwrap().view();
    assert!(world.viewable_of(v, all).is_none());
    let next = world.update();
    assert_eq!(next.len(), 1);
    assert_eq!(next[0].model, v);
}
