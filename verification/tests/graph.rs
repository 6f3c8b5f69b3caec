use gun::Node;

#[test]
fn it_works() {
    let (mut store, gun) = Node::new();
    let node = gun.get(&mut store, "asdf".to_string());
    assert_eq!(gun.id, 0);
    assert_eq!(node.id, 1);
}

#[test]
fn get_same_path_is_idempotent() {
    let (mut store, root) = Node::new();
    let a1 = root.get(&mut store, "a".to_string());
    let a2 = root.get(&mut store, "a".to_string());
    let a3 = root.get(&mut store, "a".to_string());
    assert_eq!(a1.id, a2.id);
    assert_eq!(a1.id, a3.id);
    // Only one id was spent on "a": the next creation takes the next id.
    let b = root.get(&mut store, "b".to_string());
    assert_eq!(a1.id, 1);
    assert_eq!(b.id, 2);
}

#[test]
fn put_clears_links() {
    let (mut store, root) = Node::new();
    let a_old = root.get(&mut store, "a".to_string());
    assert_eq!(a_old.id, 1);
    root.put(&mut store, "x".to_string());
    // The old link is gone: the same path now yields a newly created child.
    let a_new = root.get(&mut store, "a".to_string());
    assert_ne!(a_new.id, a_old.id);
    assert_eq!(a_new.id, 2);
    // The new child is unset: subscribing replays no value.
    let (_, replay) = a_new.on(&mut store);
    assert_eq!(replay, None);
    // The old child still exists in the store, merely unlinked.
    assert!(store.contains(a_old.id));
}

#[test]
fn on_replays_present_value() {
    let (mut store, root) = Node::new();
    let a = root.get(&mut store, "a".to_string());
    a.put(&mut store, "x".to_string());
    let (sub, replay) = a.on(&mut store);
    // The present value is replayed exactly once, at registration.
    assert_eq!(replay, Some("x".to_string()));
    // Every later put notifies the subscription exactly once.
    let notes = a.put(&mut store, "y".to_string());
    let hits: Vec<_> = notes.iter().filter(|n| n.sub == sub).collect();
    assert_eq!(hits.len(), 1);
    assert_eq!(hits[0].value, "y".to_string());
}

#[test]
fn on_unset_node_replays_nothing() {
    let (mut store, root) = Node::new();
    let a = root.get(&mut store, "a".to_string());
    let (_, replay) = a.on(&mut store);
    assert_eq!(replay, None);
}

#[test]
fn two_puts_notify_in_order() {
    let (mut store, root) = Node::new();
    let a = root.get(&mut store, "a".to_string());
    let (s1, _) = a.on(&mut store);
    let (s2, _) = a.on(&mut store);
    let notes1 = a.put(&mut store, "v1".to_string());
    let notes2 = a.put(&mut store, "v2".to_string());
    // One note per subscriber per put, in registration order.
    assert_eq!(notes1.len(), 2);
    assert_eq!(notes1[0].sub, s1);
    assert_eq!(notes1[0].value, "v1".to_string());
    assert_eq!(notes1[1].sub, s2);
    assert_eq!(notes1[1].value, "v1".to_string());
    assert_eq!(notes2.len(), 2);
    assert_eq!(notes2[0].sub, s1);
    assert_eq!(notes2[0].value, "v2".to_string());
    assert_eq!(notes2[1].sub, s2);
    assert_eq!(notes2[1].value, "v2".to_string());
}

#[test]
fn ids_are_never_reused() {
    let (mut store, root) = Node::new();
    assert_eq!(root.id, 0);
    // Node and subscription ids are drawn from the one counter.
    let (s1, _) = root.on(&mut store);
    assert_eq!(s1, 1);
    let a = root.get(&mut store, "a".to_string());
    assert_eq!(a.id, 2);
    let (s2, _) = a.on(&mut store);
    assert_eq!(s2, 3);
    let b = root.get(&mut store, "b".to_string());
    assert_eq!(b.id, 4);
    // The root id is stable and distinct from every id allocated since.
    assert!(store.contains(0));
    assert_ne!(a.id, root.id);
    assert_ne!(b.id, root.id);
    assert_ne!(a.id, b.id);
}

#[test]
fn leaf_get_keeps_value_and_creates_fresh_children() {
    let (mut store, root) = Node::new();
    let a = root.get(&mut store, "a".to_string());
    a.put(&mut store, "x".to_string());
    // A leaf never consults its links: every get creates a fresh child.
    let c1 = a.get(&mut store, "b".to_string());
    let c2 = a.get(&mut store, "b".to_string());
    assert_ne!(c1.id, c2.id);
    // The leaf's value is left untouched by those gets.
    let (_, replay) = a.on(&mut store);
    assert_eq!(replay, Some("x".to_string()));
}

#[test]
fn scenario_grow_put_subscribe_regrow() {
    let (mut store, r) = Node::new();
    let a = r.get(&mut store, "a".to_string());
    assert_ne!(a.id, r.id);
    a.put(&mut store, "x".to_string());
    let (cb, replay) = a.on(&mut store);
    assert_eq!(replay, Some("x".to_string()));
    let notes = a.put(&mut store, "y".to_string());
    assert_eq!(notes.len(), 1);
    assert_eq!(notes[0].sub, cb);
    assert_eq!(notes[0].value, "y".to_string());
    let c = a.get(&mut store, "b".to_string());
    assert!(!store.contains(c.id + 1));
    let (_, c_replay) = c.on(&mut store);
    assert_eq!(c_replay, None);
    assert_eq!(c.linked_by(&store), vec![a.id]);
}

#[test]
fn store_capacity_is_observable() {
    let (store, root) = Node::new();
    assert!(store.can_alloc());
    assert!(store.contains(0));
    assert!(!store.contains(7));
    // The placeholder of the surface neither allocates nor mutates.
    root.map();
    assert!(!store.contains(1));
}
