use pointdexter::prelude::{AttachError, Point, PointDexter};

// Each test uses its own registry and unique point names.

#[test]
fn point_idempotent() {
    let mut pt = PointDexter::new();
    let a = pt.point("T_Idem_A");
    let b = pt.point("T_Idem_A");
    assert!(a == b, "same name must return same Point");
}

#[test]
fn insert_and_get_first() {
    let mut pt = PointDexter::new();
    let u = pt.point("T_InsGet");
    u.insert(&mut pt, "name", "John");
    u.insert(&mut pt, "age", "24");
    assert_eq!(u.get_first(&pt, "name").as_deref(), Some("John"));
    assert_eq!(u.get_first(&pt, "age").as_deref(), Some("24"));
    assert_eq!(u.get_first(&pt, "missing"), None);
}

#[test]
fn duplicate_keys_within_point() {
    let mut pt = PointDexter::new();
    let p = pt.point("T_DupKey");
    p.insert(&mut pt, "tag", "rust");
    p.insert(&mut pt, "tag", "lock-free");
    p.insert(&mut pt, "tag", "tree");
    let tags = p.get(&pt, "tag");
    assert_eq!(tags.len(), 3);
    assert!(tags.contains(&"rust".to_owned()));
    assert!(tags.contains(&"lock-free".to_owned()));
    assert!(tags.contains(&"tree".to_owned()));
}

#[test]
fn duplicate_keys_across_points_are_independent() {
    let mut pt = PointDexter::new();
    let u = pt.point("T_XDup_U");
    let a = pt.point("T_XDup_A");
    u.insert(&mut pt, "role", "user");
    a.insert(&mut pt, "role", "admin");
    assert_eq!(u.get_first(&pt, "role").as_deref(), Some("user"));
    assert_eq!(a.get_first(&pt, "role").as_deref(), Some("admin"));
}

#[test]
fn remove_key() {
    let mut pt = PointDexter::new();
    let p = pt.point("T_RemKey");
    p.insert(&mut pt, "x", "1");
    p.insert(&mut pt, "x", "2");
    p.insert(&mut pt, "y", "3");
    p.purge_key(&mut pt, "x");
    assert!(p.get(&pt, "x").is_empty());
    assert_eq!(p.get_first(&pt, "y").as_deref(), Some("3"));
}

#[test]
fn attach_and_parent_child() {
    let mut pt = PointDexter::new();
    let parent = pt.point("T_Att_P");
    let child = pt.point("T_Att_C");
    parent.attach(&mut pt, &child).unwrap();
    assert_eq!(child.parent(&pt), Some(parent.clone()));
    assert!(parent.children(&pt).contains(&child));
}

#[test]
fn detach() {
    let mut pt = PointDexter::new();
    let parent = pt.point("T_Det_P");
    let child = pt.point("T_Det_C");
    parent.attach(&mut pt, &child).unwrap();
    child.detach(&mut pt);
    assert!(child.parent(&pt).is_none());
    assert!(!parent.children(&pt).contains(&child));
}

#[test]
fn reparent_removes_from_old_parent() {
    let mut pt = PointDexter::new();
    let p1 = pt.point("T_Repar_P1");
    let p2 = pt.point("T_Repar_P2");
    let c = pt.point("T_Repar_C");
    p1.attach(&mut pt, &c).unwrap();
    p2.attach(&mut pt, &c).unwrap(); // re-parents c to p2
    assert!(!p1.children(&pt).contains(&c));
    assert!(p2.children(&pt).contains(&c));
    assert_eq!(c.parent(&pt), Some(p2.clone()));
}

#[test]
fn self_attach_error() {
    let mut pt = PointDexter::new();
    let a = pt.point("T_SelfAtt");
    assert_eq!(a.attach(&mut pt, &a), Err(AttachError::SelfAttach));
}

#[test]
fn cycle_detection() {
    let mut pt = PointDexter::new();
    let a = pt.point("T_Cycle_A");
    let b = pt.point("T_Cycle_B");
    let c = pt.point("T_Cycle_C");
    a.attach(&mut pt, &b).unwrap();
    b.attach(&mut pt, &c).unwrap();
    // Attaching a under c would make c an ancestor of itself.
    assert_eq!(c.attach(&mut pt, &a), Err(AttachError::WouldCycle));
    // Tree structure must be unchanged.
    assert_eq!(b.parent(&pt), Some(a.clone()));
    assert_eq!(c.parent(&pt), Some(b.clone()));
}

#[test]
fn stable_identity_after_reparent() {
    let mut pt = PointDexter::new();
    let p1 = pt.point("T_StableId_P1");
    let p2 = pt.point("T_StableId_P2");
    let c = pt.point("T_StableId_C");
    c.insert(&mut pt, "city", "Bangalore");
    p1.attach(&mut pt, &c).unwrap();
    let handle_before = c.clone();
    p2.attach(&mut pt, &c).unwrap();
    assert_eq!(
        pt.get("T_StableId_C"),
        Some(handle_before),
        "the point must keep its identity"
    );
    assert_eq!(c.get_first(&pt, "city").as_deref(), Some("Bangalore"));
}

#[test]
fn global_search_finds_all_points() {
    let mut pt = PointDexter::new();
    let u = pt.point("T_GSrch_U");
    let a = pt.point("T_GSrch_A");
    u.insert(&mut pt, "email", "john@example.com");
    a.insert(&mut pt, "email", "alice@example.com");
    let results = pt.search("email");
    let values: Vec<_> = results.iter().map(|(_, v)| v.as_str()).collect();
    assert!(values.contains(&"john@example.com"));
    assert!(values.contains(&"alice@example.com"));
}

#[test]
fn scoped_search_only_subtree() {
    let mut pt = PointDexter::new();
    let u = pt.point("T_SSrch_U");
    let a = pt.point("T_SSrch_A");
    u.insert(&mut pt, "name", "John");
    a.insert(&mut pt, "name", "Alice");
    let results = u.search(&pt, "name");
    assert_eq!(results.len(), 1);
    assert_eq!(results[0].1, "John");
}

#[test]
fn scoped_search_includes_all_descendants() {
    let mut pt = PointDexter::new();
    let root = pt.point("T_Deep_R");
    let child = pt.point("T_Deep_C");
    let grandch = pt.point("T_Deep_G");
    root.attach(&mut pt, &child).unwrap();
    child.attach(&mut pt, &grandch).unwrap();
    root.insert(&mut pt, "x", "r");
    child.insert(&mut pt, "x", "c");
    grandch.insert(&mut pt, "x", "g");
    let results = root.search(&pt, "x");
    assert_eq!(results.len(), 3);
}

#[test]
fn direct_lookup_via_tree_get() {
    let mut pt = PointDexter::new();
    let u = pt.point("T_DLookup");
    u.insert(&mut pt, "age", "24");
    let age = pt.get("T_DLookup").and_then(|p| p.get_first(&pt, "age"));
    assert_eq!(age.as_deref(), Some("24"));
}

#[test]
fn delete_key_leaves_others() {
    let mut pt = PointDexter::new();
    let p = pt.point("T_DelKey");
    p.insert(&mut pt, "name", "John");
    p.insert(&mut pt, "age", "24");
    p.purge_key(&mut pt, "age");
    assert!(p.get(&pt, "age").is_empty());
    assert_eq!(p.get_first(&pt, "name").as_deref(), Some("John"));
}

#[test]
fn delete_point_removes_entire_subtree() {
    let mut pt = PointDexter::new();
    let u = pt.point("T_DelPt_U");
    let pr = pt.point("T_DelPt_Pr");
    let s = pt.point("T_DelPt_S");
    u.attach(&mut pt, &pr).unwrap();
    pr.attach(&mut pt, &s).unwrap();
    s.insert(&mut pt, "theme", "Dark");

    pt.purge_point("T_DelPt_Pr");

    assert!(pt.get("T_DelPt_Pr").is_none(), "Profile must be gone");
    assert!(pt.get("T_DelPt_S").is_none(), "Settings must be gone");
    assert!(u.children(&pt).is_empty(), "Users must have no children");
}

#[test]
fn delete_root_of_deep_subtree() {
    let mut pt = PointDexter::new();
    let names: Vec<String> = (0..50).map(|i| format!("T_Deep50_{}", i)).collect();
    let points: Vec<Point> = names.iter().map(|n| pt.point(n.as_str())).collect();
    for i in 1..50 {
        points[i - 1].attach(&mut pt, &points[i]).unwrap();
    }
    pt.purge_point(&names[0]);
    for n in &names {
        assert!(pt.get(n).is_none(), "{n} should be deleted");
    }
}

#[test]
fn roots_returns_only_parentless_points() {
    let mut pt = PointDexter::new();
    let r = pt.point("T_Roots_R");
    let c = pt.point("T_Roots_C");
    r.attach(&mut pt, &c).unwrap();
    let roots = pt.roots();
    assert!(roots.contains(&r));
    assert!(!roots.contains(&c));
}

#[test]
fn best_effort_traversal_visits_all() {
    let mut pt = PointDexter::new();
    pt.point("T_BETrav_A");
    pt.point("T_BETrav_B");
    let mut seen = Vec::new();
    pt.iter_lockfree(|p| seen.push(p.name(&pt).to_owned()));
    assert!(seen.contains(&"T_BETrav_A".to_owned()));
    assert!(seen.contains(&"T_BETrav_B".to_owned()));
}

#[test]
fn sync_traversal_visits_all() {
    let mut pt = PointDexter::new();
    pt.point("T_SyncTr_A");
    pt.point("T_SyncTr_B");
    let mut seen = Vec::new();
    pt.iter(|p| seen.push(p.name(&pt).to_owned()));
    assert!(seen.contains(&"T_SyncTr_A".to_owned()));
    assert!(seen.contains(&"T_SyncTr_B".to_owned()));
}
