use pointdexter::prelude::{AttachError, PointDexter};

fn pairs(v: &[(&str, &str)]) -> Vec<(String, String)> {
    v.iter().map(|(a, b)| (a.to_string(), b.to_string())).collect()
}

#[test]
fn entries_sorted_by_key_then_insertion() {
    let mut pt = PointDexter::new();
    let p = pt.point("E_Sorted");
    p.insert(&mut pt, "b", "1");
    p.insert(&mut pt, "a", "2");
    p.insert(&mut pt, "b", "3");
    p.insert(&mut pt, "a", "4");
    assert_eq!(
        p.entries(&pt),
        pairs(&[("a", "2"), ("a", "4"), ("b", "1"), ("b", "3")])
    );
}

#[test]
fn entries_order_by_code_point_with_prefixes_first() {
    let mut pt = PointDexter::new();
    let p = pt.point("E_CodePoint");
    for k in ["é", "b", "ab", "a", "Z"] {
        p.insert(&mut pt, k, "v");
    }
    let keys: Vec<String> = p.entries(&pt).into_iter().map(|(k, _)| k).collect();
    assert_eq!(keys, vec!["Z", "a", "ab", "b", "é"]);
}

#[test]
fn get_keeps_insertion_order_and_exact_key() {
    let mut pt = PointDexter::new();
    let p = pt.point("E_Order");
    p.insert(&mut pt, "tag", "c");
    p.insert(&mut pt, "tagged", "x");
    p.insert(&mut pt, "ta", "y");
    p.insert(&mut pt, "tag", "a");
    p.insert(&mut pt, "tag", "b");
    assert_eq!(p.get(&pt, "tag"), vec!["c", "a", "b"]);
    assert_eq!(p.get(&pt, "ta"), vec!["y"]);
    assert_eq!(p.get_first(&pt, "tag").as_deref(), Some("c"));
    assert!(p.get(&pt, "t").is_empty());
}

#[test]
fn purge_key_keeps_neighbouring_keys() {
    let mut pt = PointDexter::new();
    let p = pt.point("E_PurgeNeighbours");
    p.insert(&mut pt, "k", "1");
    p.insert(&mut pt, "ka", "2");
    p.insert(&mut pt, "j", "3");
    p.insert(&mut pt, "k", "4");
    p.purge_key(&mut pt, "k");
    assert_eq!(p.entries(&pt), pairs(&[("j", "3"), ("ka", "2")]));
    p.purge_key(&mut pt, "missing");
    assert_eq!(p.entries(&pt), pairs(&[("j", "3"), ("ka", "2")]));
}

#[test]
fn insert_after_purge_key_reads_only_new_values() {
    let mut pt = PointDexter::new();
    let p = pt.point("E_Reinsert");
    p.insert(&mut pt, "k", "old");
    p.purge_key(&mut pt, "k");
    p.insert(&mut pt, "k", "new");
    assert_eq!(p.get(&pt, "k"), vec!["new"]);
}

#[test]
fn point_reuses_existing_name() {
    let mut pt = PointDexter::new();
    let a = pt.point("E_Reuse");
    a.insert(&mut pt, "k", "v");
    let b = pt.point("E_Reuse");
    assert_eq!(a, b);
    assert_eq!(b.get(&pt, "k"), vec!["v"]);
    let other = pt.point("E_Other");
    assert_ne!(a, other);
    assert_eq!(other.name(&pt), "E_Other");
}

#[test]
fn default_registry_is_empty() {
    let pt = PointDexter::default();
    assert!(pt.get("anything").is_none());
    assert!(pt.roots().is_empty());
    assert!(pt.search("k").is_empty());
}

#[test]
fn purge_point_unknown_name_changes_nothing() {
    let mut pt = PointDexter::new();
    let a = pt.point("E_Keep");
    pt.purge_point("E_NotThere");
    assert_eq!(pt.get("E_Keep"), Some(a));
}

#[test]
fn purge_point_twice_is_harmless() {
    let mut pt = PointDexter::new();
    let a = pt.point("E_Twice");
    let b = pt.point("E_Twice_Child");
    a.attach(&mut pt, &b).unwrap();
    pt.purge_point("E_Twice");
    pt.purge_point("E_Twice");
    assert!(pt.get("E_Twice").is_none());
    assert!(pt.get("E_Twice_Child").is_none());
}

#[test]
fn purge_point_unlists_it_from_its_parent_and_keeps_siblings() {
    let mut pt = PointDexter::new();
    let root = pt.point("E_P_Root");
    let a = pt.point("E_P_A");
    let b = pt.point("E_P_B");
    let a1 = pt.point("E_P_A1");
    root.attach(&mut pt, &a).unwrap();
    root.attach(&mut pt, &b).unwrap();
    a.attach(&mut pt, &a1).unwrap();
    pt.purge_point("E_P_A");
    assert_eq!(root.children(&pt), vec![b]);
    assert_eq!(b.parent(&pt), Some(root));
    assert!(pt.get("E_P_A1").is_none());
    assert!(pt.get("E_P_B").is_some());
}

#[test]
fn purged_handle_keeps_its_entries_and_name_can_be_reused() {
    let mut pt = PointDexter::new();
    let old = pt.point("E_Stale");
    old.insert(&mut pt, "k", "v");
    pt.purge_point("E_Stale");
    assert_eq!(old.get(&pt, "k"), vec!["v"]);
    assert!(old.parent(&pt).is_none());
    let fresh = pt.point("E_Stale");
    assert_ne!(fresh, old);
    assert!(fresh.get(&pt, "k").is_empty());
}

#[test]
fn reattach_to_same_parent_is_fine() {
    let mut pt = PointDexter::new();
    let p = pt.point("E_Same_P");
    let c = pt.point("E_Same_C");
    p.attach(&mut pt, &c).unwrap();
    p.attach(&mut pt, &c).unwrap();
    assert_eq!(p.children(&pt), vec![c]);
    assert_eq!(c.parent(&pt), Some(p));
}

#[test]
fn detach_without_parent_changes_nothing() {
    let mut pt = PointDexter::new();
    let c = pt.point("E_Lonely");
    c.detach(&mut pt);
    assert!(c.parent(&pt).is_none());
    assert!(pt.roots().contains(&c));
}

#[test]
fn cycle_refused_at_every_depth() {
    let mut pt = PointDexter::new();
    let a = pt.point("E_Cyc_A");
    let b = pt.point("E_Cyc_B");
    let c = pt.point("E_Cyc_C");
    let d = pt.point("E_Cyc_D");
    a.attach(&mut pt, &b).unwrap();
    b.attach(&mut pt, &c).unwrap();
    c.attach(&mut pt, &d).unwrap();
    assert_eq!(d.attach(&mut pt, &a), Err(AttachError::WouldCycle));
    assert_eq!(b.attach(&mut pt, &a), Err(AttachError::WouldCycle));
    assert_eq!(d.attach(&mut pt, &c), Err(AttachError::WouldCycle));
    // moving a point further down its own line is fine
    b.attach(&mut pt, &d).unwrap();
    assert_eq!(d.parent(&pt), Some(b));
    assert!(!c.children(&pt).contains(&d));
}

#[test]
fn attach_error_messages() {
    assert_eq!(
        AttachError::SelfAttach.to_string(),
        "AttachError: cannot attach a Point to itself"
    );
    assert_eq!(
        AttachError::WouldCycle.to_string(),
        "AttachError: attachment would point a cycle"
    );
}

#[test]
fn parent_links_and_child_lists_agree() {
    let mut pt = PointDexter::new();
    let p = pt.point("E_Agree_P");
    let q = pt.point("E_Agree_Q");
    let c = pt.point("E_Agree_C");
    for step in 0..6 {
        match step % 3 {
            0 => p.attach(&mut pt, &c).unwrap(),
            1 => q.attach(&mut pt, &c).unwrap(),
            _ => c.detach(&mut pt),
        }
        for par in [p, q] {
            assert_eq!(c.parent(&pt) == Some(par), par.children(&pt).contains(&c));
        }
    }
}

#[test]
fn roots_are_the_parentless_points() {
    let mut pt = PointDexter::new();
    let r = pt.point("E_Roots_R");
    let c = pt.point("E_Roots_C");
    let g = pt.point("E_Roots_G");
    r.attach(&mut pt, &c).unwrap();
    c.attach(&mut pt, &g).unwrap();
    let mut roots = pt.roots();
    roots.sort_by_key(|p| p.name(&pt).to_owned());
    assert_eq!(roots, vec![r]);
    c.detach(&mut pt);
    let roots = pt.roots();
    assert_eq!(roots.len(), 2);
    assert!(roots.contains(&r) && roots.contains(&c));
}

#[test]
fn global_search_lists_every_value_of_every_point() {
    let mut pt = PointDexter::new();
    let a = pt.point("E_GS_A");
    let b = pt.point("E_GS_B");
    a.insert(&mut pt, "k", "1");
    a.insert(&mut pt, "k", "2");
    b.insert(&mut pt, "k", "3");
    b.insert(&mut pt, "other", "4");
    let mut found = pt.search("k");
    found.sort();
    assert_eq!(found, pairs(&[("E_GS_A", "1"), ("E_GS_A", "2"), ("E_GS_B", "3")]));
}

#[test]
fn scoped_search_starts_at_the_point_and_keeps_value_order() {
    let mut pt = PointDexter::new();
    let root = pt.point("E_SS_R");
    let kid = pt.point("E_SS_K");
    let outside = pt.point("E_SS_O");
    root.attach(&mut pt, &kid).unwrap();
    root.insert(&mut pt, "k", "r1");
    root.insert(&mut pt, "k", "r2");
    kid.insert(&mut pt, "k", "k1");
    outside.insert(&mut pt, "k", "o1");
    let found = root.search(&pt, "k");
    assert_eq!(found, pairs(&[("E_SS_R", "r1"), ("E_SS_R", "r2"), ("E_SS_K", "k1")]));
    assert_eq!(kid.search(&pt, "k"), pairs(&[("E_SS_K", "k1")]));
}

#[test]
fn drawing_of_a_chain() {
    let mut pt = PointDexter::new();
    let r = pt.point("R");
    let c = pt.point("C");
    r.attach(&mut pt, &c).unwrap();
    r.insert(&mut pt, "k", "v");
    c.insert(&mut pt, "y", "2");
    c.insert(&mut pt, "x", "1");
    assert_eq!(
        r.to_string(&pt),
        "R\n├── k = v\n    C\n    ├── x = 1\n    ├── y = 2\n"
    );
    assert_eq!(c.to_string(&pt), "C\n├── x = 1\n├── y = 2\n");
}

#[test]
fn entries_survive_reparenting_and_detaching() {
    let mut pt = PointDexter::new();
    let p1 = pt.point("E_Surv_P1");
    let p2 = pt.point("E_Surv_P2");
    let c = pt.point("E_Surv_C");
    c.insert(&mut pt, "a", "1");
    p1.attach(&mut pt, &c).unwrap();
    p2.attach(&mut pt, &c).unwrap();
    c.detach(&mut pt);
    assert_eq!(c.entries(&pt), pairs(&[("a", "1")]));
}

#[test]
fn purge_then_recreate_gives_a_fresh_point() {
    let mut pt = PointDexter::new();
    let p = pt.point("E_Rec_P");
    let c = pt.point("E_Rec_C");
    c.insert(&mut pt, "k", "v");
    p.attach(&mut pt, &c).unwrap();
    pt.purge_point("E_Rec_C");
    let c2 = pt.point("E_Rec_C");
    assert_ne!(c2, c);
    assert!(c2.parent(&pt).is_none());
    assert!(c2.entries(&pt).is_empty());
    assert!(!p.children(&pt).contains(&c2));
    assert_eq!(pt.get("E_Rec_P"), Some(p));
}

#[test]
fn roots_searches_add_up_to_the_global_search() {
    let mut pt = PointDexter::new();
    let a = pt.point("E_Part_A");
    let b = pt.point("E_Part_B");
    let a1 = pt.point("E_Part_A1");
    let b1 = pt.point("E_Part_B1");
    a.attach(&mut pt, &a1).unwrap();
    b.attach(&mut pt, &b1).unwrap();
    for (p, v) in [(a, "1"), (a1, "2"), (b, "3"), (b1, "4")] {
        p.insert(&mut pt, "k", v);
    }
    let mut from_roots: Vec<(String, String)> = Vec::new();
    for r in pt.roots() {
        from_roots.extend(r.search(&pt, "k"));
    }
    let mut global = pt.search("k");
    from_roots.sort();
    global.sort();
    assert_eq!(from_roots, global);
    assert_eq!(global.len(), 4);
}

#[test]
fn entries_show_each_key_as_get_does() {
    let mut pt = PointDexter::new();
    let p = pt.point("E_EntGet");
    for (k, v) in [("host", "a"), ("hostname", "b"), ("host", "c"), ("alias", "d"), ("host", "e")] {
        p.insert(&mut pt, k, v);
    }
    let entries = p.entries(&pt);
    for key in ["host", "hostname", "alias", "missing"] {
        let listed: Vec<String> = entries
            .iter()
            .filter(|(k, _)| k == key)
            .map(|(_, v)| v.clone())
            .collect();
        assert_eq!(listed, p.get(&pt, key));
    }
}

#[test]
fn get_after_a_history_of_writes() {
    let mut pt = PointDexter::new();
    let p = pt.point("E_History");
    p.insert(&mut pt, "host", "localhost");
    p.insert(&mut pt, "hostname", "box");
    p.insert(&mut pt, "host", "127.0.0.1");
    assert_eq!(p.get(&pt, "host"), vec!["localhost", "127.0.0.1"]);
    p.purge_key(&mut pt, "host");
    p.insert(&mut pt, "host", "::1");
    p.purge_key(&mut pt, "other");
    assert_eq!(p.get(&pt, "host"), vec!["::1"]);
    assert_eq!(p.get(&pt, "hostname"), vec!["box"]);
}

#[test]
fn drawing_keeps_each_subtree_together() {
    let mut pt = PointDexter::new();
    let r = pt.point("R2");
    let a = pt.point("A");
    let a1 = pt.point("A1");
    let b = pt.point("B");
    r.attach(&mut pt, &a).unwrap();
    r.attach(&mut pt, &b).unwrap();
    a.attach(&mut pt, &a1).unwrap();
    let text = r.to_string(&pt);
    let with_a_first = "R2\n    A\n        A1\n    B\n";
    let with_b_first = "R2\n    B\n    A\n        A1\n";
    assert!(text == with_a_first || text == with_b_first, "{text}");
}

#[test]
fn points_lists_every_registered_point_once() {
    let mut pt = PointDexter::new();
    let a = pt.point("E_Pts_A");
    let b = pt.point("E_Pts_B");
    let c = pt.point("E_Pts_C");
    a.attach(&mut pt, &b).unwrap();
    pt.purge_point("E_Pts_C");
    let mut names: Vec<String> = pt.points().iter().map(|p| p.name(&pt).to_owned()).collect();
    names.sort();
    assert_eq!(names, vec!["E_Pts_A".to_string(), "E_Pts_B".to_string()]);
    assert!(!pt.points().contains(&c));
    let mut calls = 0;
    pt.iter(|_| calls += 1);
    assert_eq!(calls, 2);
}
