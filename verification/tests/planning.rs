//! Tests for build planning: set expansion, cycle detection, topological
//! ordering, tree hashes, and change detection.

use bx::definition::Definition;
use bx::graph::topo_sort;
use bx::plan::{build_set, needs_build, BuildError, BuildRecord, PlanEntry};
use bx::store::{find, find_index, parse_all, StoreError};

fn def(name: &str, body: &str) -> Definition {
    Definition::parse(format!("/defs/{name}.box"), body).expect("definition should parse")
}

fn names_in_order(store: &Vec<Definition>, plan: &Vec<PlanEntry>) -> Vec<String> {
    plan.iter().map(|e| store[e.index].name()).collect()
}

#[test]
fn requested_set_expands_to_dependencies() {
    // Building {B} without the all flag must pull in A and build it first.
    let store = vec![
        def("a", "#!/bin/sh\necho a\n"),
        def("b", "#!/bin/sh\n#~ depends_on = [\"a\"]\necho b\n"),
    ];
    let plan = build_set(&store, &vec!["b".to_owned()], false, false, &Vec::new())
        .expect("plan should succeed");
    assert_eq!(names_in_order(&store, &plan), vec!["a".to_owned(), "b".to_owned()]);
    assert!(plan.iter().all(|e| e.build));
}

#[test]
fn order_respects_every_edge() {
    let store = vec![
        def("app", "#!/bin/sh\n#~ depends_on = [\"lib\", \"rt\"]\n"),
        def("lib", "#!/bin/sh\n#~ depends_on = [\"rt\"]\n"),
        def("rt", "#!/bin/sh\necho rt\n"),
    ];
    let plan = build_set(&store, &Vec::new(), true, false, &Vec::new())
        .expect("plan should succeed");
    let order = names_in_order(&store, &plan);
    let pos = |n: &str| order.iter().position(|x| x == n).unwrap();
    assert_eq!(order.len(), 3);
    assert!(pos("rt") < pos("lib"));
    assert!(pos("lib") < pos("app"));
    assert!(pos("rt") < pos("app"));
}

#[test]
fn two_node_cycle_is_detected() {
    let store = vec![
        def("a", "#!/bin/sh\n#~ depends_on = [\"b\"]\n"),
        def("b", "#!/bin/sh\n#~ depends_on = [\"a\"]\n"),
    ];
    let err = build_set(&store, &Vec::new(), true, false, &Vec::new()).unwrap_err();
    match err {
        // The reported name must belong to the cycle.
        BuildError::Cycle { name } => assert!(name == "a" || name == "b"),
        other => panic!("expected a cycle, got {other:?}"),
    }
}

#[test]
fn self_dependency_is_detected_as_cycle() {
    let store = vec![def("a", "#!/bin/sh\n#~ depends_on = [\"a\"]\n")];
    let err = build_set(&store, &Vec::new(), true, false, &Vec::new()).unwrap_err();
    match err {
        BuildError::Cycle { name } => assert_eq!(name, "a"),
        other => panic!("expected a cycle, got {other:?}"),
    }
}

#[test]
fn leaf_tree_hash_equals_own_hash() {
    let store = vec![
        def("leaf", "#!/bin/sh\necho leaf\n"),
        def("top", "#!/bin/sh\n#~ depends_on = [\"leaf\"]\n"),
    ];
    let plan = build_set(&store, &Vec::new(), true, false, &Vec::new())
        .expect("plan should succeed");
    for e in &plan {
        if store[e.index].name() == "leaf" {
            assert_eq!(e.tree, store[e.index].hash);
        }
    }
}

#[test]
fn tree_hash_combines_dependency_hashes() {
    let store = vec![
        def("a", "#!/bin/sh\necho a\n"),
        def("b", "#!/bin/sh\n#~ depends_on = [\"a\"]\necho b\n"),
    ];
    let plan = build_set(&store, &Vec::new(), true, false, &Vec::new())
        .expect("plan should succeed");
    let a = &store[plan.iter().find(|e| store[e.index].name() == "a").unwrap().index];
    let b_entry = plan.iter().find(|e| store[e.index].name() == "b").unwrap();
    let b = &store[b_entry.index];
    assert_ne!(a.hash, b.hash);
    assert_eq!(b_entry.tree, b.hash ^ a.hash);
}

#[test]
fn leaf_change_propagates_to_dependents_only() {
    let before = vec![
        def("a", "#!/bin/sh\necho a v1\n"),
        def("b", "#!/bin/sh\n#~ depends_on = [\"a\"]\necho b\n"),
        def("c", "#!/bin/sh\necho c\n"),
    ];
    let after = vec![
        def("a", "#!/bin/sh\necho a v2\n"),
        def("b", "#!/bin/sh\n#~ depends_on = [\"a\"]\necho b\n"),
        def("c", "#!/bin/sh\necho c\n"),
    ];
    let p1 = build_set(&before, &Vec::new(), true, false, &Vec::new()).unwrap();
    let p2 = build_set(&after, &Vec::new(), true, false, &Vec::new()).unwrap();
    let tree_of = |store: &Vec<Definition>, plan: &Vec<PlanEntry>, n: &str| {
        plan.iter().find(|e| store[e.index].name() == n).unwrap().tree
    };
    // The edited leaf's own hash changes and reaches its dependent's tree.
    assert_ne!(before[0].hash, after[0].hash);
    assert_ne!(tree_of(&before, &p1, "a"), tree_of(&after, &p2, "a"));
    assert_ne!(tree_of(&before, &p1, "b"), tree_of(&after, &p2, "b"));
    // The untouched dependent keeps its own hash; the unrelated definition
    // keeps both hashes.
    assert_eq!(before[1].hash, after[1].hash);
    assert_eq!(before[2].hash, after[2].hash);
    assert_eq!(tree_of(&before, &p1, "c"), tree_of(&after, &p2, "c"));
}

fn record_for(d: &Definition, tree: u64) -> BuildRecord {
    BuildRecord { path: d.path.clone(), hash: d.hash, tree }
}

#[test]
fn matching_records_skip_builds() {
    let store = vec![
        def("a", "#!/bin/sh\necho a\n"),
        def("b", "#!/bin/sh\n#~ depends_on = [\"a\"]\necho b\n"),
    ];
    let fresh = build_set(&store, &Vec::new(), true, false, &Vec::new()).unwrap();
    let records: Vec<BuildRecord> = fresh
        .iter()
        .map(|e| record_for(&store[e.index], e.tree))
        .collect();
    let plan = build_set(&store, &Vec::new(), true, false, &records).unwrap();
    assert!(plan.iter().all(|e| !e.build));
}

#[test]
fn any_mismatch_triggers_a_build() {
    let d = def("a", "#!/bin/sh\necho a\n");
    // No record at all.
    assert!(needs_build(&Vec::new(), &d.path, d.hash, d.tree, false));
    // Exact match on both hashes skips.
    let exact = vec![record_for(&d, d.tree)];
    assert!(!needs_build(&exact, &d.path, d.hash, d.tree, false));
    // Only the tree hash differing (an unchanged leaf whose dependency
    // changed) still triggers a build.
    let stale_tree = vec![record_for(&d, d.tree ^ 1)];
    assert!(needs_build(&stale_tree, &d.path, d.hash, d.tree, false));
    // An own-hash mismatch triggers a build.
    let stale_own = vec![BuildRecord { path: d.path.clone(), hash: d.hash ^ 1, tree: d.tree }];
    assert!(needs_build(&stale_own, &d.path, d.hash, d.tree, false));
}

#[test]
fn force_dispatches_everything() {
    let store = vec![
        def("a", "#!/bin/sh\necho a\n"),
        def("b", "#!/bin/sh\n#~ depends_on = [\"a\"]\necho b\n"),
    ];
    let fresh = build_set(&store, &Vec::new(), true, false, &Vec::new()).unwrap();
    let records: Vec<BuildRecord> = fresh
        .iter()
        .map(|e| record_for(&store[e.index], e.tree))
        .collect();
    let plan = build_set(&store, &Vec::new(), true, true, &records).unwrap();
    assert!(plan.iter().all(|e| e.build));
}

#[test]
fn unknown_name_gets_a_suggestion() {
    // Requesting "foo" when only "food" exists names the miss and suggests
    // the close name.
    let store = vec![def("food", "#!/bin/sh\necho food\n")];
    match find(&store, "foo") {
        Err(StoreError::NotFound { name, suggestion }) => {
            assert_eq!(name, "foo");
            assert_eq!(suggestion.as_deref(), Some("food"));
        },
        other => panic!("expected a miss with a suggestion, got {other:?}"),
    }
    let err = build_set(&store, &vec!["foo".to_owned()], false, false, &Vec::new())
        .unwrap_err();
    match err {
        BuildError::NotFound { name, suggestion } => {
            assert_eq!(name, "foo");
            assert_eq!(suggestion.as_deref(), Some("food"));
        },
        other => panic!("expected a miss with a suggestion, got {other:?}"),
    }
}

#[test]
fn missing_dependency_is_reported() {
    let store = vec![def("b", "#!/bin/sh\n#~ depends_on = [\"ghost\"]\n")];
    let err = build_set(&store, &vec!["b".to_owned()], false, false, &Vec::new())
        .unwrap_err();
    match err {
        BuildError::NotFound { name, .. } => assert_eq!(name, "ghost"),
        other => panic!("expected a missing dependency, got {other:?}"),
    }
}

#[test]
fn empty_request_is_rejected() {
    let store = vec![def("a", "#!/bin/sh\necho a\n")];
    let err = build_set(&store, &Vec::new(), false, false, &Vec::new()).unwrap_err();
    assert!(matches!(err, BuildError::EmptySet));
    let err = build_set(&Vec::new(), &Vec::new(), true, false, &Vec::new()).unwrap_err();
    assert!(matches!(err, BuildError::EmptySet));
}

#[test]
fn duplicate_names_are_rejected() {
    let store = vec![
        def("a", "#!/bin/sh\necho one\n"),
        Definition::parse("/elsewhere/a.box".to_owned(), "#!/bin/sh\necho two\n").unwrap(),
    ];
    let err = build_set(&store, &Vec::new(), true, false, &Vec::new()).unwrap_err();
    match err {
        BuildError::DuplicateName { name } => assert_eq!(name, "a"),
        other => panic!("expected a duplicate, got {other:?}"),
    }
}

#[test]
fn topo_sort_orders_and_rejects() {
    // 0 -> 1 -> 2 with an extra 0 -> 2 edge.
    let edges = vec![(0usize, 1usize), (1, 2), (0, 2)];
    let order = topo_sort(3, &edges).expect("acyclic graph should sort");
    assert_eq!(order, vec![0, 1, 2]);
    // A two-cycle has no order.
    let cyclic = vec![(0usize, 1usize), (1, 0)];
    assert!(topo_sort(2, &cyclic).is_err());
    // A self-loop is a one-cycle.
    let selfloop = vec![(0usize, 0usize)];
    assert!(topo_sort(1, &selfloop).is_err());
}

#[test]
fn parse_all_aggregates_failures() {
    let files = vec![
        ("/defs/good.box".to_owned(), "#!/bin/sh\necho ok\n".to_owned()),
        ("/defs/empty.box".to_owned(), String::new()),
        ("/defs/bad.box".to_owned(), "#!/bin/sh\n#~ depends_on = 7\n".to_owned()),
    ];
    match parse_all(files) {
        Err(StoreError::ParseFailures { failures }) => {
            let paths: Vec<&str> = failures.iter().map(|f| f.0.as_str()).collect();
            assert_eq!(paths, vec!["/defs/empty.box", "/defs/bad.box"]);
        },
        other => panic!("expected aggregated failures, got {other:?}"),
    }
    let ok = parse_all(vec![
        ("/defs/one.box".to_owned(), "#!/bin/sh\necho 1\n".to_owned()),
        ("/defs/two.box".to_owned(), "#!/bin/sh\necho 2\n".to_owned()),
    ])
    .expect("all files parse");
    assert_eq!(ok.len(), 2);
    assert_eq!(find_index(&ok, "two"), Some(1));
}

#[test]
fn dispatch_strings_carry_identity() {
    let d = def("dev", "#!/bin/sh\necho dev\n");
    let tree = d.hash ^ 0x1234;
    let anns = bx::plan::containerfile_annotations(&d, tree);
    assert_eq!(anns[0], format!("box.path={}", d.path));
    assert_eq!(anns[1], "box.name=dev");
    assert_eq!(anns[2], format!("box.hash={}", bx::hashing::hex64(d.hash)));
    assert_eq!(anns[3], format!("box.tree={}", bx::hashing::hex64(tree)));
    let env = bx::plan::build_env(&d, tree);
    assert_eq!(env[0], ("__BOX_BUILD_PATH".to_owned(), d.path.clone()));
    assert_eq!(env[1], ("__BOX_BUILD_DIR".to_owned(), "/defs".to_owned()));
    assert_eq!(env[2], ("__BOX_BUILD_HASH".to_owned(), bx::hashing::hex64(d.hash)));
    assert_eq!(env[3], ("__BOX_BUILD_TREE".to_owned(), bx::hashing::hex64(tree)));
    assert_eq!(env[4], ("__BOX_BUILD_NAME".to_owned(), "dev".to_owned()));
}
