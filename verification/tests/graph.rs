use base_db::CfgOptions;
use base_db::CrateDisplayName;
use base_db::CrateGraph;
use base_db::CrateId;
use base_db::CrateName;
use base_db::Dependency;
use base_db::Edition::Edition2018;
use base_db::Env;
use base_db::FileId;

fn add_unit(graph: &mut CrateGraph, file: u32) -> CrateId {
    graph.add_crate_root(
        FileId(file),
        Edition2018,
        None,
        CfgOptions::default(),
        CfgOptions::default(),
        Env::default(),
        Default::default(),
    )
}

#[test]
fn detect_cyclic_dependency_indirect() {
    let mut graph = CrateGraph::default();
    let crate1 = graph.add_crate_root(
        FileId(1u32),
        Edition2018,
        None,
        CfgOptions::default(),
        CfgOptions::default(),
        Env::default(),
        Default::default(),
    );
    let crate2 = graph.add_crate_root(
        FileId(2u32),
        Edition2018,
        None,
        CfgOptions::default(),
        CfgOptions::default(),
        Env::default(),
        Default::default(),
    );
    let crate3 = graph.add_crate_root(
        FileId(3u32),
        Edition2018,
        None,
        CfgOptions::default(),
        CfgOptions::default(),
        Env::default(),
        Default::default(),
    );
    assert!(graph.add_dep(crate1, CrateName::new("crate2").unwrap(), crate2).is_ok());
    assert!(graph.add_dep(crate2, CrateName::new("crate3").unwrap(), crate3).is_ok());
    assert!(graph.add_dep(crate3, CrateName::new("crate1").unwrap(), crate1).is_err());
}

#[test]
fn detect_cyclic_dependency_direct() {
    let mut graph = CrateGraph::default();
    let crate1 = graph.add_crate_root(
        FileId(1u32),
        Edition2018,
        None,
        CfgOptions::default(),
        CfgOptions::default(),
        Env::default(),
        Default::default(),
    );
    let crate2 = graph.add_crate_root(
        FileId(2u32),
        Edition2018,
        None,
        CfgOptions::default(),
        CfgOptions::default(),
        Env::default(),
        Default::default(),
    );
    assert!(graph.add_dep(crate1, CrateName::new("crate2").unwrap(), crate2).is_ok());
    assert!(graph.add_dep(crate2, CrateName::new("crate2").unwrap(), crate2).is_err());
}

#[test]
fn it_works() {
    let mut graph = CrateGraph::default();
    let crate1 = graph.add_crate_root(
        FileId(1u32),
        Edition2018,
        None,
        CfgOptions::default(),
        CfgOptions::default(),
        Env::default(),
        Default::default(),
    );
    let crate2 = graph.add_crate_root(
        FileId(2u32),
        Edition2018,
        None,
        CfgOptions::default(),
        CfgOptions::default(),
        Env::default(),
        Default::default(),
    );
    let crate3 = graph.add_crate_root(
        FileId(3u32),
        Edition2018,
        None,
        CfgOptions::default(),
        CfgOptions::default(),
        Env::default(),
        Default::default(),
    );
    assert!(graph.add_dep(crate1, CrateName::new("crate2").unwrap(), crate2).is_ok());
    assert!(graph.add_dep(crate2, CrateName::new("crate3").unwrap(), crate3).is_ok());
}

#[test]
fn dashes_are_normalized() {
    let mut graph = CrateGraph::default();
    let crate1 = graph.add_crate_root(
        FileId(1u32),
        Edition2018,
        None,
        CfgOptions::default(),
        CfgOptions::default(),
        Env::default(),
        Default::default(),
    );
    let crate2 = graph.add_crate_root(
        FileId(2u32),
        Edition2018,
        None,
        CfgOptions::default(),
        CfgOptions::default(),
        Env::default(),
        Default::default(),
    );
    assert!(graph
        .add_dep(crate1, CrateName::normalize_dashes("crate-name-with-dashes"), crate2)
        .is_ok());
    assert_eq!(
        graph.crate_data(crate1).dependencies,
        vec![Dependency {
            crate_id: crate2,
            name: CrateName::new("crate_name_with_dashes").unwrap()
        }]
    );
}

#[test]
fn cycle_error_names_both_endpoints() {
    // three units A, B, C: A -> B and B -> C succeed, C -> A closes a cycle
    let mut graph = CrateGraph::default();
    let a = add_unit(&mut graph, 1);
    let b = add_unit(&mut graph, 2);
    let c = add_unit(&mut graph, 3);
    assert!(graph.add_dep(a, CrateName::new("b").unwrap(), b).is_ok());
    assert!(graph.add_dep(b, CrateName::new("c").unwrap(), c).is_ok());
    let before = graph.clone();
    match graph.add_dep(c, CrateName::new("a").unwrap(), a) {
        Ok(()) => panic!("a cycle-closing edge must be rejected"),
        Err(err) => {
            assert_eq!(err.from.0, c);
            assert_eq!(err.to.0, a);
        }
    }
    // the rejected call left the graph unchanged
    assert_eq!(graph, before);

    let order = graph.crates_in_topological_order();
    let pos = |id: CrateId| order.iter().position(|&x| x == id).unwrap();
    assert!(pos(c) < pos(b));
    assert!(pos(b) < pos(a));
}

#[test]
fn crate_name_strict_rejects_dashes() {
    assert!(CrateName::new("crate-name-with-dashes").is_err());
    assert_eq!(CrateName::new("crate-name-with-dashes").unwrap_err(), "crate-name-with-dashes");
    let normalized = CrateName::normalize_dashes("crate-name-with-dashes");
    assert_eq!(normalized.as_str(), "crate_name_with_dashes");
    assert_eq!(CrateName::new("plain_name").unwrap().as_str(), "plain_name");
}

#[test]
fn transitive_deps_on_a_diamond() {
    let mut graph = CrateGraph::default();
    let top = add_unit(&mut graph, 1);
    let left = add_unit(&mut graph, 2);
    let right = add_unit(&mut graph, 3);
    let bottom = add_unit(&mut graph, 4);
    let lone = add_unit(&mut graph, 5);
    assert!(graph.add_dep(top, CrateName::new("left").unwrap(), left).is_ok());
    assert!(graph.add_dep(top, CrateName::new("right").unwrap(), right).is_ok());
    assert!(graph.add_dep(left, CrateName::new("bottom").unwrap(), bottom).is_ok());
    assert!(graph.add_dep(right, CrateName::new("bottom").unwrap(), bottom).is_ok());

    let mut deps: Vec<u32> = graph.transitive_deps(top).into_iter().map(|c| c.0).collect();
    deps.sort();
    assert_eq!(deps, vec![top.0, left.0, right.0, bottom.0]);

    let mut rev: Vec<u32> = graph.transitive_rev_deps(bottom).into_iter().map(|c| c.0).collect();
    rev.sort();
    assert_eq!(rev, vec![top.0, left.0, right.0, bottom.0]);

    let lone_deps: Vec<u32> = graph.transitive_deps(lone).into_iter().map(|c| c.0).collect();
    assert_eq!(lone_deps, vec![lone.0]);

    let edge_rev: Vec<u32> = graph.transitive_rev_deps(lone).into_iter().map(|c| c.0).collect();
    assert_eq!(edge_rev, vec![lone.0]);
}

#[test]
fn topological_order_is_a_permutation() {
    let mut graph = CrateGraph::default();
    let a = add_unit(&mut graph, 1);
    let b = add_unit(&mut graph, 2);
    let c = add_unit(&mut graph, 3);
    let d = add_unit(&mut graph, 4);
    assert!(graph.add_dep(a, CrateName::new("b").unwrap(), b).is_ok());
    assert!(graph.add_dep(a, CrateName::new("c").unwrap(), c).is_ok());
    assert!(graph.add_dep(b, CrateName::new("d").unwrap(), d).is_ok());
    assert!(graph.add_dep(c, CrateName::new("d").unwrap(), d).is_ok());

    let order = graph.crates_in_topological_order();
    let mut sorted: Vec<u32> = order.iter().map(|c| c.0).collect();
    sorted.sort();
    assert_eq!(sorted, vec![0, 1, 2, 3]);
    let pos = |id: CrateId| order.iter().position(|&x| x == id).unwrap();
    assert!(pos(d) < pos(b) && pos(d) < pos(c));
    assert!(pos(b) < pos(a) && pos(c) < pos(a));
}

#[test]
fn extend_shifts_identifiers() {
    let mut left = CrateGraph::default();
    let l1 = add_unit(&mut left, 1);
    let l2 = add_unit(&mut left, 2);
    assert!(left.add_dep(l1, CrateName::new("l2").unwrap(), l2).is_ok());

    let mut right = CrateGraph::default();
    let r1 = add_unit(&mut right, 10);
    let r2 = add_unit(&mut right, 20);
    assert!(right.add_dep(r1, CrateName::new("r2").unwrap(), r2).is_ok());

    let shift = left.extend(right);
    assert_eq!(shift, 2);
    let shifted_r1 = r1.shift(shift);
    let shifted_r2 = r2.shift(shift);
    assert_eq!(shifted_r1, CrateId(2));
    assert_eq!(left.crate_data(shifted_r1).root_file_id, FileId(10));
    assert_eq!(
        left.crate_data(shifted_r1).dependencies,
        vec![Dependency { crate_id: shifted_r2, name: CrateName::new("r2").unwrap() }]
    );
    // the original edge is untouched
    assert_eq!(
        left.crate_data(l1).dependencies,
        vec![Dependency { crate_id: l2, name: CrateName::new("l2").unwrap() }]
    );
}

#[test]
fn extend_is_associative_under_relabelling() {
    let build = |file: u32| {
        let mut g = CrateGraph::default();
        let x = add_unit(&mut g, file);
        let y = add_unit(&mut g, file + 1);
        assert!(g.add_dep(x, CrateName::new("y").unwrap(), y).is_ok());
        g
    };
    let (a1, b1, c1) = (build(1), build(10), build(20));
    let (a2, b2, c2) = (build(1), build(10), build(20));

    let mut left_first = a1;
    left_first.extend(b1);
    left_first.extend(c1);

    let mut right_first_tail = b2;
    right_first_tail.extend(c2);
    let mut right_first = a2;
    right_first.extend(right_first_tail);

    assert_eq!(left_first, right_first);
}

#[test]
fn crate_id_for_crate_root_finds_a_match() {
    let mut graph = CrateGraph::default();
    let _a = add_unit(&mut graph, 7);
    let b = add_unit(&mut graph, 9);
    assert_eq!(graph.crate_id_for_crate_root(FileId(9)), Some(b));
    assert_eq!(graph.crate_id_for_crate_root(FileId(3)), None);
}

#[test]
fn patch_cfg_if_rewires_the_two_units() {
    let mut graph = CrateGraph::default();
    let cfg_if = graph.add_crate_root(
        FileId(1),
        Edition2018,
        Some(CrateDisplayName::from_canonical_name("cfg-if".to_string())),
        CfgOptions::default(),
        CfgOptions::default(),
        Env::default(),
        Default::default(),
    );
    let std_unit = graph.add_crate_root(
        FileId(2),
        Edition2018,
        Some(CrateDisplayName::from_canonical_name("std".to_string())),
        CfgOptions::default(),
        CfgOptions::default(),
        Env::default(),
        Default::default(),
    );
    assert!(graph.add_dep(cfg_if, CrateName::new("std").unwrap(), std_unit).is_ok());

    assert!(graph.patch_cfg_if());
    assert!(graph.crate_data(cfg_if).dependencies.is_empty());
    assert_eq!(
        graph.crate_data(std_unit).dependencies,
        vec![Dependency { crate_id: cfg_if, name: CrateName::new("cfg_if").unwrap() }]
    );

    let mut nameless = CrateGraph::default();
    add_unit(&mut nameless, 1);
    let before = nameless.clone();
    assert!(!nameless.patch_cfg_if());
    assert_eq!(nameless, before);
}

#[test]
fn graph_iter_and_is_empty() {
    let mut graph = CrateGraph::default();
    assert!(graph.is_empty());
    let a = add_unit(&mut graph, 1);
    let b = add_unit(&mut graph, 2);
    assert!(!graph.is_empty());
    assert_eq!(graph.iter(), vec![a, b]);
}
