use base_db::CfgAtom;
use base_db::CfgDiff;
use base_db::CfgExpr;
use base_db::CfgOptions;
use base_db::InactiveReason;

fn flag(name: &str) -> CfgAtom {
    CfgAtom::Flag(name.to_string())
}

fn key_value(key: &str, value: &str) -> CfgAtom {
    CfgAtom::KeyValue { key: key.to_string(), value: value.to_string() }
}

#[test]
fn check_evaluates_atoms_and_connectives() {
    let mut opts = CfgOptions::default();
    opts.insert_atom("unix".to_string());
    opts.insert_key_value("feature".to_string(), "std".to_string());

    assert_eq!(opts.check(&CfgExpr::Atom(flag("unix"))), Some(true));
    assert_eq!(opts.check(&CfgExpr::Atom(flag("windows"))), Some(false));
    assert_eq!(opts.check(&CfgExpr::Atom(key_value("feature", "std"))), Some(true));
    assert_eq!(opts.check(&CfgExpr::Atom(key_value("feature", "alloc"))), Some(false));

    let both = CfgExpr::All(vec![
        CfgExpr::Atom(flag("unix")),
        CfgExpr::Atom(key_value("feature", "std")),
    ]);
    assert_eq!(opts.check(&both), Some(true));

    let either = CfgExpr::Any(vec![
        CfgExpr::Atom(flag("windows")),
        CfgExpr::Atom(flag("unix")),
    ]);
    assert_eq!(opts.check(&either), Some(true));

    let negated = CfgExpr::Not(Box::new(CfgExpr::Atom(flag("windows"))));
    assert_eq!(opts.check(&negated), Some(true));

    assert_eq!(opts.check(&CfgExpr::All(vec![])), Some(true));
    assert_eq!(opts.check(&CfgExpr::Any(vec![])), Some(false));
}

#[test]
fn check_has_no_verdict_on_invalid_nodes() {
    let opts = CfgOptions::default();
    assert_eq!(opts.check(&CfgExpr::Invalid), None);
    let buried = CfgExpr::All(vec![
        CfgExpr::Atom(flag("unix")),
        CfgExpr::Not(Box::new(CfgExpr::Invalid)),
    ]);
    assert_eq!(opts.check(&buried), None);
}

#[test]
fn check_is_deterministic_for_a_fixed_option_set() {
    let mut opts = CfgOptions::default();
    opts.insert_atom("test".to_string());
    let expr = CfgExpr::Any(vec![
        CfgExpr::Atom(flag("test")),
        CfgExpr::All(vec![CfgExpr::Atom(flag("other"))]),
    ]);
    let first = opts.check(&expr);
    let second = opts.check(&expr);
    assert_eq!(first, second);
    assert_eq!(first, Some(true));
}

#[test]
fn insert_atom_is_idempotent() {
    let mut opts = CfgOptions::default();
    opts.insert_atom("unix".to_string());
    opts.insert_atom("unix".to_string());
    assert!(opts.contains_atom(&flag("unix")));
    assert_eq!(opts.get_cfg_keys().len(), 1);
}

#[test]
fn diff_construction_rejects_duplicates() {
    assert!(CfgDiff::new(vec![flag("a")], vec![flag("a")]).is_none());
    assert!(CfgDiff::new(vec![flag("a"), flag("a")], vec![]).is_none());
    assert!(CfgDiff::new(vec![], vec![flag("b"), flag("b")]).is_none());
    assert!(CfgDiff::new(vec![flag("a")], vec![flag("b")]).is_some());
    assert!(CfgDiff::new(vec![], vec![]).is_some());
}

#[test]
fn diff_len_counts_both_lists() {
    let diff = CfgDiff::new(vec![flag("a"), flag("b")], vec![flag("c")]).unwrap();
    assert_eq!(diff.len(), 3);
}

#[test]
fn apply_diff_enables_then_disables() {
    let mut opts = CfgOptions::default();
    opts.insert_atom("keep".to_string());
    opts.insert_atom("drop".to_string());
    let diff = CfgDiff::new(vec![flag("new")], vec![flag("drop")]).unwrap();
    opts.apply_diff(diff);
    assert!(opts.contains_atom(&flag("keep")));
    assert!(opts.contains_atom(&flag("new")));
    assert!(!opts.contains_atom(&flag("drop")));
}

#[test]
fn apply_diff_twice_equals_applying_once() {
    let make = || {
        let mut opts = CfgOptions::default();
        opts.insert_atom("keep".to_string());
        opts.insert_atom("drop".to_string());
        opts
    };
    let diff = || CfgDiff::new(vec![flag("new"), flag("keep")], vec![flag("drop")]).unwrap();

    let mut once = make();
    once.apply_diff(diff());
    let mut twice = make();
    twice.apply_diff(diff());
    twice.apply_diff(diff());

    for atom in [flag("keep"), flag("drop"), flag("new"), flag("other")] {
        assert_eq!(once.contains_atom(&atom), twice.contains_atom(&atom));
    }
}

#[test]
fn cfg_keys_and_values_are_projected() {
    let mut opts = CfgOptions::default();
    opts.insert_atom("unix".to_string());
    opts.insert_key_value("feature".to_string(), "std".to_string());
    opts.insert_key_value("feature".to_string(), "alloc".to_string());

    let mut keys = opts.get_cfg_keys();
    keys.sort();
    assert_eq!(keys, vec!["feature".to_string(), "feature".to_string(), "unix".to_string()]);

    let mut values = opts.get_cfg_values("feature");
    values.sort();
    assert_eq!(values, vec!["alloc".to_string(), "std".to_string()]);
    assert!(opts.get_cfg_values("unix").is_empty());
}

#[test]
fn diff_description_lists_both_sides() {
    let diff = CfgDiff::new(
        vec![flag("foo"), flag("bar")],
        vec![key_value("feature", "std")],
    )
    .unwrap();
    assert_eq!(diff.describe(), "enable foo and bar; disable feature = \"std\"".to_string());

    let enable_only = CfgDiff::new(vec![flag("foo")], vec![]).unwrap();
    assert_eq!(enable_only.describe(), "enable foo".to_string());

    let empty = CfgDiff::new(vec![], vec![]).unwrap();
    assert_eq!(empty.describe(), "".to_string());
}

#[test]
fn inactive_reason_description_counts_atoms() {
    let single = InactiveReason::new(vec![flag("unix")], vec![]);
    assert_eq!(single.describe(), "unix is enabled".to_string());

    let both = InactiveReason::new(
        vec![flag("unix"), flag("test")],
        vec![key_value("feature", "std")],
    );
    assert_eq!(
        both.describe(),
        "unix and test are enabled and feature = \"std\" is disabled".to_string()
    );

    let disabled_only = InactiveReason::new(vec![], vec![flag("a"), flag("b")]);
    assert_eq!(disabled_only.describe(), "a and b are disabled".to_string());
}
