use base_db::CfgOptions;
use base_db::CrateDisplayName;
use base_db::CrateName;
use base_db::Edition;
use base_db::Change;
use base_db::CrateGraph;
use base_db::Durability;
use base_db::Edition::Edition2018;
use base_db::Env;
use base_db::FileId;
use base_db::FileSet;
use base_db::SourceDatabase;
use base_db::SourceRoot;
use base_db::SourceRootId;

#[test]
fn file_set_is_bidirectional() {
    let mut files = FileSet::default();
    assert!(files.insert(FileId(1), "lib.rs".to_string()));
    assert!(files.insert(FileId(2), "main.rs".to_string()));
    // neither an already-present file nor an already-taken path is accepted
    assert!(!files.insert(FileId(1), "other.rs".to_string()));
    assert!(!files.insert(FileId(3), "lib.rs".to_string()));

    assert_eq!(files.path_for_file(&FileId(1)), Some("lib.rs".to_string()));
    assert_eq!(files.path_for_file(&FileId(9)), None);
    assert_eq!(files.file_for_path(&"main.rs".to_string()), Some(FileId(2)));
    assert_eq!(files.file_for_path(&"gone.rs".to_string()), None);

    let mut members: Vec<u32> = files.iter().into_iter().map(|f| f.0).collect();
    members.sort();
    assert_eq!(members, vec![1, 2]);
}

#[test]
fn source_roots_carry_the_library_flag() {
    let mut files = FileSet::default();
    assert!(files.insert(FileId(1), "lib.rs".to_string()));
    let local = SourceRoot::new_local(files.clone());
    let library = SourceRoot::new_library(files);
    assert!(!local.is_library);
    assert!(library.is_library);
    assert_eq!(local.path_for_file(&FileId(1)), Some("lib.rs".to_string()));
    assert_eq!(library.file_for_path(&"lib.rs".to_string()), Some(FileId(1)));
    assert_eq!(local.iter(), vec![FileId(1)]);
}

#[test]
fn env_bindings_replace_earlier_ones() {
    let mut env = Env::default();
    env.set("OUT_DIR", "/tmp/one".to_string());
    env.set("CARGO", "cargo".to_string());
    env.set("OUT_DIR", "/tmp/two".to_string());
    assert_eq!(env.get("OUT_DIR"), Some("/tmp/two".to_string()));
    assert_eq!(env.get("CARGO"), Some("cargo".to_string()));
    assert_eq!(env.get("MISSING"), None);
    let mut pairs = env.iter();
    pairs.sort();
    assert_eq!(
        pairs,
        vec![
            ("CARGO".to_string(), "cargo".to_string()),
            ("OUT_DIR".to_string(), "/tmp/two".to_string()),
        ]
    );
}

#[test]
fn change_applies_roots_edits_and_graph_in_order() {
    // a Change carrying one new local source root containing a file, plus a
    // text edit for that file, lands in an empty store with the edited text
    // and low durability
    let file = FileId(42);
    let mut files = FileSet::default();
    assert!(files.insert(file, "lib.rs".to_string()));
    let root = SourceRoot::new_local(files);

    let mut graph = CrateGraph::default();
    graph.add_crate_root(
        file,
        Edition2018,
        None,
        CfgOptions::default(),
        CfgOptions::default(),
        Env::default(),
        Default::default(),
    );

    let mut change = Change::new();
    change.set_roots(vec![root]);
    change.change_file(file, Some("fn main() {}".to_string()));
    change.set_crate_graph(graph);

    let mut db = SourceDatabase::default();
    change.apply(&mut db);

    assert_eq!(db.file_text(file), &"fn main() {}".to_string());
    assert_eq!(db.file_source_root(file), SourceRootId(0));
    assert_eq!(db.file_text_durability(file), Some(Durability::Low));
    assert_eq!(db.file_source_root_durability(file), Some(Durability::Low));
    assert_eq!(db.source_root_durability(SourceRootId(0)), Some(Durability::Low));
    assert!(!db.source_root(SourceRootId(0)).is_library);
    assert!(db.crate_graph().is_some());
    assert_eq!(db.crate_graph_durability(), Some(Durability::High));
}

#[test]
fn library_roots_are_installed_at_high_durability() {
    let file = FileId(7);
    let mut files = FileSet::default();
    assert!(files.insert(file, "lib.rs".to_string()));
    let root = SourceRoot::new_library(files);

    let mut change = Change::new();
    change.set_roots(vec![root]);
    change.change_file(file, None);

    let mut db = SourceDatabase::default();
    change.apply(&mut db);

    // an absent text resets the file to empty
    assert_eq!(db.file_text(file), &String::new());
    assert_eq!(db.file_text_durability(file), Some(Durability::High));
    assert_eq!(db.source_root_durability(SourceRootId(0)), Some(Durability::High));
    assert!(db.crate_graph().is_none());
}

#[test]
fn later_edits_win_and_roots_are_numbered_densely() {
    let f1 = FileId(1);
    let f2 = FileId(2);
    let mut files1 = FileSet::default();
    assert!(files1.insert(f1, "a.rs".to_string()));
    let mut files2 = FileSet::default();
    assert!(files2.insert(f2, "b.rs".to_string()));

    let mut change = Change::new();
    change.set_roots(vec![SourceRoot::new_local(files1), SourceRoot::new_library(files2)]);
    change.change_file(f1, Some("one".to_string()));
    change.change_file(f2, Some("two".to_string()));
    change.change_file(f1, Some("three".to_string()));

    let mut db = SourceDatabase::default();
    change.apply(&mut db);

    assert_eq!(db.file_source_root(f1), SourceRootId(0));
    assert_eq!(db.file_source_root(f2), SourceRootId(1));
    assert_eq!(db.file_text(f1), &"three".to_string());
    assert_eq!(db.file_text(f2), &"two".to_string());
    assert_eq!(db.file_text_durability(f1), Some(Durability::Low));
    assert_eq!(db.file_text_durability(f2), Some(Durability::High));
}

#[test]
fn edition_strings_parse_and_print() {
    assert_eq!(Edition::from_str("2015"), Ok(Edition::Edition2015));
    assert_eq!(Edition::from_str("2018"), Ok(Edition::Edition2018));
    assert_eq!(Edition::from_str("2021"), Ok(Edition::Edition2021));
    match Edition::from_str("1999") {
        Ok(_) => panic!("an unknown edition string must be rejected"),
        Err(e) => assert_eq!(e.invalid_input, "1999".to_string()),
    }
    assert_eq!(Edition::Edition2015.as_str(), "2015");
    assert_eq!(Edition::Edition2021.as_str(), "2021");
    assert!(Edition::Edition2015 < Edition::Edition2018);
    assert_eq!(Edition::CURRENT, Edition::Edition2018);
}

#[test]
fn display_names_normalize_their_canonical_spelling() {
    let dn = CrateDisplayName::from_canonical_name("crate-name-with-dashes".to_string());
    assert_eq!(dn.as_str(), "crate_name_with_dashes");
    let from_name: CrateDisplayName = CrateName::new("plain").unwrap().into();
    assert_eq!(from_name.as_str(), "plain");
}
