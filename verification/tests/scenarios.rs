//! End-to-end scenarios over a fresh backend: init, create, edit,
//! delete, fork, stale commits, and the two lookup strategies.

use hrdb::branch::Branch;
use hrdb::controller::HRDB;
use hrdb::dict::Dict;
use hrdb::errors::HrdbError;
use hrdb::location::Location;
use hrdb::page::Page;
use hrdb::store::{read, Store};

fn master_head(store: &Store) -> Location {
    let master = Location::from_branch("master".to_owned());
    let versions = HRDB::versions(store, &master).unwrap();
    versions.into_iter().last().unwrap()
}

fn root_at_head(store: &Store) -> Location {
    HRDB::root(&master_head(store)).unwrap()
}

fn master_version_count(store: &Store) -> usize {
    let master = Location::from_branch("master".to_owned());
    HRDB::versions(store, &master).unwrap().len()
}

#[test]
fn init_creates_master_with_one_version() {
    let mut store = Store::new();
    HRDB::init(&mut store).unwrap();

    let branches = HRDB::branches(&store).unwrap();
    assert_eq!(branches.len(), 1);
    assert_eq!(branches[0].branch(), "master");

    assert_eq!(master_version_count(&store), 1);

    let root = root_at_head(&store);
    let page = Page::from(&store, root.end().unwrap().as_str()).unwrap();
    assert_eq!(page.children().len(), 0);
    assert!(!page.id().is_empty());
    assert_eq!(page.title(), "Home");

    // init is idempotent
    HRDB::init(&mut store).unwrap();
    assert_eq!(master_version_count(&store), 1);
}

#[test]
fn create_adds_exactly_one_child() {
    let mut store = Store::new();
    HRDB::init(&mut store).unwrap();
    let root = root_at_head(&store);
    HRDB::create(
        &mut store,
        &root,
        "Foo".to_owned(),
        "bar".to_owned(),
        Dict::new(),
    )
    .unwrap();

    assert_eq!(master_version_count(&store), 2);
    let new_root = root_at_head(&store);
    let children = HRDB::children(&store, &new_root).unwrap();
    assert_eq!(children.len(), 1);
    let (title, content, _fields) = HRDB::read(&store, &children[0]).unwrap();
    assert_eq!(title, "Foo");
    assert_eq!(content, "bar");
}

#[test]
fn delete_removes_child_but_keeps_its_record() {
    let mut store = Store::new();
    HRDB::init(&mut store).unwrap();
    let root = root_at_head(&store);
    HRDB::create(
        &mut store,
        &root,
        "Foo".to_owned(),
        "bar".to_owned(),
        Dict::new(),
    )
    .unwrap();

    let children = HRDB::children(&store, &root_at_head(&store)).unwrap();
    assert_eq!(children.len(), 1);
    let child_address = children[0].end().unwrap();

    HRDB::delete(&mut store, &children[0]).unwrap();

    let after = HRDB::children(&store, &root_at_head(&store)).unwrap();
    assert_eq!(after.len(), 0);
    // no cascading deletion: the unreferenced record still reads back
    assert!(read(&store, child_address.as_str()).is_ok());
}

#[test]
fn stale_commit_fails_and_retry_succeeds() {
    let mut store = Store::new();
    HRDB::init(&mut store).unwrap();
    let stale = root_at_head(&store);

    // first commit from this head succeeds
    HRDB::edit(
        &mut store,
        &stale,
        Some("First".to_owned()),
        None,
        None,
    )
    .unwrap();

    // the second, using the now-stale location, must fail and not append
    let count = master_version_count(&store);
    let err = HRDB::edit(
        &mut store,
        &stale,
        Some("Second".to_owned()),
        None,
        None,
    )
    .unwrap_err();
    assert_eq!(err, HrdbError::StaleVersion);
    assert_eq!(master_version_count(&store), count);

    // re-resolving against the new head and retrying succeeds
    let fresh = root_at_head(&store);
    HRDB::edit(
        &mut store,
        &fresh,
        Some("Second".to_owned()),
        None,
        None,
    )
    .unwrap();
    let (title, _, _) = HRDB::read(&store, &root_at_head(&store)).unwrap();
    assert_eq!(title, "Second");
}

#[test]
fn committing_an_identical_page_appends_no_version() {
    let mut store = Store::new();
    HRDB::init(&mut store).unwrap();
    let root = root_at_head(&store);
    let page = Page::from(&store, root.end().unwrap().as_str()).unwrap();
    let before = master_version_count(&store);
    let new_root = HRDB::commit(&mut store, &root, &page).unwrap();
    assert_eq!(new_root, root.end().unwrap());
    assert_eq!(master_version_count(&store), before);
}

#[test]
fn edit_changes_address_but_not_identity() {
    let mut store = Store::new();
    HRDB::init(&mut store).unwrap();
    let root = root_at_head(&store);
    let id_before = root.id(&store).unwrap();
    let addr_before = root.end().unwrap();

    HRDB::edit(
        &mut store,
        &root,
        Some("Renamed".to_owned()),
        Some("new body".to_owned()),
        None,
    )
    .unwrap();

    let new_root = root_at_head(&store);
    assert_eq!(new_root.id(&store).unwrap(), id_before);
    assert_ne!(new_root.end().unwrap(), addr_before);
    let (title, content, _) = HRDB::read(&store, &new_root).unwrap();
    assert_eq!(title, "Renamed");
    assert_eq!(content, "new body");
}

#[test]
fn editing_one_leaf_leaves_sibling_addresses_alone() {
    let mut store = Store::new();
    HRDB::init(&mut store).unwrap();
    for (title, body) in [("Alpha", "a"), ("Beta", "b")] {
        let root = root_at_head(&store);
        HRDB::create(
            &mut store,
            &root,
            title.to_owned(),
            body.to_owned(),
            Dict::new(),
        )
        .unwrap();
    }

    // find both children's ids and addresses at the current head
    let mut alpha_id = String::new();
    let mut beta_addr = String::new();
    for child in HRDB::children(&store, &root_at_head(&store)).unwrap() {
        let (title, _, _) = HRDB::read(&store, &child).unwrap();
        if title == "Alpha" {
            alpha_id = child.id(&store).unwrap();
        } else {
            beta_addr = child.end().unwrap();
        }
    }
    assert!(!alpha_id.is_empty() && !beta_addr.is_empty());

    // edit the Alpha leaf
    let head = master_head(&store);
    let alpha = HRDB::locate_id(&store, &head, alpha_id.as_str()).unwrap();
    HRDB::edit(
        &mut store,
        &alpha,
        None,
        Some("changed".to_owned()),
        None,
    )
    .unwrap();

    // at the new head, Beta's address is untouched, Alpha's moved
    let mut beta_addr_after = String::new();
    let mut alpha_addr_after = String::new();
    for child in HRDB::children(&store, &root_at_head(&store)).unwrap() {
        let (title, _, _) = HRDB::read(&store, &child).unwrap();
        if title == "Alpha" {
            alpha_addr_after = child.end().unwrap();
        } else {
            beta_addr_after = child.end().unwrap();
        }
    }
    assert_eq!(beta_addr_after, beta_addr);
    assert_ne!(alpha_addr_after, alpha.end().unwrap());
}

#[test]
fn fork_copies_a_history_prefix() {
    let mut store = Store::new();
    HRDB::init(&mut store).unwrap();
    for title in ["One", "Two", "Three"] {
        let root = root_at_head(&store);
        HRDB::edit(&mut store, &root, Some(title.to_owned()), None, None).unwrap();
    }
    // master now has 4 versions; fork at version index 1
    let master = Location::from_branch("master".to_owned());
    let master_versions = HRDB::versions(&store, &master).unwrap();
    assert_eq!(master_versions.len(), 4);
    let at = &master_versions[1];
    let into = Location::from_branch("experiment".to_owned());
    HRDB::fork(&mut store, at, &into).unwrap();

    let experiment = HRDB::versions(&store, &into).unwrap();
    assert_eq!(experiment.len(), 2);
    for i in 0..2 {
        assert_eq!(
            experiment[i].version().unwrap(),
            master_versions[i].version().unwrap()
        );
    }

    // later commits to master do not touch the fork
    let root = root_at_head(&store);
    HRDB::edit(&mut store, &root, Some("Four".to_owned()), None, None).unwrap();
    assert_eq!(HRDB::versions(&store, &into).unwrap().len(), 2);

    // forking into an existing branch is refused
    assert_eq!(
        HRDB::fork(&mut store, at, &into).unwrap_err(),
        HrdbError::BranchExists
    );
}

#[test]
fn locate_descends_an_id_path() {
    let mut store = Store::new();
    HRDB::init(&mut store).unwrap();
    let root = root_at_head(&store);
    HRDB::create(
        &mut store,
        &root,
        "Child".to_owned(),
        "body".to_owned(),
        Dict::new(),
    )
    .unwrap();

    let head = master_head(&store);
    let root = root_at_head(&store);
    let root_id = root.id(&store).unwrap();
    let children = HRDB::children(&store, &root).unwrap();
    let child_id = children[0].id(&store).unwrap();

    let found = HRDB::locate(&store, &head, &vec![root_id.clone(), child_id.clone()]).unwrap();
    assert_eq!(found.end().unwrap(), children[0].end().unwrap());
    assert_eq!(
        found.ids(&store).unwrap(),
        vec![root_id.clone(), child_id.clone()]
    );
    // the path starts at the version root
    assert_eq!(found.path().unwrap()[0], found.version().unwrap());

    let err = HRDB::locate(&store, &head, &vec![root_id, "bogus".to_owned()]).unwrap_err();
    assert_eq!(err, HrdbError::BrokenPath);
}

#[test]
fn locate_id_searches_the_tree() {
    let mut store = Store::new();
    HRDB::init(&mut store).unwrap();
    let root = root_at_head(&store);
    HRDB::create(
        &mut store,
        &root,
        "Child".to_owned(),
        "body".to_owned(),
        Dict::new(),
    )
    .unwrap();

    let head = master_head(&store);
    let child = &HRDB::children(&store, &root_at_head(&store)).unwrap()[0];
    let child_id = child.id(&store).unwrap();
    let found = HRDB::locate_id(&store, &head, child_id.as_str()).unwrap();
    assert_eq!(found.end().unwrap(), child.end().unwrap());
    assert_eq!(
        HRDB::locate_id(&store, &head, "no such id").unwrap_err(),
        HrdbError::NotFound
    );
}

#[test]
fn relocate_moves_a_node_between_parents() {
    let mut store = Store::new();
    HRDB::init(&mut store).unwrap();
    // build root -> { Box, Item }
    for (title, body) in [("Box", "b"), ("Item", "i")] {
        let root = root_at_head(&store);
        HRDB::create(
            &mut store,
            &root,
            title.to_owned(),
            body.to_owned(),
            Dict::new(),
        )
        .unwrap();
    }
    let mut box_loc = None;
    let mut item_loc = None;
    for child in HRDB::children(&store, &root_at_head(&store)).unwrap() {
        let (title, _, _) = HRDB::read(&store, &child).unwrap();
        if title == "Box" {
            box_loc = Some(child);
        } else {
            item_loc = Some(child);
        }
    }
    // destination and source share the branch head, so the second
    // commit sees the first one's append and is refused as stale
    let err = HRDB::relocate(&mut store, &item_loc.unwrap(), &box_loc.unwrap()).unwrap_err();
    assert_eq!(err, HrdbError::StaleVersion);
}

#[test]
fn branch_head_and_fork_preconditions() {
    let mut store = Store::new();
    let empty = Branch { versions: vec![] };
    assert_eq!(empty.head().unwrap_err(), HrdbError::EmptyBranch);

    let b = Branch {
        versions: vec!["v0".to_owned(), "v1".to_owned()],
    };
    assert_eq!(b.head().unwrap(), "v1");
    let forked = b.fork(&store, "v0", "newbranch").unwrap();
    assert_eq!(forked.versions, vec!["v0".to_owned()]);
    assert_eq!(
        b.fork(&store, "vX", "newbranch").unwrap_err(),
        HrdbError::VersionNotFound
    );
    hrdb::store::mutate(&mut store, "taken", "");
    assert_eq!(
        b.fork(&store, "v0", "taken").unwrap_err(),
        HrdbError::BranchExists
    );

    let mut m = Branch { versions: vec![] };
    let other = Branch { versions: vec![] };
    assert_eq!(m.merge(&other).unwrap_err(), HrdbError::Unsupported);
}

#[test]
fn location_navigation_invariants() {
    let handle = Location::from_branch("master".to_owned());
    assert_eq!(handle.version().unwrap_err(), HrdbError::NotFound);
    assert_eq!(handle.path().unwrap_err(), HrdbError::NotFound);

    let vloc = Location::from_branch_and_version("master".to_owned(), "v".to_owned());
    assert_eq!(vloc.version().unwrap(), "v");
    assert_eq!(vloc.path().unwrap_err(), HrdbError::NotFound);

    let loc = Location::from_branch_version_and_path(
        "master".to_owned(),
        "v".to_owned(),
        vec!["v".to_owned()],
    );
    assert_eq!(loc.end().unwrap(), "v");
    assert_eq!(loc.back().unwrap_err(), HrdbError::AtRoot);
    let fwd = loc.forward("child".to_owned()).unwrap();
    assert_eq!(fwd.end().unwrap(), "child");
    assert_eq!(fwd.back().unwrap().end().unwrap(), "v");
    assert_eq!(fwd.path().unwrap(), vec!["v".to_owned(), "child".to_owned()]);
}

#[test]
fn ver_no_is_the_position_in_the_branch() {
    let mut store = Store::new();
    HRDB::init(&mut store).unwrap();
    let root = root_at_head(&store);
    HRDB::edit(&mut store, &root, Some("x".to_owned()), None, None).unwrap();
    let head = master_head(&store);
    assert_eq!(head.ver_no(&store).unwrap(), 1);
}

#[test]
fn shorthand_tracks_master_commits() {
    let mut store = Store::new();
    HRDB::init(&mut store).unwrap();
    let table = hrdb::shorthand::Shorthand::read(&store).unwrap();
    let root_id = root_at_head(&store).id(&store).unwrap();
    assert_eq!(table.get("home").unwrap(), (0, root_id.clone()));

    // an edit on master refreshes the slug binding; the entry points
    // at the version the commit was applied against
    let root = root_at_head(&store);
    HRDB::edit(&mut store, &root, Some("Front Page".to_owned()), None, None).unwrap();
    let table = hrdb::shorthand::Shorthand::read(&store).unwrap();
    assert_eq!(table.get("front-page").unwrap(), (0, root_id));
}

#[test]
fn shorthand_names_resolve_to_pages() {
    let mut store = Store::new();
    HRDB::init(&mut store).unwrap();
    let root_id = root_at_head(&store).id(&store).unwrap();

    let found = HRDB::resolve_short(&store, "home").unwrap();
    assert_eq!(found.id(&store).unwrap(), root_id);

    // the name keeps resolving after the page moves on
    let root = root_at_head(&store);
    HRDB::edit(&mut store, &root, None, Some("changed".to_owned()), None).unwrap();
    let found = HRDB::resolve_short(&store, "home").unwrap();
    assert_eq!(found.id(&store).unwrap(), root_id);

    assert_eq!(
        HRDB::resolve_short(&store, "no-such-name").unwrap_err(),
        HrdbError::NotFound
    );
}

#[test]
fn exploration_on_a_missing_registry_fails() {
    let store = Store::new();
    assert_eq!(HRDB::branches(&store).unwrap_err(), HrdbError::NotFound);
    let nowhere = Location::from_branch("nowhere".to_owned());
    assert_eq!(
        HRDB::versions(&store, &nowhere).unwrap_err(),
        HrdbError::NotFound
    );
    assert_eq!(nowhere.ver_no(&store).unwrap_err(), HrdbError::NotFound);
}

#[test]
fn commit_against_a_missing_branch_fails() {
    let mut store = Store::new();
    let loc = Location::from_branch_version_and_path(
        "ghost".to_owned(),
        "v".to_owned(),
        vec!["v".to_owned()],
    );
    let page = Page::new("t".to_owned(), "c".to_owned(), Dict::new());
    assert_eq!(
        HRDB::commit(&mut store, &loc, &page).unwrap_err(),
        HrdbError::NotFound
    );
}

#[test]
fn shorthand_falls_back_to_the_recorded_version() {
    let mut store = Store::new();
    HRDB::init(&mut store).unwrap();
    let root = root_at_head(&store);
    HRDB::create(
        &mut store,
        &root,
        "Foo".to_owned(),
        "body".to_owned(),
        Dict::new(),
    )
    .unwrap();
    // edit the child so its binding records a version that contains it
    let head = master_head(&store);
    let foo = &HRDB::children(&store, &root_at_head(&store)).unwrap()[0];
    let foo_id = foo.id(&store).unwrap();
    let foo_loc = HRDB::locate_id(&store, &head, foo_id.as_str()).unwrap();
    HRDB::edit(&mut store, &foo_loc, None, Some("kept".to_owned()), None).unwrap();

    // delete it from the head: the name no longer resolves there
    let gone = HRDB::children(&store, &root_at_head(&store)).unwrap();
    HRDB::delete(&mut store, &gone[0]).unwrap();
    assert_eq!(
        HRDB::locate_id(&store, &master_head(&store), foo_id.as_str()).unwrap_err(),
        HrdbError::NotFound
    );

    // the shorthand still resolves, at the recorded older version
    let found = HRDB::resolve_short(&store, "foo").unwrap();
    assert_eq!(found.id(&store).unwrap(), foo_id);
    assert_ne!(
        found.version().unwrap(),
        master_head(&store).version().unwrap()
    );
}
