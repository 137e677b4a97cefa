//! The key-value layer: content-addressed blobs, newline-joined lists,
//! the shorthand table, and the dump helpers.

use hrdb::digest::hash;
use hrdb::dump::{get_all_values, to_key_list, KeyRust, KeysRust};
use hrdb::errors::HrdbError;
use hrdb::shorthand::Shorthand;
use hrdb::store::{append, ensure, list, mutate, push, read, Store};

#[test]
fn write_twice_same_address_and_read_back() {
    // content addressing: identical content, identical key, and the
    // read returns exactly what was written
    let mut store = Store::new();
    let a1 = hrdb::store::write(&mut store, "some value");
    let a2 = hrdb::store::write(&mut store, "some value");
    assert_eq!(a1, a2);
    assert_eq!(a1, hash("some value"));
    assert_eq!(read(&store, a1.as_str()).unwrap(), "some value");
}

#[test]
fn read_missing_key_is_not_found() {
    let store = Store::new();
    assert_eq!(read(&store, "nope").unwrap_err(), HrdbError::NotFound);
}

#[test]
fn lists_grow_by_push() {
    let mut store = Store::new();
    assert_eq!(
        push(&mut store, "l", "x".to_owned()).unwrap_err(),
        HrdbError::NotFound
    );
    ensure(&mut store, "l");
    push(&mut store, "l", "x".to_owned()).unwrap();
    push(&mut store, "l", "y".to_owned()).unwrap();
    let entries = list(&store, "l").unwrap();
    assert_eq!(entries, vec!["x".to_owned(), "y".to_owned()]);
    // ensure on an existing list is a no-op
    ensure(&mut store, "l");
    assert_eq!(list(&store, "l").unwrap().len(), 2);
}

#[test]
fn append_adds_all_entries_in_order() {
    let mut store = Store::new();
    ensure(&mut store, "l");
    append(
        &mut store,
        "l",
        &vec!["a".to_owned(), "b".to_owned(), "c".to_owned()],
    )
    .unwrap();
    assert_eq!(
        list(&store, "l").unwrap(),
        vec!["a".to_owned(), "b".to_owned(), "c".to_owned()]
    );
}

#[test]
fn mutate_overwrites_in_place() {
    let mut store = Store::new();
    mutate(&mut store, "k", "v1");
    mutate(&mut store, "k", "v2");
    assert_eq!(read(&store, "k").unwrap(), "v2");
}

#[test]
fn shorthand_round_trips_through_the_store() {
    let mut store = Store::new();
    let t = Shorthand::wrap(vec![
        ("home".to_owned(), 0, "rootid".to_owned()),
        ("about".to_owned(), 3, "aboutid".to_owned()),
    ]);
    t.write(&mut store);
    let t2 = Shorthand::read(&store).unwrap();
    assert_eq!(t2.get("home").unwrap(), (0, "rootid".to_owned()));
    assert_eq!(t2.get("about").unwrap(), (3, "aboutid".to_owned()));
    assert!(t2.get("missing").is_none());
    let entries = t2.unwrap();
    assert_eq!(entries.len(), 2);
    assert_eq!(entries[1], ("about".to_owned(), 3, "aboutid".to_owned()));
}

#[test]
fn shorthand_update_rebinds_one_name() {
    let mut store = Store::new();
    Shorthand::new().write(&mut store);
    Shorthand::update(&mut store, "home".to_owned(), 1, "id1".to_owned()).unwrap();
    Shorthand::update(&mut store, "home".to_owned(), 2, "id2".to_owned()).unwrap();
    let t = Shorthand::read(&store).unwrap();
    assert_eq!(t.get("home").unwrap(), (2, "id2".to_owned()));
}

#[test]
fn shorthand_update_without_table_fails() {
    let mut store = Store::new();
    assert_eq!(
        Shorthand::update(&mut store, "x".to_owned(), 0, "id".to_owned()).unwrap_err(),
        HrdbError::NotFound
    );
    mutate(&mut store, "shorthand", "not a table");
    assert_eq!(
        Shorthand::update(&mut store, "x".to_owned(), 0, "id".to_owned()).unwrap_err(),
        HrdbError::Corrupt
    );
}

#[test]
fn key_listing_flattens_to_names() {
    let ks = KeysRust {
        list_complete: true,
        keys: vec![
            KeyRust { name: "a".to_owned() },
            KeyRust { name: "b".to_owned() },
        ],
    };
    assert_eq!(to_key_list(ks), vec!["a".to_owned(), "b".to_owned()]);
}

#[test]
fn get_all_values_pairs_keys_with_contents() {
    let mut store = Store::new();
    mutate(&mut store, "k1", "v1");
    mutate(&mut store, "k2", "v2");
    let vs = get_all_values(&store, vec!["k1".to_owned(), "k2".to_owned()]).unwrap();
    assert_eq!(
        vs,
        vec![("k1".to_owned(), "v1".to_owned()), ("k2".to_owned(), "v2".to_owned())]
    );
    assert_eq!(
        get_all_values(&store, vec!["k1".to_owned(), "kx".to_owned()]).unwrap_err(),
        HrdbError::NotFound
    );
}

#[test]
fn content_blob_round_trip() {
    let mut store = Store::new();
    let c = hrdb::content::Content::new("body text".to_owned());
    let addr = hrdb::store::write(&mut store, c.to_string().as_str());
    let c2 = hrdb::content::Content::from(&store, addr.as_str()).unwrap();
    assert_eq!(c2.to_string(), "body text");
    assert_eq!(
        hrdb::content::Content::from(&store, "missing").unwrap_err(),
        HrdbError::NotFound
    );
}
