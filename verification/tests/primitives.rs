//! Hashing, identifiers, string helpers, dictionaries and routes.

use hrdb::digest::hash;
use hrdb::dict::Dict;
use hrdb::errors::HrdbError;
use hrdb::page::Page;
use hrdb::route::Route;
use hrdb::strutil::{has_char, join, split_drop_empty, str_eq};
use hrdb::token::stamp;

#[test]
fn hash_of_empty_string_matches_sha256() {
    // compact hex of SHA-256(""): each byte as one or two digits
    assert_eq!(
        hash(""),
        "e3b0c44298fc1c149afbf4c8996fb92427ae41e4649b934ca495991b7852b855"
    );
}

#[test]
fn hash_of_abc_matches_sha256() {
    assert_eq!(
        hash("abc"),
        "ba7816bf8f1cfea414140de5dae2223b0361a396177a9cb410ff61f2015ad"
    );
}

#[test]
fn hash_is_deterministic() {
    assert_eq!(hash("hello world"), hash("hello world"));
    assert_ne!(hash("hello world"), hash("hello worlds"));
}

#[test]
fn stamp_is_long_and_fresh() {
    let a = stamp();
    let b = stamp();
    assert!(a.chars().count() >= 32);
    assert_ne!(a, b);
}

#[test]
fn str_eq_compares_by_characters() {
    assert!(str_eq("", ""));
    assert!(str_eq("héllo", "héllo"));
    assert!(!str_eq("a", "ab"));
    assert!(!str_eq("ab", "ac"));
}

#[test]
fn has_char_finds_newlines() {
    assert!(has_char("a\nb", '\n'));
    assert!(!has_char("ab", '\n'));
}

#[test]
fn split_and_join_round_trip() {
    let parts = split_drop_empty("/a//b/c/", '/');
    let v: Vec<&str> = parts.iter().map(|s| s.as_str()).collect();
    assert_eq!(v, vec!["a", "b", "c"]);
    assert_eq!(join(&parts, "/"), "a/b/c");
}

#[test]
fn dict_insert_get_remove() {
    let mut d = Dict::new();
    assert_eq!(d.len(), 0);
    assert!(d.get("k").is_none());
    d.insert("k".to_owned(), "v1".to_owned());
    d.insert("k2".to_owned(), "v2".to_owned());
    assert_eq!(d.len(), 2);
    assert_eq!(d.get("k").unwrap(), "v1");
    d.insert("k".to_owned(), "v3".to_owned());
    assert_eq!(d.len(), 2);
    assert_eq!(d.get("k").unwrap(), "v3");
    assert_eq!(d.key_at(0), "k");
    assert_eq!(d.val_at(1), "v2");
    d.remove("k");
    assert_eq!(d.len(), 1);
    assert!(d.get("k").is_none());
    assert!(d.contains("k2"));
}

#[test]
fn page_slug_strips_and_lowercases() {
    let p = Page::new(
        "  Hello,  World! 42 ".to_owned(),
        "addr".to_owned(),
        Dict::new(),
    );
    assert_eq!(p.short(), "hello-world-42");
}

#[test]
fn page_slug_of_plain_title() {
    let p = Page::new("Home".to_owned(), "addr".to_owned(), Dict::new());
    assert_eq!(p.short(), "home");
}

#[test]
fn page_slug_splits_at_unicode_whitespace() {
    // no-break space and ideographic space separate words like ASCII space
    let p = Page::new("A\u{00A0}B\u{3000}C".to_owned(), "addr".to_owned(), Dict::new());
    assert_eq!(p.short(), "a-b-c");
}

#[test]
fn page_record_round_trips() {
    let mut fields = Dict::new();
    fields.insert("author".to_owned(), "someone".to_owned());
    fields.insert("tags: tricky#:".to_owned(), "1:2#3\n4".to_owned());
    let mut p = Page::new("A title: with 7:colons".to_owned(), "caddr".to_owned(), fields);
    p.child_insert("childid".to_owned(), "childaddr".to_owned());
    let text = p.to_string();
    let q = Page::from_str(text.as_str()).unwrap();
    assert!(p.same(q));
    let q = Page::from_str(text.as_str()).unwrap();
    assert_eq!(q.title(), "A title: with 7:colons");
    assert_eq!(q.content(), "caddr");
    assert_eq!(q.fields().get("author").unwrap(), "someone");
    assert_eq!(q.fields().get("tags: tricky#:").unwrap(), "1:2#3\n4");
    assert_eq!(q.children().get("childid").unwrap(), "childaddr");
    // a second serialization is byte-identical: addressing is stable
    assert_eq!(q.to_string(), text);
}

#[test]
fn page_decode_rejects_garbage() {
    assert_eq!(Page::from_str("").unwrap_err(), HrdbError::Corrupt);
    assert_eq!(Page::from_str("notarecord").unwrap_err(), HrdbError::Corrupt);
    assert_eq!(Page::from_str("3:abc").unwrap_err(), HrdbError::Corrupt);
    // trailing garbage is rejected too
    let p = Page::new("t".to_owned(), "c".to_owned(), Dict::new());
    let mut text = p.to_string();
    text.push('x');
    assert_eq!(Page::from_str(text.as_str()).unwrap_err(), HrdbError::Corrupt);
}

#[test]
fn page_identity_survives_edits() {
    let mut p = Page::new("One".to_owned(), "c1".to_owned(), Dict::new());
    let id_before = p.id();
    let addr_before = hash(p.to_string().as_str());
    p.set_title("Two".to_owned());
    p.set_content("c2".to_owned());
    let mut f = Dict::new();
    f.insert("k".to_owned(), "v".to_owned());
    p.set_fields(f);
    assert_eq!(p.id(), id_before);
    assert_ne!(hash(p.to_string().as_str()), addr_before);
}

#[test]
fn route_splits_and_rebuilds() {
    let r = Route::new("/Edit//master/abc/");
    assert_eq!(
        r.iter().iter().map(|s| s.as_str()).collect::<Vec<_>>(),
        vec!["Edit", "master", "abc"]
    );
    let r2 = Route::over(vec!["perma".to_owned(), "master".to_owned()]);
    assert_eq!(r2.to_string(), "/perma/master");
    let r3 = Route::new("a/b");
    assert_eq!(r3.to_vec(), vec!["a".to_owned(), "b".to_owned()]);
}

#[test]
fn error_descriptions_are_nonempty() {
    let kinds = [
        HrdbError::NotFound,
        HrdbError::Corrupt,
        HrdbError::BackendFailure,
        HrdbError::StaleVersion,
        HrdbError::AtRoot,
        HrdbError::BrokenPath,
        HrdbError::BranchExists,
        HrdbError::VersionNotFound,
        HrdbError::EmptyBranch,
        HrdbError::Unsupported,
    ];
    for k in kinds {
        assert!(!k.describe().is_empty());
    }
}
