//! The key-value backend, modelled as a plain map from string keys to
//! string values, together with the two record shapes the tree store
//! keeps in it: content-addressed blobs (keyed by their own hash) and
//! named newline-joined lists (branch histories and the registry).

use vstd::prelude::*;
use vstd::string::StringExecFns;
use crate::dict::Dict;
use crate::digest::{address_of, hash};
use crate::errors::HrdbError;
use crate::strutil::{
    join, join_spec, lemma_drop_empty_concat, lemma_split_all_concat, lemma_split_ne_no_sep,
    no_char, split_drop_empty, split_ne, views_of,
};

verus! {

/// The key-value store: every operation of the tree store is a
/// sequence of `get`s and `put`s against one of these.
pub struct Store {
    entries: Dict,
}

impl View for Store {
    type V = Map<Seq<char>, Seq<char>>;

    closed spec fn view(&self) -> Map<Seq<char>, Seq<char>> {
        self.entries@
    }
}

impl Store {
    pub closed spec fn wf(&self) -> bool {
        self.entries.wf()
    }

    /// An empty backend.
    pub fn new() -> (r: Store)
        ensures
            r.wf(),
            r@ == Map::<Seq<char>, Seq<char>>::empty(),
    {
        Store { entries: Dict::new() }
    }

    /// Fetch the value under `key`; `None` exactly when the key is
    /// absent.
    pub fn get(&self, key: &str) -> (r: Option<String>)
        requires
            self.wf(),
        ensures
            match r {
                Some(v) => self@.contains_key(key@) && v@ == self@[key@],
                None => !self@.contains_key(key@),
            },
    {
        match self.entries.get(key) {
            Some(v) => Some(v.clone()),
            None => None,
        }
    }

    /// Whether `key` is present.
    pub fn contains(&self, key: &str) -> (r: bool)
        requires
            self.wf(),
        ensures
            r == self@.contains_key(key@),
    {
        self.entries.contains(key)
    }

    /// Store `value` under `key`, overwriting any earlier value.
    pub fn put(&mut self, key: String, value: String)
        requires
            old(self).wf(),
        ensures
            final(self).wf(),
            final(self)@ == old(self)@.insert(key@, value@),
    {
        self.entries.insert(key, value);
    }
}

/// A stored list value, read back as its non-empty lines.
pub open spec fn list_of(text: Seq<char>) -> Seq<Seq<char>> {
    split_ne(text, '\n')
}

/// Write `value` into the blob namespace under its own content hash
/// and hand the hash back.  Identical content always lands on the same
/// key, so blobs are deduplicated and immutable by construction.
pub fn write(store: &mut Store, value: &str) -> (r: String)
    requires
        old(store).wf(),
    ensures
        final(store).wf(),
        r@ == address_of(value@),
        final(store)@ == old(store)@.insert(address_of(value@), value@),
        r@.len() >= 32,
        no_char(r@, '\n'),
{
    let key = hash(value);
    store.put(key.clone(), value.to_owned());
    key
}

/// Fetch the blob stored under `key`.
pub fn read(store: &Store, key: &str) -> (r: Result<String, HrdbError>)
    requires
        store.wf(),
    ensures
        match r {
            Ok(v) => store@.contains_key(key@) && v@ == store@[key@],
            Err(e) => e == HrdbError::NotFound && !store@.contains_key(key@),
        },
{
    match store.get(key) {
        Some(v) => Ok(v),
        None => Err(HrdbError::NotFound),
    }
}

/// Overwrite the value under a fixed key (used for the shorthand
/// table, the one record that is not content-addressed).
pub fn mutate(store: &mut Store, key: &str, value: &str)
    requires
        old(store).wf(),
    ensures
        final(store).wf(),
        final(store)@ == old(store)@.insert(key@, value@),
{
    store.put(key.to_owned(), value.to_owned());
}

/// Appending entries to a stored list extends its line sequence by
/// exactly those entries, provided each entry is a non-empty string
/// without a newline (addresses and branch names written by the store
/// always are).
pub proof fn lemma_list_append(text: Seq<char>, vs: Seq<Seq<char>>)
    requires
        forall|i: int| 0 <= i < vs.len() ==> (#[trigger] vs[i]).len() > 0 && no_char(vs[i], '\n'),
    ensures
        list_of(text + seq!['\n'] + join_spec(vs, seq!['\n'])) == list_of(text) + vs,
    decreases vs.len(),
{
    let j = join_spec(vs, seq!['\n']);
    lemma_split_all_concat(text, j, '\n');
    lemma_drop_empty_concat(
        crate::strutil::split_all(text, '\n'),
        crate::strutil::split_all(j, '\n'),
    );
    lemma_lines_of_join(vs);
}

/// The non-empty lines of a newline-join of non-empty newline-free
/// entries are exactly those entries.
pub proof fn lemma_lines_of_join(vs: Seq<Seq<char>>)
    requires
        forall|i: int| 0 <= i < vs.len() ==> (#[trigger] vs[i]).len() > 0 && no_char(vs[i], '\n'),
    ensures
        split_ne(join_spec(vs, seq!['\n']), '\n') == vs,
    decreases vs.len(),
{
    if vs.len() == 0 {
        assert(join_spec(vs, seq!['\n']) =~= Seq::<char>::empty());
        reveal_with_fuel(Seq::<_>::filter, 2);
        assert(split_ne(Seq::<char>::empty(), '\n') =~~= vs);
    } else if vs.len() == 1 {
        assert(vs[0].len() > 0 && no_char(vs[0], '\n'));
        lemma_split_ne_no_sep(vs[0], '\n');
        assert(seq![vs[0]] =~~= vs);
    } else {
        let t = vs.drop_first();
        assert(forall|i: int| 0 <= i < t.len() ==> t[i] == vs[i + 1]);
        lemma_lines_of_join(t);
        lemma_split_all_concat(vs[0], join_spec(t, seq!['\n']), '\n');
        lemma_drop_empty_concat(
            crate::strutil::split_all(vs[0], '\n'),
            crate::strutil::split_all(join_spec(t, seq!['\n']), '\n'),
        );
        lemma_split_ne_no_sep(vs[0], '\n');
        assert(seq![vs[0]] + t =~~= vs);
    }
}

/// No piece produced by splitting contains the separator.
pub proof fn lemma_split_all_pieces(s: Seq<char>, sep: char)
    ensures
        forall|i: int|
            0 <= i < crate::strutil::split_all(s, sep).len() ==> no_char(
                #[trigger] crate::strutil::split_all(s, sep)[i],
                sep,
            ),
    decreases s.len(),
{
    let r = crate::strutil::split_all(s, sep);
    if s.len() == 0 {
    } else {
        lemma_split_all_pieces(s.drop_first(), sep);
        let rest = crate::strutil::split_all(s.drop_first(), sep);
        if s[0] == sep {
            assert(forall|i: int| 1 <= i < r.len() ==> r[i] == rest[i - 1]);
        } else {
            assert(r[0] == seq![s[0]] + rest[0]);
            assert(no_char(r[0], sep)) by {
                assert(forall|t: int| 1 <= t < r[0].len() ==> r[0][t] == rest[0][t - 1]);
            }
            assert(forall|i: int| 1 <= i < r.len() ==> r[i] == rest[i]);
        }
    }
}

/// Every entry of a stored list is non-empty and newline-free, so it
/// can be re-joined without changing the list.
pub proof fn lemma_list_entries(s: Seq<char>)
    ensures
        forall|i: int|
            0 <= i < list_of(s).len() ==> (#[trigger] list_of(s)[i]).len() > 0 && no_char(
                list_of(s)[i],
                '\n',
            ),
{
    lemma_split_all_pieces(s, '\n');
    let all = crate::strutil::split_all(s, '\n');
    let pred = |p: Seq<char>| p.len() > 0;
    all.filter_lemma(pred);
    assert forall|i: int| 0 <= i < list_of(s).len() implies (#[trigger] list_of(s)[i]).len() > 0
        && no_char(list_of(s)[i], '\n') by {
        assert(all.filter(pred)[i] == list_of(s)[i]);
        assert(pred(all.filter(pred)[i]));
        assert(all.filter(pred).contains(list_of(s)[i]));
        all.lemma_filter_contains_rev(pred, list_of(s)[i]);
        let w = choose|w: int| 0 <= w < all.len() && all[w] == list_of(s)[i];
        assert(no_char(all[w], '\n'));
    }
}

/// Append `values` to the list stored under `key`.  Fails with
/// `NotFound`, leaving the store unchanged, exactly when the list has
/// never been created.
pub fn append(store: &mut Store, key: &str, values: &Vec<String>) -> (r: Result<(), HrdbError>)
    requires
        old(store).wf(),
    ensures
        final(store).wf(),
        match r {
            Ok(()) => old(store)@.contains_key(key@) && final(store)@ == old(store)@.insert(
                key@,
                old(store)@[key@] + seq!['\n'] + join_spec(views_of(values@), seq!['\n']),
            ),
            Err(e) => e == HrdbError::NotFound && !old(store)@.contains_key(key@) && final(store)@
                == old(store)@,
        },
{
    let contents = match read(store, key) {
        Ok(c) => c,
        Err(e) => {
            return Err(e);
        },
    };
    let joined = join(values, "\n");
    let mut text = contents;
    text.append("\n");
    text.append(joined.as_str());
    proof {
        reveal_strlit("\n");
        assert("\n"@ =~= seq!['\n']);
        assert(text@ =~= old(store)@[key@] + seq!['\n'] + join_spec(views_of(values@), seq!['\n']));
    }
    store.put(key.to_owned(), text);
    Ok(())
}

/// Append a single value to the list stored under `key`.
pub fn push(store: &mut Store, key: &str, value: String) -> (r: Result<(), HrdbError>)
    requires
        old(store).wf(),
    ensures
        final(store).wf(),
        match r {
            Ok(()) => old(store)@.contains_key(key@) && final(store)@ == old(store)@.insert(
                key@,
                old(store)@[key@] + seq!['\n'] + value@,
            ) && (value@.len() > 0 && no_char(value@, '\n') ==> list_of(final(store)@[key@])
                == list_of(old(store)@[key@]).push(value@)),
            Err(e) => e == HrdbError::NotFound && !old(store)@.contains_key(key@) && final(store)@
                == old(store)@,
        },
{
    let ghost v = value@;
    let mut values: Vec<String> = Vec::new();
    values.push(value);
    proof {
        assert(views_of(values@) =~~= seq![v]);
        assert(join_spec(seq![v], seq!['\n']) == v);
    }
    let r = append(store, key, &values);
    proof {
        if r is Ok && v.len() > 0 && no_char(v, '\n') {
            lemma_list_append(old(store)@[key@], seq![v]);
            assert(list_of(old(store)@[key@]) + seq![v] =~~= list_of(old(store)@[key@]).push(v));
        }
    }
    r
}

/// Read the list stored under `key` as its entries.
pub fn list(store: &Store, key: &str) -> (r: Result<Vec<String>, HrdbError>)
    requires
        store.wf(),
    ensures
        match r {
            Ok(v) => store@.contains_key(key@) && views_of(v@) == list_of(store@[key@]),
            Err(e) => e == HrdbError::NotFound && !store@.contains_key(key@),
        },
{
    let contents = match read(store, key) {
        Ok(c) => c,
        Err(e) => {
            return Err(e);
        },
    };
    Ok(split_drop_empty(contents.as_str(), '\n'))
}

/// Create the list under `key` as empty if it does not exist yet.
pub fn ensure(store: &mut Store, key: &str)
    requires
        old(store).wf(),
    ensures
        final(store).wf(),
        final(store)@ == if old(store)@.contains_key(key@) {
            old(store)@
        } else {
            old(store)@.insert(key@, Seq::<char>::empty())
        },
{
    if !store.contains(key) {
        store.put(key.to_owned(), String::new());
    } else {
        proof {
            assert(store@ =~= old(store)@);
        }
    }
}

} // verus!
