//! Plain records for dumping the backend's contents: the key listing
//! shape the transport hands back, and the values under those keys.

use vstd::prelude::*;
use crate::errors::HrdbError;
use crate::store::{read, Store};
use crate::strutil::views_of;

verus! {

/// One listed key.
pub struct KeyRust {
    pub name: String,
}

/// A key listing: whether it is complete, and the keys.
pub struct KeysRust {
    pub list_complete: bool,
    pub keys: Vec<KeyRust>,
}

/// The names of a key listing, in order.
pub fn to_key_list(keys_rust: KeysRust) -> (r: Vec<String>)
    ensures
        views_of(r@) == keys_rust.keys@.map_values(|k: KeyRust| k.name@),
{
    let ghost all = keys_rust.keys@.map_values(|k: KeyRust| k.name@);
    let mut result: Vec<String> = Vec::new();
    let mut i: usize = 0;
    let n = keys_rust.keys.len();
    while i < n
        invariant
            n == keys_rust.keys@.len(),
            all == keys_rust.keys@.map_values(|k: KeyRust| k.name@),
            i <= n,
            views_of(result@) == all.take(i as int),
        decreases n - i,
    {
        let ghost o0 = result@;
        result.push(keys_rust.keys[i].name.clone());
        proof {
            assert(result@ =~= o0.push(keys_rust.keys@[i as int].name));
            assert(all[i as int] == keys_rust.keys@[i as int].name@);
            crate::strutil::lemma_views_take_push(
                o0,
                keys_rust.keys@[i as int].name,
                all,
                i as int,
            );
        }
        i = i + 1;
    }
    proof {
        assert(all.take(n as int) =~~= all);
    }
    result
}

/// The value stored under each key, paired with the key; fails with
/// `NotFound` exactly when some key is absent.
pub fn get_all_values(store: &Store, keys: Vec<String>) -> (r: Result<
    Vec<(String, String)>,
    HrdbError,
>)
    requires
        store.wf(),
    ensures
        match r {
            Ok(v) => v@.len() == keys@.len() && (forall|i: int|
                0 <= i < keys@.len() ==> store@.contains_key((#[trigger] keys@[i])@)) && (forall|
                i: int,
            |
                0 <= i < v@.len() ==> (#[trigger] v@[i]).0@ == keys@[i]@ && v@[i].1@
                    == store@[keys@[i]@]),
            Err(e) => e == HrdbError::NotFound && exists|i: int|
                0 <= i < keys@.len() && !store@.contains_key((#[trigger] keys@[i])@),
        },
{
    let mut values: Vec<(String, String)> = Vec::new();
    let mut i: usize = 0;
    let n = keys.len();
    while i < n
        invariant
            store.wf(),
            n == keys@.len(),
            i <= n,
            values@.len() == i,
            forall|j: int| 0 <= j < i ==> store@.contains_key((#[trigger] keys@[j])@),
            forall|j: int|
                0 <= j < i ==> (#[trigger] values@[j]).0@ == keys@[j]@ && values@[j].1@
                    == store@[keys@[j]@],
        decreases n - i,
    {
        let value = match read(store, keys[i].as_str()) {
            Ok(v) => v,
            Err(e) => {
                return Err(e);
            },
        };
        let ghost o0 = values@;
        let ghost vv = value@;
        values.push((keys[i].clone(), value));
        proof {
            assert(values@.len() == i + 1);
            assert(forall|j: int| 0 <= j < i ==> #[trigger] values@[j] == o0[j]);
            assert(values@[i as int].0@ == keys@[i as int]@);
            assert(values@[i as int].1@ == store@[keys@[i as int]@]);
        }
        i = i + 1;
    }
    Ok(values)
}

} // verus!
