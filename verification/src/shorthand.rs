//! The shorthand table: a side index from short human-readable names to
//! a `(version number, page id)` pair on the `master` branch.  Entries
//! are best-effort pointers — the page may have moved since — and are
//! refreshed on every commit to `master`.  The table lives under the
//! fixed key `shorthand`, the one record that is overwritten in place.

use vstd::prelude::*;
use vstd::string::StrSliceExecFns;
use vstd::string::StringExecFns;
use crate::codec::{
    cnt_enc, cnt_write, enc_pairs, fits_len, parse_cnt, parse_dict, sp_cnt, sp_dict,
};
use crate::dict::{map_of, seq_insert, unique_keys, Dict};
use crate::errors::HrdbError;
use crate::store::{mutate, read, Store};

verus! {

/// Whether a stored entry value parses as `version '#' id`.
pub open spec fn val_ok(v: Seq<char>) -> bool {
    sp_cnt(v, 0) is Some
}

/// The version number carried by an entry value.
pub open spec fn val_ver(v: Seq<char>) -> nat {
    sp_cnt(v, 0)->Some_0.0
}

/// The page id carried by an entry value.
pub open spec fn val_id(v: Seq<char>) -> Seq<char> {
    v.skip(sp_cnt(v, 0)->Some_0.1)
}

/// An entry value: the version number as a count, then the id.
pub open spec fn enc_val(ver: nat, id: Seq<char>) -> Seq<char> {
    cnt_enc(ver) + id
}

pub proof fn lemma_val_round_trip(ver: nat, id: Seq<char>)
    requires
        fits_len(ver),
    ensures
        val_ok(enc_val(ver, id)),
        val_ver(enc_val(ver, id)) == ver,
        val_id(enc_val(ver, id)) == id,
{
    let v = enc_val(ver, id);
    assert(v =~= Seq::<char>::empty() + cnt_enc(ver) + id);
    crate::codec::lemma_sp_cnt_at(Seq::<char>::empty(), ver, id);
    assert(v.skip(cnt_enc(ver).len() as int) =~= id);
}

/// Decode a stored table: a dictionary block covering the whole string
/// whose every value parses as an entry value.
#[verifier::opaque]
pub open spec fn dec_table(s: Seq<char>) -> Option<Seq<(Seq<char>, Seq<char>)>> {
    match sp_dict(s, 0) {
        None => None,
        Some(ps) => if ps.1 == s.len() && (forall|i: int|
            0 <= i < ps.0.len() ==> val_ok((#[trigger] ps.0[i]).1)) {
            Some(ps.0)
        } else {
            None
        },
    }
}

/// Decoding a freshly encoded table gives back exactly its entries.
pub proof fn lemma_table_round_trip(ps: Seq<(Seq<char>, Seq<char>)>)
    requires
        unique_keys(ps),
        fits_len(ps.len()),
        forall|i: int|
            0 <= i < ps.len() ==> fits_len((#[trigger] ps[i]).0.len()) && fits_len(ps[i].1.len())
                && val_ok(ps[i].1),
    ensures
        dec_table(enc_pairs(ps)) == Some(ps),
{
    reveal(crate::shorthand::dec_table);
    let s = enc_pairs(ps);
    assert(s =~= Seq::<char>::empty() + enc_pairs(ps) + Seq::<char>::empty());
    crate::codec::lemma_sp_dict_at(Seq::<char>::empty(), ps, Seq::<char>::empty());
}

/// The map a list of `(name, version number, id)` entries builds up,
/// later entries replacing earlier ones for the same name.
pub open spec fn wrap_map(es: Seq<(String, u64, String)>) -> Map<Seq<char>, (nat, Seq<char>)>
    decreases es.len(),
{
    if es.len() == 0 {
        Map::empty()
    } else {
        wrap_map(es.drop_last()).insert(es.last().0@, (es.last().1 as nat, es.last().2@))
    }
}

/// The shorthand table: short names mapped to `(version, page id)`.
pub struct Shorthand {
    table: Dict,
}

impl View for Shorthand {
    type V = Map<Seq<char>, (nat, Seq<char>)>;

    open spec fn view(&self) -> Map<Seq<char>, (nat, Seq<char>)> {
        Map::new(
            |k: Seq<char>| map_of(self.seqv()).contains_key(k),
            |k: Seq<char>| (val_ver(map_of(self.seqv())[k]), val_id(map_of(self.seqv())[k])),
        )
    }
}

impl Shorthand {
    /// The table as an ordered sequence of (name, encoded value) pairs.
    pub closed spec fn seqv(&self) -> Seq<(Seq<char>, Seq<char>)> {
        self.table.seqv()
    }

    /// Names are unique and every stored value parses.
    pub open spec fn wf(&self) -> bool {
        unique_keys(self.seqv()) && (forall|i: int|
            0 <= i < self.seqv().len() ==> val_ok((#[trigger] self.seqv()[i]).1))
    }

    /// An empty table.
    pub fn new() -> (r: Shorthand)
        ensures
            r.wf(),
            r.seqv() == Seq::<(Seq<char>, Seq<char>)>::empty(),
    {
        Shorthand { table: Dict::new() }
    }

    /// Build a table from `(name, version number, id)` entries; a later
    /// entry for the same name replaces the earlier one.
    pub fn wrap(entries: Vec<(String, u64, String)>) -> (r: Shorthand)
        ensures
            r.wf(),
            r@ == wrap_map(entries@),
    {
        let mut t = Shorthand::new();
        let mut i: usize = 0;
        proof {
            assert(t@ =~~= wrap_map(entries@.take(0)));
        }
        while i < entries.len()
            invariant
                t.wf(),
                i <= entries@.len(),
                t@ == wrap_map(entries@.take(i as int)),
            decreases entries@.len() - i,
        {
            let (name, ver, id) = (
                entries[i].0.clone(),
                entries[i].1,
                entries[i].2.clone(),
            );
            t.insert(name, ver, id);
            proof {
                assert(entries@.take(i as int + 1).drop_last() =~~= entries@.take(i as int));
                assert(entries@.take(i as int + 1).last() == entries@[i as int]);
            }
            i = i + 1;
        }
        proof {
            assert(entries@.take(entries@.len() as int) =~~= entries@);
        }
        t
    }

    /// The table's entries as `(name, version number, id)` triples.
    pub fn unwrap(self) -> (r: Vec<(String, u64, String)>)
        requires
            self.wf(),
        ensures
            r@.len() == self.seqv().len(),
            forall|i: int|
                0 <= i < r@.len() ==> (#[trigger] r@[i]).0@ == self.seqv()[i].0 && r@[i].1 as nat
                    == val_ver(self.seqv()[i].1) && r@[i].2@ == val_id(self.seqv()[i].1),
    {
        let n = self.table.len();
        let mut out: Vec<(String, u64, String)> = Vec::new();
        let mut i: usize = 0;
        while i < n
            invariant
                self.wf(),
                n == self.seqv().len(),
                i <= n,
                out@.len() == i,
                forall|j: int|
                    0 <= j < i ==> (#[trigger] out@[j]).0@ == self.seqv()[j].0 && out@[j].1 as nat
                        == val_ver(self.seqv()[j].1) && out@[j].2@ == val_id(self.seqv()[j].1),
            decreases n - i,
        {
            let name = self.table.key_at(i).clone();
            let val = self.table.val_at(i).clone();
            let vn = val.as_str().unicode_len();
            let (ver, j) = match parse_cnt(val.as_str(), 0) {
                Some(p) => p,
                None => {
                    proof {
                        assert(val_ok(self.seqv()[i as int].1));
                        assert(false);
                    }
                    (0, 0)
                },
            };
            proof {
                crate::codec::lemma_sp_cnt_progress(val@, 0);
            }
            let id = val.as_str().substring_char(j, vn).to_owned();
            proof {
                assert(id@ =~= val_id(self.seqv()[i as int].1));
            }
            out.push((name, ver, id));
            i = i + 1;
        }
        out
    }

    /// Look a name up.
    pub fn get(&self, name: &str) -> (r: Option<(u64, String)>)
        requires
            self.wf(),
        ensures
            match r {
                Some(p) => self@.contains_key(name@) && self@[name@] == (p.0 as nat, p.1@),
                None => !self@.contains_key(name@),
            },
    {
        proof {
            crate::dict::lemma_map_of_contains(self.seqv(), name@);
        }
        let val = match self.table.get(name) {
            Some(v) => v.clone(),
            None => {
                return None;
            },
        };
        proof {
            let i = choose|i: int|
                0 <= i < self.seqv().len() && (#[trigger] self.seqv()[i]).0 == name@;
            assert(val_ok(self.seqv()[i].1));
            crate::dict::lemma_map_of_value(self.seqv(), i);
        }
        let vn = val.as_str().unicode_len();
        let (ver, j) = match parse_cnt(val.as_str(), 0) {
            Some(p) => p,
            None => {
                proof {
                    assert(false);
                }
                return None;
            },
        };
        proof {
            crate::codec::lemma_sp_cnt_progress(val@, 0);
        }
        let id = val.as_str().substring_char(j, vn).to_owned();
        proof {
            assert(id@ =~= val_id(val@));
        }
        Some((ver, id))
    }

    /// Bind `name` to `(ver, id)`, replacing any earlier binding.
    pub fn insert(&mut self, name: String, ver: u64, id: String)
        requires
            old(self).wf(),
        ensures
            final(self).wf(),
            final(self).seqv() == seq_insert(old(self).seqv(), name@, enc_val(ver as nat, id@)),
            final(self)@ == old(self)@.insert(name@, (ver as nat, id@)),
    {
        let ghost s0 = self.seqv();
        let mut val = String::new();
        cnt_write(&mut val, ver);
        val.append(id.as_str());
        proof {
            assert(val@ =~= enc_val(ver as nat, id@));
            lemma_val_round_trip(ver as nat, id@);
        }
        self.table.insert(name, val);
        proof {
            let nv = enc_val(ver as nat, id@);
            crate::dict::lemma_seq_insert_map(s0, name@, nv);
            let s1 = self.seqv();
            assert(map_of(s1) == map_of(s0).insert(name@, nv));
            assert(forall|i: int| 0 <= i < s1.len() ==> val_ok((#[trigger] s1[i]).1)) by {
                if crate::dict::has_key(s0, name@) {
                    let w = crate::dict::key_index(s0, name@);
                    assert(forall|i: int| 0 <= i < s1.len() && i != w ==> s1[i] == s0[i]);
                    assert(s1[w].1 == nv);
                } else {
                    assert(forall|i: int| 0 <= i < s0.len() ==> s1[i] == s0[i]);
                    assert(s1[s0.len() as int].1 == nv);
                }
            }
            assert(final(self)@ =~~= old(self)@.insert(name@, (ver as nat, id@))) by {
                assert forall|k: Seq<char>| map_of(s1).contains_key(k) implies final(self)@[k]
                    == old(self)@.insert(name@, (ver as nat, id@))[k] by {
                    if k == name@ {
                        assert(map_of(s1)[k] == nv);
                    } else {
                        assert(map_of(s1)[k] == map_of(s0)[k]);
                    }
                }
            }
        }
    }

    /// The table's serialized record.
    pub fn to_string(&self) -> (r: String)
        ensures
            r@ == enc_pairs(self.seqv()),
            fits_len(self.seqv().len()),
            forall|i: int|
                0 <= i < self.seqv().len() ==> fits_len((#[trigger] self.seqv()[i]).0.len())
                    && fits_len(self.seqv()[i].1.len()),
    {
        let mut out = String::new();
        crate::codec::write_dict(&mut out, &self.table);
        out
    }

    /// Load the table stored under `shorthand`.
    pub fn read(store: &Store) -> (r: Result<Shorthand, HrdbError>)
        requires
            store.wf(),
        ensures
            match r {
                Ok(t) => t.wf() && store@.contains_key("shorthand"@) && dec_table(
                    store@["shorthand"@],
                ) == Some(t.seqv()),
                Err(e) => {
                    &&& (e == HrdbError::NotFound || e == HrdbError::Corrupt)
                    &&& (e == HrdbError::NotFound <==> !store@.contains_key("shorthand"@))
                    &&& (e == HrdbError::Corrupt <==> store@.contains_key("shorthand"@)
                        && dec_table(store@["shorthand"@]) is None)
                },
            },
    {
        proof {
            reveal(crate::shorthand::dec_table);
        }
        let text = match read(store, "shorthand") {
            Ok(t) => t,
            Err(e) => {
                return Err(e);
            },
        };
        let n = text.as_str().unicode_len();
        let (table, j) = match parse_dict(text.as_str(), 0) {
            Some(p) => p,
            None => {
                return Err(HrdbError::Corrupt);
            },
        };
        if j != n {
            return Err(HrdbError::Corrupt);
        }
        // every entry value must itself parse
        let m = table.len();
        let mut i: usize = 0;
        while i < m
            invariant
                table.wf(),
                m == table.seqv().len(),
                i <= m,
                sp_dict(text@, 0) == Some((table.seqv(), n as int)),
                n == text@.len(),
                text@ == store@["shorthand"@],
                store@.contains_key("shorthand"@),
                forall|j2: int| 0 <= j2 < i ==> val_ok((#[trigger] table.seqv()[j2]).1),
            decreases m - i,
        {
            match parse_cnt(table.val_at(i).as_str(), 0) {
                Some(_) => {},
                None => {
                    proof {
                        reveal(crate::shorthand::dec_table);
                    }
                    return Err(HrdbError::Corrupt);
                },
            }
            i = i + 1;
        }
        Ok(Shorthand { table })
    }

    /// Persist the table under `shorthand`.
    pub fn write(&self, store: &mut Store)
        requires
            old(store).wf(),
        ensures
            final(store).wf(),
            final(store)@ == old(store)@.insert("shorthand"@, enc_pairs(self.seqv())),
            fits_len(self.seqv().len()),
            forall|i: int|
                0 <= i < self.seqv().len() ==> fits_len((#[trigger] self.seqv()[i]).0.len())
                    && fits_len(self.seqv()[i].1.len()),
    {
        let text = self.to_string();
        mutate(store, "shorthand", text.as_str());
    }

    /// Refresh one entry: load the table, bind `name` to
    /// `(ver_no, id)`, store the table back.  Fails, leaving the store
    /// unchanged, when the table is missing or does not decode.
    pub fn update(store: &mut Store, name: String, ver_no: u64, id: String) -> (r: Result<
        (),
        HrdbError,
    >)
        requires
            old(store).wf(),
        ensures
            final(store).wf(),
            match r {
                Ok(()) => {
                    &&& old(store)@.contains_key("shorthand"@)
                    &&& dec_table(old(store)@["shorthand"@]) matches Some(ps)
                    &&& final(store)@ == old(store)@.insert(
                        "shorthand"@,
                        enc_pairs(
                            seq_insert(
                                dec_table(old(store)@["shorthand"@])->Some_0,
                                name@,
                                enc_val(ver_no as nat, id@),
                            ),
                        ),
                    )
                },
                Err(e) => {
                    &&& final(store)@ == old(store)@
                    &&& (e == HrdbError::NotFound || e == HrdbError::Corrupt)
                    &&& (e == HrdbError::NotFound <==> !old(store)@.contains_key("shorthand"@))
                    &&& (e == HrdbError::Corrupt <==> old(store)@.contains_key("shorthand"@)
                        && dec_table(old(store)@["shorthand"@]) is None)
                },
            },
    {
        let mut table = match Shorthand::read(store) {
            Ok(t) => t,
            Err(e) => {
                return Err(e);
            },
        };
        table.insert(name, ver_no, id);
        table.write(store);
        Ok(())
    }
}

} // verus!
