//! A small string-to-string dictionary kept as an association list with
//! unique keys, in insertion order.  Pages use it for their metadata
//! fields and for the child map; keeping the pair order part of the
//! value makes the record serialization a pure function of the value.

use vstd::prelude::*;
use crate::strutil::str_eq;

verus! {

/// Whether no key occurs twice in a pair sequence.
pub open spec fn unique_keys(s: Seq<(Seq<char>, Seq<char>)>) -> bool {
    forall|i: int, j: int| 0 <= i < j < s.len() ==> (#[trigger] s[i]).0 != (#[trigger] s[j]).0
}

/// Whether some pair of `s` carries the value `v`.
pub open spec fn has_val(s: Seq<(Seq<char>, Seq<char>)>, v: Seq<char>) -> bool {
    exists|i: int| 0 <= i < s.len() && (#[trigger] s[i]).1 == v
}

/// Whether some pair of `s` carries the key `k`.
pub open spec fn has_key(s: Seq<(Seq<char>, Seq<char>)>, k: Seq<char>) -> bool {
    exists|i: int| 0 <= i < s.len() && (#[trigger] s[i]).0 == k
}

/// The index of the pair carrying `k` (unique when keys are unique).
pub open spec fn key_index(s: Seq<(Seq<char>, Seq<char>)>, k: Seq<char>) -> int {
    choose|i: int| 0 <= i < s.len() && (#[trigger] s[i]).0 == k
}

/// The pair sequence as a finite map.
pub open spec fn map_of(s: Seq<(Seq<char>, Seq<char>)>) -> Map<Seq<char>, Seq<char>>
    decreases s.len(),
{
    if s.len() == 0 {
        Map::empty()
    } else {
        map_of(s.drop_last()).insert(s.last().0, s.last().1)
    }
}

/// Replace the value under `k` if present, append the pair otherwise.
pub open spec fn seq_insert(
    s: Seq<(Seq<char>, Seq<char>)>,
    k: Seq<char>,
    v: Seq<char>,
) -> Seq<(Seq<char>, Seq<char>)> {
    if has_key(s, k) {
        s.update(key_index(s, k), (k, v))
    } else {
        s.push((k, v))
    }
}

/// Drop the pair carrying `k`, if any.
pub open spec fn seq_remove(s: Seq<(Seq<char>, Seq<char>)>, k: Seq<char>) -> Seq<
    (Seq<char>, Seq<char>),
> {
    if has_key(s, k) {
        s.remove(key_index(s, k))
    } else {
        s
    }
}

pub proof fn lemma_map_of_contains(s: Seq<(Seq<char>, Seq<char>)>, k: Seq<char>)
    ensures
        map_of(s).contains_key(k) <==> has_key(s, k),
    decreases s.len(),
{
    if s.len() > 0 {
        lemma_map_of_contains(s.drop_last(), k);
        if has_key(s, k) {
            let i = choose|i: int| 0 <= i < s.len() && (#[trigger] s[i]).0 == k;
            if i < s.len() - 1 {
                assert(s.drop_last()[i].0 == k);
                assert(has_key(s.drop_last(), k));
            }
        }
        if has_key(s.drop_last(), k) {
            let i = choose|i: int| 0 <= i < s.drop_last().len() && (#[trigger] s.drop_last()[i]).0
                == k;
            assert(s[i].0 == k);
            assert(has_key(s, k));
        }
    }
}

pub proof fn lemma_map_of_value(s: Seq<(Seq<char>, Seq<char>)>, i: int)
    requires
        unique_keys(s),
        0 <= i < s.len(),
    ensures
        map_of(s).contains_key(s[i].0),
        map_of(s)[s[i].0] == s[i].1,
    decreases s.len(),
{
    if i == s.len() - 1 {
    } else {
        assert(s.drop_last()[i] == s[i]);
        assert(unique_keys(s.drop_last())) by {
            assert(forall|a: int, b: int|
                0 <= a < b < s.drop_last().len() ==> s.drop_last()[a] == s[a] && s.drop_last()[b]
                    == s[b]);
        }
        lemma_map_of_value(s.drop_last(), i);
        assert(s[i].0 != s.last().0);
    }
}

/// A string dictionary: unique keys, insertion order retained.
#[derive(Debug)]
pub struct Dict {
    pairs: Vec<(String, String)>,
}

impl Dict {
    /// The dictionary as an ordered sequence of key-value pairs.
    pub closed spec fn seqv(&self) -> Seq<(Seq<char>, Seq<char>)> {
        self.pairs@.map_values(|p: (String, String)| (p.0@, p.1@))
    }

    /// No key occurs twice.
    pub open spec fn wf(&self) -> bool {
        unique_keys(self.seqv())
    }

    pub fn new() -> (r: Dict)
        ensures
            r.wf(),
            r.seqv() == Seq::<(Seq<char>, Seq<char>)>::empty(),
            r@ == Map::<Seq<char>, Seq<char>>::empty(),
    {
        let d = Dict { pairs: Vec::new() };
        proof {
            assert(d.seqv() =~= Seq::<(Seq<char>, Seq<char>)>::empty());
        }
        d
    }

    pub fn len(&self) -> (r: usize)
        ensures
            r == self.seqv().len(),
    {
        self.pairs.len()
    }

    /// The key of the `i`-th pair, in insertion order.
    pub fn key_at(&self, i: usize) -> (r: &String)
        requires
            i < self.seqv().len(),
        ensures
            r@ == self.seqv()[i as int].0,
    {
        &self.pairs[i].0
    }

    /// The value of the `i`-th pair, in insertion order.
    pub fn val_at(&self, i: usize) -> (r: &String)
        requires
            i < self.seqv().len(),
        ensures
            r@ == self.seqv()[i as int].1,
    {
        &self.pairs[i].1
    }

    fn find(&self, k: &str) -> (r: Option<usize>)
        ensures
            match r {
                Some(i) => i < self.seqv().len() && self.seqv()[i as int].0 == k@,
                None => !has_key(self.seqv(), k@),
            },
    {
        let mut i: usize = 0;
        while i < self.pairs.len()
            invariant
                self.seqv().len() == self.pairs@.len(),
                i <= self.pairs@.len(),
                forall|j: int| 0 <= j < i ==> (#[trigger] self.seqv()[j]).0 != k@,
            decreases self.pairs@.len() - i,
        {
            if str_eq(self.pairs[i].0.as_str(), k) {
                return Some(i);
            }
            i = i + 1;
        }
        proof {
            assert(!has_key(self.seqv(), k@));
        }
        None
    }

    /// Look a key up; `None` exactly when the key is absent.
    pub fn get(&self, k: &str) -> (r: Option<&String>)
        requires
            self.wf(),
        ensures
            match r {
                Some(v) => self@.contains_key(k@) && v@ == self@[k@],
                None => !self@.contains_key(k@),
            },
    {
        proof {
            lemma_map_of_contains(self.seqv(), k@);
        }
        match self.find(k) {
            Some(i) => {
                proof {
                    lemma_map_of_value(self.seqv(), i as int);
                }
                Some(&self.pairs[i].1)
            },
            None => None,
        }
    }

    /// Whether the key is present.
    pub fn contains(&self, k: &str) -> (r: bool)
        requires
            self.wf(),
        ensures
            r == self@.contains_key(k@),
    {
        proof {
            lemma_map_of_contains(self.seqv(), k@);
        }
        match self.find(k) {
            Some(_) => true,
            None => false,
        }
    }

    /// Bind `k` to `v`, replacing any earlier binding in place.
    pub fn insert(&mut self, k: String, v: String)
        requires
            old(self).wf(),
        ensures
            final(self).wf(),
            final(self).seqv() == seq_insert(old(self).seqv(), k@, v@),
            final(self)@ == old(self)@.insert(k@, v@),
    {
        let ghost s0 = self.seqv();
        match self.find(k.as_str()) {
            Some(i) => {
                proof {
                    // the found index is the unique key index
                    let w = key_index(s0, k@);
                    assert(s0[w].0 == k@ && s0[i as int].0 == k@);
                    assert(w == i as int);
                }
                self.pairs.set(i, (k, v));
                proof {
                    assert(self.seqv() =~= s0.update(i as int, (k@, v@)));
                    lemma_seq_insert_map(s0, k@, v@);
                    assert(self.seqv() == seq_insert(s0, k@, v@));
                }
            },
            None => {
                self.pairs.push((k, v));
                proof {
                    assert(self.seqv() =~= s0.push((k@, v@)));
                    lemma_seq_insert_map(s0, k@, v@);
                    assert(self.seqv() == seq_insert(s0, k@, v@));
                }
            },
        }
    }

    /// Drop the binding of `k`, if any.
    pub fn remove(&mut self, k: &str)
        requires
            old(self).wf(),
        ensures
            final(self).wf(),
            final(self).seqv() == seq_remove(old(self).seqv(), k@),
            final(self)@ == old(self)@.remove(k@),
    {
        let ghost s0 = self.seqv();
        match self.find(k) {
            Some(i) => {
                proof {
                    let w = key_index(s0, k@);
                    assert(s0[w].0 == k@ && s0[i as int].0 == k@);
                    assert(w == i as int);
                }
                let _ = self.pairs.remove(i);
                proof {
                    assert(self.seqv() =~= s0.remove(i as int));
                    lemma_seq_remove_map(s0, k@);
                    assert(self.seqv() == seq_remove(s0, k@));
                }
            },
            None => {
                proof {
                    lemma_map_of_contains(s0, k@);
                    assert(self@ =~= old(self)@.remove(k@));
                }
            },
        }
    }
}

impl View for Dict {
    type V = Map<Seq<char>, Seq<char>>;

    open spec fn view(&self) -> Map<Seq<char>, Seq<char>> {
        map_of(self.seqv())
    }
}

/// Inserting into a unique-key pair sequence keeps the keys unique and
/// updates the map view exactly as `Map::insert` does.
pub proof fn lemma_seq_insert_map(s: Seq<(Seq<char>, Seq<char>)>, k: Seq<char>, v: Seq<char>)
    requires
        unique_keys(s),
    ensures
        unique_keys(seq_insert(s, k, v)),
        map_of(seq_insert(s, k, v)) == map_of(s).insert(k, v),
{
    let t = seq_insert(s, k, v);
    if has_key(s, k) {
        let w = key_index(s, k);
        assert(0 <= w < s.len() && s[w].0 == k);
        assert(unique_keys(t)) by {
            assert(forall|i: int| 0 <= i < t.len() && i != w ==> t[i] == s[i]);
            assert(t[w].0 == k);
        }
        assert(map_of(t) =~= map_of(s).insert(k, v)) by {
            lemma_map_of_agreement(s, t, k, v, w);
        }
    } else {
        assert(unique_keys(t)) by {
            assert(forall|i: int| 0 <= i < s.len() ==> (#[trigger] s[i]).0 != k);
            assert(forall|i: int| 0 <= i < s.len() ==> t[i] == s[i]);
        }
        assert(t.drop_last() =~= s);
        assert(map_of(t) == map_of(s).insert(k, v));
    }
}

/// Two unique-key sequences that differ only in the value at one key
/// have map views related by `insert`.
proof fn lemma_map_of_agreement(
    s: Seq<(Seq<char>, Seq<char>)>,
    t: Seq<(Seq<char>, Seq<char>)>,
    k: Seq<char>,
    v: Seq<char>,
    w: int,
)
    requires
        unique_keys(s),
        unique_keys(t),
        0 <= w < s.len(),
        t.len() == s.len(),
        s[w].0 == k,
        t[w] == (k, v),
        forall|i: int| 0 <= i < s.len() && i != w ==> t[i] == s[i],
    ensures
        map_of(t) =~= map_of(s).insert(k, v),
{
    assert forall|x: Seq<char>| map_of(t).contains_key(x) <==> map_of(s).insert(
        k,
        v,
    ).contains_key(x) by {
        lemma_map_of_contains(s, x);
        lemma_map_of_contains(t, x);
        if has_key(s, x) {
            let i = choose|i: int| 0 <= i < s.len() && (#[trigger] s[i]).0 == x;
            assert(t[i].0 == x);
        }
        if has_key(t, x) {
            let i = choose|i: int| 0 <= i < t.len() && (#[trigger] t[i]).0 == x;
            if i != w {
                assert(s[i].0 == x);
            }
        }
    }
    assert forall|x: Seq<char>| map_of(t).contains_key(x) implies map_of(t)[x] == map_of(s).insert(
        k,
        v,
    )[x] by {
        lemma_map_of_contains(t, x);
        let i = choose|i: int| 0 <= i < t.len() && (#[trigger] t[i]).0 == x;
        lemma_map_of_value(t, i);
        if x == k {
            assert(i == w);
            assert(map_of(t)[x] == v);
        } else {
            assert(i != w);
            assert(s[i].0 == x);
            lemma_map_of_value(s, i);
        }
    }
}

/// Removing a key from a unique-key pair sequence keeps the keys unique
/// and updates the map view exactly as `Map::remove` does.
pub proof fn lemma_seq_remove_map(s: Seq<(Seq<char>, Seq<char>)>, k: Seq<char>)
    requires
        unique_keys(s),
    ensures
        unique_keys(seq_remove(s, k)),
        map_of(seq_remove(s, k)) == map_of(s).remove(k),
{
    let t = seq_remove(s, k);
    if has_key(s, k) {
        let w = key_index(s, k);
        assert(0 <= w < s.len() && s[w].0 == k);
        assert(t =~= s.remove(w));
        assert(forall|i: int| 0 <= i < w ==> t[i] == s[i]);
        assert(forall|i: int| w <= i < t.len() ==> t[i] == s[i + 1]);
        assert(unique_keys(t)) by {
            assert forall|a: int, b: int| 0 <= a < b < t.len() implies (#[trigger] t[a]).0 != (
            #[trigger] t[b]).0 by {
                let a2 = if a < w {
                    a
                } else {
                    a + 1
                };
                let b2 = if b < w {
                    b
                } else {
                    b + 1
                };
                assert(t[a] == s[a2] && t[b] == s[b2]);
            }
        }
        assert(map_of(t) =~= map_of(s).remove(k)) by {
            assert forall|x: Seq<char>| map_of(t).contains_key(x) <==> map_of(s).remove(
                k,
            ).contains_key(x) by {
                lemma_map_of_contains(s, x);
                lemma_map_of_contains(t, x);
                if has_key(t, x) {
                    let i = choose|i: int| 0 <= i < t.len() && (#[trigger] t[i]).0 == x;
                    let i2 = if i < w {
                        i
                    } else {
                        i + 1
                    };
                    assert(s[i2].0 == x);
                    assert(i2 != w ==> x != k) by {
                        if x == k {
                            assert(s[i2].0 == s[w].0);
                        }
                    }
                }
                if has_key(s, x) && x != k {
                    let i = choose|i: int| 0 <= i < s.len() && (#[trigger] s[i]).0 == x;
                    assert(i != w);
                    let i2 = if i < w {
                        i
                    } else {
                        i - 1
                    };
                    assert(t[i2].0 == x);
                }
            }
            assert forall|x: Seq<char>| map_of(t).contains_key(x) implies map_of(t)[x] == map_of(
                s,
            ).remove(k)[x] by {
                lemma_map_of_contains(t, x);
                let i = choose|i: int| 0 <= i < t.len() && (#[trigger] t[i]).0 == x;
                lemma_map_of_value(t, i);
                let i2 = if i < w {
                    i
                } else {
                    i + 1
                };
                assert(s[i2] == t[i]);
                lemma_map_of_value(s, i2);
                assert(x != k) by {
                    if x == k {
                        assert(s[i2].0 == s[w].0);
                    }
                }
            }
        }
    } else {
        lemma_map_of_contains(s, k);
        assert(map_of(t) =~= map_of(s).remove(k));
    }
}

} // verus!
