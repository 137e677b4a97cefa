//! String helpers shared by the record codecs and the key-value layer:
//! equality, splitting on a separator, and joining with a separator.

use vstd::prelude::*;
use vstd::string::StrSliceExecFns;
use vstd::string::StringExecFns;

verus! {

/// The views of a vector of strings, as a sequence of character sequences.
pub open spec fn views_of(q: Seq<String>) -> Seq<Seq<char>> {
    q.map_values(|s: String| s@)
}

/// Character-for-character equality of two string slices.
pub fn str_eq(a: &str, b: &str) -> (r: bool)
    ensures
        r == (a@ == b@),
{
    let an = a.unicode_len();
    let bn = b.unicode_len();
    if an != bn {
        return false;
    }
    let mut i: usize = 0;
    while i < an
        invariant
            an == a@.len(),
            bn == b@.len(),
            an == bn,
            i <= an,
            forall|j: int| 0 <= j < i ==> a@[j] == b@[j],
        decreases an - i,
    {
        if a.get_char(i) != b.get_char(i) {
            return false;
        }
        i = i + 1;
    }
    proof {
        assert(a@ =~= b@);
    }
    true
}

/// Whether `c` occurs nowhere in `s`.
pub open spec fn no_char(s: Seq<char>, c: char) -> bool {
    forall|i: int| 0 <= i < s.len() ==> s[i] != c
}

/// Whether `c` occurs somewhere in `s`.
pub fn has_char(s: &str, c: char) -> (r: bool)
    ensures
        r == !no_char(s@, c),
{
    let n = s.unicode_len();
    let mut i: usize = 0;
    while i < n
        invariant
            n == s@.len(),
            i <= n,
            forall|j: int| 0 <= j < i ==> s@[j] != c,
        decreases n - i,
    {
        if s.get_char(i) == c {
            return true;
        }
        i = i + 1;
    }
    false
}

/// Split `s` at every occurrence of `sep`, keeping empty pieces.
/// A string with no separator yields a single piece; `k` separators
/// yield `k + 1` pieces.
pub open spec fn split_all(s: Seq<char>, sep: char) -> Seq<Seq<char>>
    decreases s.len(),
{
    if s.len() == 0 {
        seq![Seq::<char>::empty()]
    } else {
        let rest = split_all(s.drop_first(), sep);
        if s[0] == sep {
            seq![Seq::<char>::empty()] + rest
        } else {
            seq![seq![s[0]] + rest[0]] + rest.drop_first()
        }
    }
}

/// The non-empty pieces of `q`, in order.
pub open spec fn drop_empty(q: Seq<Seq<char>>) -> Seq<Seq<char>> {
    q.filter(|p: Seq<char>| p.len() > 0)
}

/// Split `s` at every occurrence of `sep` and drop the empty pieces.
pub open spec fn split_ne(s: Seq<char>, sep: char) -> Seq<Seq<char>> {
    drop_empty(split_all(s, sep))
}

pub proof fn lemma_drop_empty_push(q: Seq<Seq<char>>, v: Seq<char>)
    ensures
        v.len() > 0 ==> drop_empty(q.push(v)) == drop_empty(q).push(v),
        v.len() == 0 ==> drop_empty(q.push(v)) == drop_empty(q),
{
    reveal_with_fuel(Seq::<_>::filter, 2);
    assert(q.push(v).drop_last() =~~= q);
    assert(q.push(v).last() == v);
}

pub proof fn lemma_drop_empty_concat(a: Seq<Seq<char>>, b: Seq<Seq<char>>)
    ensures
        drop_empty(a + b) == drop_empty(a) + drop_empty(b),
{
    Seq::<Seq<char>>::filter_distributes_over_add(a, b, |p: Seq<char>| p.len() > 0);
}

pub proof fn lemma_split_all_len(s: Seq<char>, sep: char)
    ensures
        split_all(s, sep).len() >= 1,
    decreases s.len(),
{
    if s.len() != 0 {
        lemma_split_all_len(s.drop_first(), sep);
    }
}

/// Splitting a concatenation around one separator splits each side
/// independently.
pub proof fn lemma_split_all_concat(a: Seq<char>, b: Seq<char>, sep: char)
    ensures
        split_all(a + seq![sep] + b, sep) == split_all(a, sep) + split_all(b, sep),
    decreases a.len(),
{
    let s = a + seq![sep] + b;
    if a.len() == 0 {
        assert(s =~= seq![sep] + b);
        assert(s[0] == sep);
        assert(s.drop_first() =~= b);
        assert(split_all(s, sep) =~~= split_all(a, sep) + split_all(b, sep));
    } else {
        lemma_split_all_concat(a.drop_first(), b, sep);
        lemma_split_all_len(a.drop_first(), sep);
        lemma_split_all_len(b, sep);
        assert(s[0] == a[0]);
        assert(s.drop_first() =~= a.drop_first() + seq![sep] + b);
        let ra = split_all(a.drop_first(), sep);
        let rb = split_all(b, sep);
        assert(split_all(s.drop_first(), sep) == ra + rb);
        if a[0] == sep {
            assert(split_all(s, sep) =~~= split_all(a, sep) + split_all(b, sep));
        } else {
            assert((ra + rb)[0] == ra[0]);
            assert((ra + rb).drop_first() =~= ra.drop_first() + rb);
            assert(split_all(s, sep) =~~= split_all(a, sep) + split_all(b, sep));
        }
    }
}

/// A string without the separator splits into itself alone.
pub proof fn lemma_split_all_no_sep(v: Seq<char>, sep: char)
    requires
        no_char(v, sep),
    ensures
        split_all(v, sep) == seq![v],
    decreases v.len(),
{
    if v.len() == 0 {
        assert(split_all(v, sep) =~~= seq![v]);
    } else {
        lemma_split_all_no_sep(v.drop_first(), sep);
        assert(seq![v[0]] + v.drop_first() =~= v);
        assert(split_all(v, sep) =~~= seq![v]);
    }
}

/// A non-empty string without the separator survives the empty-piece
/// filter as itself alone.
pub proof fn lemma_split_ne_no_sep(v: Seq<char>, sep: char)
    requires
        no_char(v, sep),
        v.len() > 0,
    ensures
        split_ne(v, sep) == seq![v],
{
    lemma_split_all_no_sep(v, sep);
    reveal_with_fuel(Seq::<_>::filter, 2);
    assert(seq![v].drop_last() =~~= Seq::<Seq<char>>::empty());
    assert(split_ne(v, sep) =~~= seq![v]);
}

/// Split `s` at every occurrence of `sep`, keeping empty pieces.
pub fn split_keep(s: &str, sep: char) -> (r: Vec<String>)
    ensures
        views_of(r@) == split_all(s@, sep),
{
    let n = s.unicode_len();
    let mut out: Vec<String> = Vec::new();
    let mut cur: String = String::new();
    let mut i: usize = 0;
    proof {
        lemma_split_all_len(s@, sep);
        assert(s@.skip(0) =~= s@);
        assert(split_all(s@, sep) =~~= seq![split_all(s@, sep)[0]] + split_all(s@, sep).drop_first());
    }
    while i < n
        invariant
            n == s@.len(),
            i <= n,
            split_all(s@.skip(i as int), sep).len() >= 1,
            split_all(s@, sep) == views_of(out@) + seq![cur@ + split_all(s@.skip(i as int), sep)[0]]
                + split_all(s@.skip(i as int), sep).drop_first(),
        decreases n - i,
    {
        let ghost pre = s@.skip(i as int);
        let c = s.get_char(i);
        proof {
            assert(pre[0] == s@[i as int]);
            assert(pre.drop_first() =~= s@.skip(i as int + 1));
            lemma_split_all_len(s@.skip(i as int + 1), sep);
        }
        if c == sep {
            out.push(cur);
            cur = String::new();
            proof {
                let rest = split_all(s@.skip(i as int + 1), sep);
                assert(split_all(pre, sep) == seq![Seq::<char>::empty()] + rest);
                assert(split_all(pre, sep)[0] =~= Seq::<char>::empty());
                assert((seq![Seq::<char>::empty()] + rest).drop_first() =~= rest);
                assert(split_all(s@, sep) =~~= views_of(out@) + seq![cur@ + rest[0]]
                    + rest.drop_first());
            }
        } else {
            let piece = s.substring_char(i, i + 1);
            cur.append(piece);
            proof {
                let rest = split_all(s@.skip(i as int + 1), sep);
                assert(piece@ =~= seq![s@[i as int]]);
                assert(split_all(pre, sep) == seq![seq![pre[0]] + rest[0]] + rest.drop_first());
                assert(split_all(pre, sep)[0] =~= seq![s@[i as int]] + rest[0]);
                assert((seq![seq![pre[0]] + rest[0]] + rest.drop_first()).drop_first() =~= rest.drop_first());
                assert(cur@ + rest[0] =~= (cur@ + rest[0]));
                assert(split_all(s@, sep) =~~= views_of(out@) + seq![cur@ + rest[0]]
                    + rest.drop_first());
            }
        }
        i = i + 1;
    }
    proof {
        assert(s@.skip(n as int) =~= Seq::<char>::empty());
        assert(split_all(Seq::<char>::empty(), sep) =~~= seq![Seq::<char>::empty()]);
    }
    out.push(cur);
    proof {
        assert(views_of(out@) =~~= split_all(s@, sep));
    }
    out
}

/// Keep only the non-empty strings, in order.
pub fn keep_nonempty(pieces: Vec<String>) -> (r: Vec<String>)
    ensures
        views_of(r@) == drop_empty(views_of(pieces@)),
{
    let ghost all = views_of(pieces@);
    let mut out: Vec<String> = Vec::new();
    let mut i: usize = 0;
    while i < pieces.len()
        invariant
            pieces@.len() == all.len(),
            views_of(pieces@) == all,
            i <= all.len(),
            views_of(out@) == drop_empty(all.subrange(0, i as int)),
        decreases pieces@.len() - i,
    {
        let keep = !pieces[i].as_str().is_empty();
        proof {
            assert(all.subrange(0, i as int + 1) =~~= all.subrange(0, i as int).push(
                all[i as int]));
            lemma_drop_empty_push(all.subrange(0, i as int), all[i as int]);
            assert(all[i as int] == pieces@[i as int]@);
        }
        if keep {
            out.push(pieces[i].clone());
            proof {
                assert(views_of(out@) =~~= drop_empty(all.subrange(0, i as int + 1)));
            }
        } else {
            proof {
                assert(views_of(out@) =~~= drop_empty(all.subrange(0, i as int + 1)));
            }
        }
        i = i + 1;
    }
    proof {
        assert(all.subrange(0, all.len() as int) =~~= all);
    }
    out
}

/// Split `s` at every occurrence of `sep` and drop the empty pieces.
pub fn split_drop_empty(s: &str, sep: char) -> (r: Vec<String>)
    ensures
        views_of(r@) == split_ne(s@, sep),
{
    let pieces = split_keep(s, sep);
    keep_nonempty(pieces)
}

/// Pushing a string whose view is `all[k]` onto a prefix copy of
/// `all` extends the copied prefix by one.
pub proof fn lemma_views_take_push(o0: Seq<String>, x: String, all: Seq<Seq<char>>, k: int)
    requires
        0 <= k < all.len(),
        views_of(o0) == all.take(k),
        x@ == all[k],
    ensures
        views_of(o0.push(x)) == all.take(k + 1),
{
    assert(views_of(o0).len() == k);
    assert(o0.len() == k);
    assert(views_of(o0.push(x)).len() == k + 1);
    assert(forall|t: int| 0 <= t < k ==> #[trigger] views_of(o0.push(x))[t] == views_of(o0)[t]);
    assert(views_of(o0.push(x))[k] == x@);
    assert(views_of(o0.push(x)) =~~= all.take(k + 1));
}

/// The pieces of `q` joined with `sep` between consecutive pieces.
pub open spec fn join_spec(q: Seq<Seq<char>>, sep: Seq<char>) -> Seq<char>
    decreases q.len(),
{
    if q.len() == 0 {
        Seq::empty()
    } else if q.len() == 1 {
        q[0]
    } else {
        q[0] + sep + join_spec(q.drop_first(), sep)
    }
}

pub proof fn lemma_join_push(q: Seq<Seq<char>>, v: Seq<char>, sep: Seq<char>)
    requires
        q.len() >= 1,
    ensures
        join_spec(q.push(v), sep) == join_spec(q, sep) + sep + v,
    decreases q.len(),
{
    if q.len() == 1 {
        assert(q.push(v).drop_first() =~~= seq![v]);
        assert(join_spec(seq![v], sep) == v);
        assert(q.push(v)[0] == q[0]);
        assert(join_spec(q.push(v), sep) =~= q[0] + sep + v);
    } else {
        lemma_join_push(q.drop_first(), v, sep);
        assert(q.push(v).drop_first() =~~= q.drop_first().push(v));
        assert(join_spec(q.push(v), sep) =~= join_spec(q, sep) + sep + v);
    }
}

/// Join the strings of `v` with `sep` between consecutive entries.
pub fn join(v: &Vec<String>, sep: &str) -> (r: String)
    ensures
        r@ == join_spec(views_of(v@), sep@),
{
    let ghost all = views_of(v@);
    let mut out = String::new();
    let mut i: usize = 0;
    while i < v.len()
        invariant
            v@.len() == all.len(),
            views_of(v@) == all,
            i <= all.len(),
            out@ == join_spec(all.subrange(0, i as int), sep@),
        decreases v@.len() - i,
    {
        if i > 0 {
            out.append(sep);
        }
        out.append(v[i].as_str());
        proof {
            assert(all.subrange(0, i as int + 1) =~~= all.subrange(0, i as int).push(all[i as int]));
            if i > 0 {
                lemma_join_push(all.subrange(0, i as int), all[i as int], sep@);
            } else {
                assert(all.subrange(0, 1) =~~= seq![all[0]]);
            }
            assert(all[i as int] == v@[i as int]@);
        }
        i = i + 1;
    }
    proof {
        assert(all.subrange(0, all.len() as int) =~~= all);
        if all.len() == 0 {
            assert(out@ =~= join_spec(all, sep@));
        }
    }
    out
}

} // verus!
