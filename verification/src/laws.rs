//! The store's load-bearing laws, stated once and proved against the
//! same spec functions the operation contracts use.

use vstd::prelude::*;
use crate::controller::{edit_pv, rewrite};
use crate::dict::{has_key, key_index, map_of, seq_insert, unique_keys};
use crate::digest::address_of;
use crate::page::{enc_page, page_at, PageV};

verus! {

/// Content addressing: writing the same value twice files it under the
/// same key and leaves the store exactly as after the first write, and
/// reading the address just written returns exactly the value written.
/// Deduplication is structural, not an optimization.
pub proof fn lemma_content_addressing(m: Map<Seq<char>, Seq<char>>, v: Seq<char>)
    ensures
        m.insert(address_of(v), v).insert(address_of(v), v) == m.insert(address_of(v), v),
        m.insert(address_of(v), v).contains_key(address_of(v)),
        m.insert(address_of(v), v)[address_of(v)] == v,
{
    assert(m.insert(address_of(v), v).insert(address_of(v), v) =~= m.insert(address_of(v), v));
}

/// Identity stability: whatever combination of title, content and
/// fields an edit replaces, the page's stable id is untouched — the
/// address changes, the identity never does.
pub proof fn lemma_identity_stable(
    pg0: PageV,
    titleo: Option<Seq<char>>,
    contento: Option<Seq<char>>,
    fieldso: Option<Seq<(Seq<char>, Seq<char>)>>,
)
    ensures
        edit_pv(pg0, titleo, contento, fieldso).id == pg0.id,
        edit_pv(pg0, titleo, contento, fieldso).children == pg0.children,
{
}

/// Copy-on-write isolation, child-map half: repointing one child entry
/// leaves every sibling's entry, and hence every sibling subtree's
/// address, exactly as it was.
pub proof fn lemma_sibling_entries_preserved(
    ch: Seq<(Seq<char>, Seq<char>)>,
    cid: Seq<char>,
    addr: Seq<char>,
    sibling: Seq<char>,
)
    requires
        unique_keys(ch),
        sibling != cid,
    ensures
        map_of(seq_insert(ch, cid, addr)).contains_key(sibling) == map_of(ch).contains_key(
            sibling,
        ),
        map_of(ch).contains_key(sibling) ==> map_of(seq_insert(ch, cid, addr))[sibling] == map_of(
            ch,
        )[sibling],
{
    crate::dict::lemma_seq_insert_map(ch, cid, addr);
}

/// Copy-on-write isolation, store half: the bottom-up ancestor rewrite
/// only ever adds records — every record present before the commit is
/// still present after it.
pub proof fn lemma_rewrite_only_adds(
    m: Map<Seq<char>, Seq<char>>,
    path: Seq<Seq<char>>,
    k: int,
    cid: Seq<char>,
    ca: Seq<char>,
    key: Seq<char>,
)
    requires
        -1 <= k,
        rewrite(m, path, k, cid, ca) is Some,
        m.contains_key(key),
    ensures
        rewrite(m, path, k, cid, ca)->Some_0.0.contains_key(key),
    decreases k + 1,
{
    reveal(crate::controller::rewrite);
    if k < 0 {
        assert(rewrite(m, path, k, cid, ca) == Some((m, ca)));
    } else {
        match page_at(m, path[k]) {
            None => {
                assert(rewrite(m, path, k, cid, ca) is None);
            },
            Some(par) => {
                let par2 = PageV { children: seq_insert(par.children, cid, ca), ..par };
                let e = enc_page(par2);
                let a = address_of(e);
                assert(rewrite(m, path, k, cid, ca) == rewrite(m.insert(a, e), path, k - 1, par.id, a));
                lemma_rewrite_only_adds(m.insert(a, e), path, k - 1, par.id, a, key);
            },
        }
    }
}

/// No-op idempotence: when every ancestor on the path is stored in
/// canonical form under its own content address and already points at
/// its child's current address, the rewrite reproduces each record
/// byte for byte, changes nothing in the store, and lands back on the
/// original root — so a commit of an identical page appends no new
/// version.
pub proof fn lemma_noop_rewrite(
    m: Map<Seq<char>, Seq<char>>,
    path: Seq<Seq<char>>,
    k: int,
    cid: Seq<char>,
    ca: Seq<char>,
)
    requires
        -1 <= k,
        k + 1 < path.len(),
        ca == path[k + 1],
        k >= 0 ==> cid == page_at(m, path[k + 1])->Some_0.id,
        k >= 0 ==> page_at(m, path[k + 1]) is Some,
        forall|i: int|
            0 <= i <= k ==> {
                let p = (#[trigger] page_at(m, path[i]))->Some_0;
                &&& page_at(m, path[i]) is Some
                &&& m[path[i]] == enc_page(p)
                &&& address_of(m[path[i]]) == path[i]
                &&& has_key(p.children, page_at(m, path[i + 1])->Some_0.id)
                &&& map_of(p.children)[page_at(m, path[i + 1])->Some_0.id] == path[i + 1]
            },
    ensures
        rewrite(m, path, k, cid, ca) == Some((m, path[0])),
    decreases k + 1,
{
    reveal(crate::controller::rewrite);
    if k < 0 {
        assert(ca == path[0]);
    } else {
        let p = page_at(m, path[k])->Some_0;
        assert(page_at(m, path[k]) is Some);
        assert(unique_keys(p.children)) by {
            reveal(crate::page::page_at);
            crate::page::lemma_dec_page_wf(m[path[k]]);
        }
        assert(seq_insert(p.children, cid, ca) == p.children) by {
            assert(has_key(p.children, cid));
            let w = key_index(p.children, cid);
            assert(0 <= w < p.children.len() && p.children[w].0 == cid);
            crate::dict::lemma_map_of_value(p.children, w);
            assert(p.children[w].1 == map_of(p.children)[cid]);
            assert(map_of(p.children)[cid] == ca);
            assert(p.children[w] == (cid, ca));
            assert(p.children.update(w, (cid, ca)) =~~= p.children);
        }
        let par2 = PageV { children: seq_insert(p.children, cid, ca), ..p };
        assert(par2 == p);
        assert(enc_page(par2) == m[path[k]]);
        assert(address_of(enc_page(par2)) == path[k]);
        assert(m.contains_key(path[k])) by {
            reveal(crate::page::page_at);
        }
        assert(m.insert(path[k], m[path[k]]) =~= m);
        lemma_noop_rewrite(m, path, k - 1, p.id, path[k]);
        assert(rewrite(m, path, k, cid, ca) == rewrite(m, path, k - 1, p.id, path[k]));
    }
}

/// No-op idempotence, commit level: when the committed page's record
/// is already the one stored at the path's end and every record on the
/// path sits in canonical form under its own address, still pointing
/// at its child, the rewrite lands back on the old head — so the
/// commit leaves the branch list untouched and the store exactly as
/// after the setup writes (which re-file identical records).
pub proof fn lemma_noop_commit(
    m0: Map<Seq<char>, Seq<char>>,
    bk: Seq<char>,
    ver: Option<Seq<char>>,
    patho: Option<Seq<Seq<char>>>,
    pg: PageV,
    a: Seq<char>,
    mend: Map<Seq<char>, Seq<char>>,
)
    requires
        crate::controller::commit_ok(m0, bk, ver, patho, pg, a, mend),
        patho is Some,
        ({
            let path = patho->Some_0;
            let m2 = crate::controller::commit_setup(m0, bk, pg);
            &&& path.len() >= 1
            &&& path[0] == crate::store::list_of(m0[bk]).last()
            &&& address_of(enc_page(pg)) == path.last()
            &&& (path.len() >= 2 ==> page_at(m2, path.last()) is Some && pg.id == page_at(
                m2,
                path.last(),
            )->Some_0.id)
            &&& forall|i: int|
                0 <= i <= path.len() - 2 ==> {
                    let p = (#[trigger] page_at(m2, path[i]))->Some_0;
                    &&& page_at(m2, path[i]) is Some
                    &&& m2[path[i]] == enc_page(p)
                    &&& address_of(m2[path[i]]) == path[i]
                    &&& has_key(p.children, page_at(m2, path[i + 1])->Some_0.id)
                    &&& map_of(p.children)[page_at(m2, path[i + 1])->Some_0.id] == path[i + 1]
                }
        }),
    ensures
        a == crate::store::list_of(m0[bk]).last(),
        mend == crate::controller::commit_setup(m0, bk, pg),
{
    let path = patho->Some_0;
    let m2 = crate::controller::commit_setup(m0, bk, pg);
    lemma_noop_rewrite(m2, path, path.len() - 2, pg.id, address_of(enc_page(pg)));
    assert(rewrite(m2, path, path.len() - 2, pg.id, address_of(enc_page(pg))) == Some(
        (m2, path[0]),
    ));
}

} // verus!
