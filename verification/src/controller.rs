//! The public operation set over the page tree: exploration (branches,
//! versions, children, lookup by id or id-path) and modification
//! (init, create, edit, delete, relocate, fork), all built on the
//! commit protocol: fast-forward-only, bottom-up copy-on-write.

use vstd::prelude::*;
use vstd::string::StringExecFns;
use crate::branch::Branch;
use crate::content::Content;
use crate::dict::{map_of, seq_insert, Dict};
use crate::errors::HrdbError;
use crate::location::{ids_of, lemma_ids_of_push, Location};
use crate::page::{enc_page, page_at, Page, PageV};
use crate::shorthand::Shorthand;
use crate::store::{ensure, list, list_of, push, read, Store};
use crate::strutil::{no_char, views_of};

verus! {

/// One descent step is valid: the page at `a` exists and one of its
/// child entries points at `b`.
pub open spec fn child_step(m: Map<Seq<char>, Seq<char>>, a: Seq<char>, b: Seq<char>) -> bool {
    page_at(m, a) is Some && crate::dict::has_val(page_at(m, a)->Some_0.children, b)
}

/// A path is consistent with the store: every address after the first
/// is a value in the previous node's child map.
pub open spec fn wf_path(m: Map<Seq<char>, Seq<char>>, path: Seq<Seq<char>>) -> bool {
    forall|i: int| 0 < i < path.len() ==> child_step(m, #[trigger] path[i - 1], path[i])
}

pub proof fn lemma_wf_path_push(m: Map<Seq<char>, Seq<char>>, path: Seq<Seq<char>>, b: Seq<char>)
    requires
        wf_path(m, path),
        path.len() > 0,
        child_step(m, path.last(), b),
    ensures
        wf_path(m, path.push(b)),
{
    let q = path.push(b);
    assert forall|i: int| 0 < i < q.len() implies child_step(m, #[trigger] q[i - 1], q[i]) by {
        if i < path.len() {
            assert(q[i - 1] == path[i - 1] && q[i] == path[i]);
        } else {
            assert(q[i - 1] == path.last() && q[i] == b);
        }
    }
}

/// Direct descent: starting from `path`, look each id up in the
/// current node's child map and advance; the exact result of `locate`.
pub open spec fn descend(
    m: Map<Seq<char>, Seq<char>>,
    path: Seq<Seq<char>>,
    ids: Seq<Seq<char>>,
) -> Result<Seq<Seq<char>>, HrdbError>
    decreases ids.len(),
{
    if ids.len() == 0 {
        Ok(path)
    } else {
        match page_at(m, path.last()) {
            None => Err(
                if m.contains_key(path.last()) {
                    HrdbError::Corrupt
                } else {
                    HrdbError::NotFound
                },
            ),
            Some(p) => if map_of(p.children).contains_key(ids.first()) {
                descend(m, path.push(map_of(p.children)[ids.first()]), ids.drop_first())
            } else {
                Err(HrdbError::BrokenPath)
            },
        }
    }
}

/// The store's child entries carry their targets' identities: whenever
/// a decodable page's child entry points at another decodable page,
/// that page's stable id is the entry's key.  Every record this
/// library writes is linked this way; the predicate names the
/// assumption under which an id path resolves to exactly those ids.
pub open spec fn id_linked(m: Map<Seq<char>, Seq<char>>) -> bool {
    forall|a: Seq<char>, j: int|
        (page_at(m, a) is Some && 0 <= j < page_at(m, a)->Some_0.children.len() && page_at(
            m,
            (#[trigger] page_at(m, a)->Some_0.children[j]).1,
        ) is Some) ==> page_at(m, page_at(m, a)->Some_0.children[j].1)->Some_0.id == page_at(
            m,
            a,
        )->Some_0.children[j].0
}

/// In an id-linked store, a successful descent resolves to pages whose
/// ids are exactly the requested ones: the prefix already resolved,
/// extended by the id path walked.
pub proof fn lemma_descend_ids(
    m: Map<Seq<char>, Seq<char>>,
    path: Seq<Seq<char>>,
    ids: Seq<Seq<char>>,
    pre: Seq<Seq<char>>,
)
    requires
        id_linked(m),
        descend(m, path, ids) is Ok,
        path.len() >= 1,
        ids_of(m, path) == Some(pre),
        page_at(m, descend(m, path, ids)->Ok_0.last()) is Some,
    ensures
        ids_of(m, descend(m, path, ids)->Ok_0) == Some(pre + ids),
    decreases ids.len(),
{
    if ids.len() == 0 {
        assert(pre + ids =~~= pre);
    } else {
        let p = page_at(m, path.last())->Some_0;
        let k = ids.first();
        let addr = map_of(p.children)[k];
        assert(page_at(m, path.last()) is Some);
        assert(map_of(p.children).contains_key(k));
        assert(descend(m, path, ids) == descend(m, path.push(addr), ids.drop_first()));
        assert(path.push(addr).last() == addr);
        assert(crate::dict::unique_keys(p.children)) by {
            reveal(crate::page::page_at);
            crate::page::lemma_dec_page_wf(m[path.last()]);
        }
        crate::dict::lemma_map_of_contains(p.children, k);
        let w = choose|w: int| 0 <= w < p.children.len() && (#[trigger] p.children[w]).0 == k;
        crate::dict::lemma_map_of_value(p.children, w);
        assert(p.children[w].1 == addr);
        assert(page_at(m, addr) is Some) by {
            if ids.len() == 1 {
                assert(ids.drop_first() =~~= Seq::<Seq<char>>::empty());
                assert(descend(m, path.push(addr), ids.drop_first()) == Ok::<
                    Seq<Seq<char>>,
                    HrdbError,
                >(path.push(addr)));
                assert(descend(m, path, ids)->Ok_0.last() == addr);
            } else {
                assert(ids.drop_first().len() > 0);
            }
        }
        assert(page_at(m, addr)->Some_0.id == k) by {
            assert(page_at(m, path.last())->Some_0.children[w] == p.children[w]);
        }
        lemma_ids_of_push(m, path, addr, pre);
        lemma_descend_ids(m, path.push(addr), ids.drop_first(), pre.push(k));
        assert(pre.push(k) + ids.drop_first() =~~= pre + ids);
    }
}

/// The version is resolvable and equals its branch's head: the
/// condition under which a commit may be applied.
pub open spec fn at_head(m: Map<Seq<char>, Seq<char>>, bk: Seq<char>, ver: Option<Seq<char>>) -> bool {
    &&& ver is Some
    &&& m.contains_key(bk)
    &&& list_of(m[bk]).len() > 0
    &&& ver->Some_0 == list_of(m[bk]).last()
}

/// `at_head` for a location's own projections.
pub open spec fn fast_forward(m: Map<Seq<char>, Seq<char>>, l: &Location) -> bool {
    at_head(m, l.branch_v(), l.version_v())
}

/// The first position of `x` in `l`.
pub open spec fn first_index(l: Seq<Seq<char>>, x: Seq<char>) -> int {
    choose|i: int|
        0 <= i < l.len() && #[trigger] l[i] == x && (forall|j: int| 0 <= j < i ==> l[j] != x)
}

/// The store after the shorthand table is refreshed with one entry.
#[verifier::opaque]
pub open spec fn table_refreshed(
    m: Map<Seq<char>, Seq<char>>,
    name: Seq<char>,
    ver: nat,
    id: Seq<char>,
) -> Map<Seq<char>, Seq<char>> {
    m.insert(
        "shorthand"@,
        crate::codec::enc_pairs(
            seq_insert(
                crate::shorthand::dec_table(m["shorthand"@])->Some_0,
                name,
                crate::shorthand::enc_val(ver, id),
            ),
        ),
    )
}

/// The store after the fast-forward check passed, the shorthand table
/// was refreshed (on `master` only) and the updated page was filed.
#[verifier::opaque]
pub open spec fn commit_setup(
    m: Map<Seq<char>, Seq<char>>,
    bk: Seq<char>,
    pg: PageV,
) -> Map<Seq<char>, Seq<char>> {
    let m1 = if bk == "master"@ {
        table_refreshed(
            m,
            crate::page::slug_of(pg.title),
            first_index(list_of(m[bk]), list_of(m[bk]).last()) as nat,
            pg.id,
        )
    } else {
        m
    };
    m1.insert(crate::digest::address_of(enc_page(pg)), enc_page(pg))
}

/// The shorthand record a master commit leaves under the `shorthand`
/// key: the old table with the committed page's slug rebound to the
/// head's version number and the page's id.
pub open spec fn refreshed_table(
    m0: Map<Seq<char>, Seq<char>>,
    bk: Seq<char>,
    pg: PageV,
) -> Seq<char> {
    crate::codec::enc_pairs(
        seq_insert(
            crate::shorthand::dec_table(m0["shorthand"@])->Some_0,
            crate::page::slug_of(pg.title),
            crate::shorthand::enc_val(
                first_index(list_of(m0[bk]), list_of(m0[bk]).last()) as nat,
                pg.id,
            ),
        ),
    )
}

/// The store a successful commit produces: the setup writes, the
/// ancestor rewrite, and the branch append when the new root differs
/// from the head.
pub open spec fn commit_mend(
    m0: Map<Seq<char>, Seq<char>>,
    bk: Seq<char>,
    patho: Option<Seq<Seq<char>>>,
    pg: PageV,
) -> Map<Seq<char>, Seq<char>> {
    let head = list_of(m0[bk]).last();
    let path = patho->Some_0;
    let rw = rewrite(
        commit_setup(m0, bk, pg),
        path,
        path.len() - 2,
        pg.id,
        crate::digest::address_of(enc_page(pg)),
    );
    let a = rw->Some_0.1;
    if a == head {
        rw->Some_0.0
    } else {
        rw->Some_0.0.insert(bk, rw->Some_0.0[bk] + seq!['\n'] + a)
    }
}

/// Everything a successful commit needs: the location resolves to the
/// branch head with a path, the shorthand table decodes when the
/// branch is `master`, and every ancestor on the path decodes.
pub open spec fn commit_ready(
    m0: Map<Seq<char>, Seq<char>>,
    bk: Seq<char>,
    ver: Option<Seq<char>>,
    patho: Option<Seq<Seq<char>>>,
    pg: PageV,
) -> bool {
    let path = patho->Some_0;
    &&& at_head(m0, bk, ver)
    &&& patho is Some
    &&& (bk == "master"@ ==> m0.contains_key("shorthand"@) && crate::shorthand::dec_table(
        m0["shorthand"@],
    ) is Some)
    &&& rewrite(
        commit_setup(m0, bk, pg),
        path,
        path.len() - 2,
        pg.id,
        crate::digest::address_of(enc_page(pg)),
    ) is Some
}

/// What a successful commit did to the store: exactly the shorthand
/// refresh (on `master`), the page write, the bottom-up ancestor
/// rewrite, and — only when the new root differs from the head — the
/// branch append.
pub open spec fn commit_ok(
    m0: Map<Seq<char>, Seq<char>>,
    bk: Seq<char>,
    ver: Option<Seq<char>>,
    patho: Option<Seq<Seq<char>>>,
    pg: PageV,
    a: Seq<char>,
    mend: Map<Seq<char>, Seq<char>>,
) -> bool {
    let l0 = list_of(m0[bk]);
    let head = l0.last();
    let path = patho->Some_0;
    let rw = rewrite(
        commit_setup(m0, bk, pg),
        path,
        path.len() - 2,
        pg.id,
        crate::digest::address_of(enc_page(pg)),
    );
    &&& commit_ready(m0, bk, ver, patho, pg)
    &&& a == rw->Some_0.1
    &&& rw->Some_0.0.contains_key(bk)
    &&& mend == commit_mend(m0, bk, patho, pg)
    &&& (a != head && rw->Some_0.0[bk] == m0[bk] ==> list_of(mend[bk]) == l0.push(a))
    // only content-addressed records (keyed by long hex addresses),
    // the branch list and the shorthand table are ever touched
    &&& (forall|key: Seq<char>|
        key.len() < 32 && key != "shorthand"@ && key != bk ==> ((
        #[trigger] mend.contains_key(key)) <==> m0.contains_key(key)) && (m0.contains_key(key)
            ==> mend[key] == m0[key]))
    &&& (bk == "master"@ ==> mend.contains_key("shorthand"@) && mend["shorthand"@]
        == refreshed_table(m0, bk, pg))
    &&& (bk != "master"@ && bk != "shorthand"@ ==> ((mend.contains_key("shorthand"@)
        <==> m0.contains_key("shorthand"@)) && (m0.contains_key("shorthand"@)
        ==> mend["shorthand"@] == m0["shorthand"@])))
}

/// What a successful partial update did: the page at the location was
/// reread with the provided fields replaced (and only those), its
/// stable id untouched, and committed in place over the store with the
/// new content blob filed.
/// The store after an edit's optional content blob is filed.
pub open spec fn edit_mb(m0: Map<Seq<char>, Seq<char>>, contento: Option<Seq<char>>) -> Map<
    Seq<char>,
    Seq<char>,
> {
    if contento is Some {
        m0.insert(crate::digest::address_of(contento->Some_0), contento->Some_0)
    } else {
        m0
    }
}

/// The page value an edit commits: the stored page with exactly the
/// provided parts replaced; identity and children untouched.
pub open spec fn edit_pv(
    pg0: PageV,
    titleo: Option<Seq<char>>,
    contento: Option<Seq<char>>,
    fieldso: Option<Seq<(Seq<char>, Seq<char>)>>,
) -> PageV {
    PageV {
        title: (if titleo is Some {
            titleo->Some_0
        } else {
            pg0.title
        }),
        content: (if contento is Some {
            crate::digest::address_of(contento->Some_0)
        } else {
            pg0.content
        }),
        fields: (if fieldso is Some {
            fieldso->Some_0
        } else {
            pg0.fields
        }),
        ..pg0
    }
}

pub open spec fn edit_ok(
    m0: Map<Seq<char>, Seq<char>>,
    bk: Seq<char>,
    ver: Option<Seq<char>>,
    patho: Option<Seq<Seq<char>>>,
    titleo: Option<Seq<char>>,
    contento: Option<Seq<char>>,
    fieldso: Option<Seq<(Seq<char>, Seq<char>)>>,
    mend: Map<Seq<char>, Seq<char>>,
) -> bool {
    &&& patho is Some
    &&& page_at(m0, patho->Some_0.last()) is Some
    &&& edit_pv(page_at(m0, patho->Some_0.last())->Some_0, titleo, contento, fieldso).id == page_at(
        m0,
        patho->Some_0.last(),
    )->Some_0.id
    &&& exists|a: Seq<char>|
        #[trigger] commit_ok(
            edit_mb(m0, contento),
            bk,
            ver,
            patho,
            edit_pv(page_at(m0, patho->Some_0.last())->Some_0, titleo, contento, fieldso),
            a,
            mend,
        )
}

/// What a failed commit tells the caller: a `StaleVersion` if and only
/// if the version is resolvable but not the head (and then nothing
/// changed), exact outcomes for each pre-validation failure, and never
/// anything but these error kinds.
pub open spec fn commit_err(
    m0: Map<Seq<char>, Seq<char>>,
    bk: Seq<char>,
    ver: Option<Seq<char>>,
    patho: Option<Seq<Seq<char>>>,
    e: HrdbError,
    mend: Map<Seq<char>, Seq<char>>,
) -> bool {
    &&& (e == HrdbError::StaleVersion <==> (m0.contains_key(bk) && list_of(m0[bk]).len() > 0
        && ver is Some && ver->Some_0 != list_of(m0[bk]).last()))
    &&& (e == HrdbError::StaleVersion ==> mend == m0)
    &&& (!m0.contains_key(bk) ==> e == HrdbError::NotFound && mend == m0)
    &&& (m0.contains_key(bk) && list_of(m0[bk]).len() == 0 ==> e == HrdbError::EmptyBranch && mend
        == m0)
    &&& (m0.contains_key(bk) && list_of(m0[bk]).len() > 0 && ver is None ==> e
        == HrdbError::NotFound && mend == m0)
    &&& (at_head(m0, bk, ver) && patho is None ==> e == HrdbError::NotFound && mend == m0)
    &&& (e == HrdbError::NotFound || e == HrdbError::Corrupt || e == HrdbError::StaleVersion || e
        == HrdbError::EmptyBranch)
    // partial failure never corrupts the branch lists: every key short
    // enough not to be a content address is left exactly as it was,
    // except the shorthand table (refreshed before the writes begin)
    &&& (forall|key: Seq<char>|
        key.len() < 32 && key != "shorthand"@ ==> ((#[trigger] mend.contains_key(key))
            <==> m0.contains_key(key)) && (m0.contains_key(key) ==> mend[key] == m0[key]))
    &&& (bk != "master"@ ==> ((mend.contains_key("shorthand"@) <==> m0.contains_key(
        "shorthand"@,
    )) && (m0.contains_key("shorthand"@) ==> mend["shorthand"@] == m0["shorthand"@])))
}

/// Rewrite the ancestors `path[k]` down to `path[0]`, bottom up: each
/// parent's entry for the child is repointed at the child's fresh
/// address and the parent is refiled at its own new content address.
/// Yields the resulting store and the new root address; `None` when an
/// ancestor is missing or does not decode.  Only the nodes on the path
/// are touched: all sibling subtrees keep their addresses.
#[verifier::opaque]
pub open spec fn rewrite(
    m: Map<Seq<char>, Seq<char>>,
    path: Seq<Seq<char>>,
    k: int,
    child_id: Seq<char>,
    child_addr: Seq<char>,
) -> Option<(Map<Seq<char>, Seq<char>>, Seq<char>)>
    decreases k + 1 when k >= -1
{
    if k < 0 {
        Some((m, child_addr))
    } else {
        match page_at(m, path[k]) {
            None => None,
            Some(par) => {
                let par2 = PageV { children: seq_insert(par.children, child_id, child_addr), ..par };
                let e = enc_page(par2);
                let a = crate::digest::address_of(e);
                rewrite(m.insert(a, e), path, k - 1, par.id, a)
            },
        }
    }
}

/// Breadth-first search, step by step: take the queue's first path; if
/// the page at its end carries the id, that path is the answer; if the
/// page is missing or does not decode, that is the search's error;
/// otherwise enqueue one extended path per child, in stored order, and
/// go on until the queue or the budget runs out.  The exact result of
/// `locate_id`.
pub open spec fn bfs(
    m: Map<Seq<char>, Seq<char>>,
    queue: Seq<Seq<Seq<char>>>,
    id: Seq<char>,
    fuel: nat,
) -> Result<Seq<Seq<char>>, HrdbError>
    decreases fuel,
{
    if queue.len() == 0 || fuel == 0 {
        Err(HrdbError::NotFound)
    } else {
        let path = queue.first();
        match page_at(m, path.last()) {
            None => Err(
                if m.contains_key(path.last()) {
                    HrdbError::Corrupt
                } else {
                    HrdbError::NotFound
                },
            ),
            Some(p) => if p.id == id {
                Ok(path)
            } else {
                bfs(
                    m,
                    queue.drop_first() + p.children.map_values(
                        |pr: (Seq<char>, Seq<char>)| path.push(pr.1),
                    ),
                    id,
                    (fuel - 1) as nat,
                )
            },
        }
    }
}

/// The paths of the locations still queued for the search.
pub open spec fn queue_paths(q: Seq<Location>) -> Seq<Seq<Seq<char>>> {
    q.map_values(|l: Location| l.path_v()->Some_0)
}

/// The branch registry, branch histories, and every page record live
/// in one key-value store; this type names the operation set.
pub struct HRDB;

/// A handle on one branch, version and root-path: the version address
/// as a single-element path.  Fails with `NotFound` exactly when the
/// location names no version.
pub fn root(location: &Location) -> (r: Result<Location, HrdbError>)
    ensures
        match r {
            Ok(l) => {
                &&& location.version_v() matches Some(v)
                &&& l.wf()
                &&& l.branch_v() == location.branch_v()
                &&& l.version_v() == location.version_v()
                &&& l.path_v() == Some(seq![location.version_v()->Some_0])
            },
            Err(e) => e == HrdbError::NotFound && location.version_v() is None,
        },
{
    let version = match location.version() {
        Ok(v) => v,
        Err(e) => {
            return Err(e);
        },
    };
    let ghost vv = version@;
    let second = version.clone();
    let mut path: Vec<String> = Vec::new();
    path.push(second);
    proof {
        assert(views_of(path@) =~~= seq![vv]);
    }
    Ok(Location::from_branch_version_and_path(location.branch(), version, path))
}

impl HRDB {
    /// One handle per branch in the registry.
    pub fn branches(store: &Store) -> (r: Result<Vec<Location>, HrdbError>)
        requires
            store.wf(),
        ensures
            match r {
                Ok(v) => {
                    &&& store@.contains_key("hrdb"@)
                    &&& v@.len() == list_of(store@["hrdb"@]).len()
                    &&& forall|i: int|
                        0 <= i < v@.len() ==> (#[trigger] v@[i]).branch_v() == list_of(
                            store@["hrdb"@],
                        )[i] && v@[i].version_v() is None && v@[i].path_v() is None
                },
                Err(e) => e == HrdbError::NotFound && !store@.contains_key("hrdb"@),
            },
    {
        let names = match list(store, "hrdb") {
            Ok(v) => v,
            Err(e) => {
                return Err(e);
            },
        };
        let ghost l = list_of(store@["hrdb"@]);
        let mut out: Vec<Location> = Vec::new();
        let mut i: usize = 0;
        while i < names.len()
            invariant
                names@.len() == l.len(),
                views_of(names@) == l,
                i <= l.len(),
                out@.len() == i,
                forall|j: int|
                    0 <= j < i ==> (#[trigger] out@[j]).branch_v() == l[j] && out@[j].version_v()
                        is None && out@[j].path_v() is None,
            decreases l.len() - i,
        {
            out.push(Location::from_branch(names[i].clone()));
            i = i + 1;
        }
        Ok(out)
    }

    /// One handle per version of the location's branch, oldest first;
    /// the position in the result is the version number.
    pub fn versions(store: &Store, location: &Location) -> (r: Result<Vec<Location>, HrdbError>)
        requires
            store.wf(),
        ensures
            match r {
                Ok(v) => {
                    &&& store@.contains_key(location.branch_v())
                    &&& v@.len() == list_of(store@[location.branch_v()]).len()
                    &&& forall|i: int|
                        0 <= i < v@.len() ==> (#[trigger] v@[i]).branch_v() == location.branch_v()
                            && v@[i].version_v() == Some(
                            list_of(store@[location.branch_v()])[i],
                        ) && v@[i].path_v() is None
                },
                Err(e) => e == HrdbError::NotFound && !store@.contains_key(location.branch_v()),
            },
    {
        let name = location.branch();
        let entries = match list(store, name.as_str()) {
            Ok(v) => v,
            Err(e) => {
                return Err(e);
            },
        };
        let ghost l = list_of(store@[location.branch_v()]);
        let mut out: Vec<Location> = Vec::new();
        let mut i: usize = 0;
        while i < entries.len()
            invariant
                entries@.len() == l.len(),
                views_of(entries@) == l,
                i <= l.len(),
                out@.len() == i,
                name@ == location.branch_v(),
                forall|j: int|
                    0 <= j < i ==> (#[trigger] out@[j]).branch_v() == location.branch_v()
                        && out@[j].version_v() == Some(l[j]) && out@[j].path_v() is None,
            decreases l.len() - i,
        {
            out.push(Location::from_branch_and_version(name.clone(), entries[i].clone()));
            i = i + 1;
        }
        Ok(out)
    }

    /// A handle on the version root; see the free function `root`.
    pub fn root(location: &Location) -> (r: Result<Location, HrdbError>)
        ensures
            match r {
                Ok(l) => {
                    &&& location.version_v() matches Some(v)
                    &&& l.wf()
                    &&& l.branch_v() == location.branch_v()
                    &&& l.version_v() == location.version_v()
                    &&& l.path_v() == Some(seq![location.version_v()->Some_0])
                },
                Err(e) => e == HrdbError::NotFound && location.version_v() is None,
            },
    {
        root(location)
    }

    /// One location per child of the node, in the child map's stored
    /// order, each one step forward from `location`.
    pub fn children(store: &Store, location: &Location) -> (r: Result<Vec<Location>, HrdbError>)
        requires
            store.wf(),
            location.wf(),
        ensures
            match r {
                Ok(v) => {
                    &&& location.path_v() matches Some(p)
                    &&& page_at(store@, location.path_v()->Some_0.last()) matches Some(pg)
                    &&& v@.len() == page_at(
                        store@,
                        location.path_v()->Some_0.last(),
                    )->Some_0.children.len()
                    &&& forall|i: int|
                        0 <= i < v@.len() ==> {
                            let pg2 = page_at(store@, location.path_v()->Some_0.last())->Some_0;
                            &&& (#[trigger] v@[i]).branch_v() == location.branch_v()
                            &&& v@[i].version_v() == location.version_v()
                            &&& v@[i].path_v() == Some(
                                location.path_v()->Some_0.push(pg2.children[i].1),
                            )
                            &&& v@[i].wf()
                        }
                },
                Err(e) => {
                    &&& (location.path_v() is None ==> e == HrdbError::NotFound)
                    &&& (location.path_v() matches Some(p) ==> page_at(store@, p.last()) is None
                        && (e == HrdbError::NotFound <==> !store@.contains_key(p.last())) && (e
                        == HrdbError::Corrupt <==> store@.contains_key(p.last())))
                },
            },
    {
        let end = match location.end() {
            Ok(a) => a,
            Err(e) => {
                return Err(e);
            },
        };
        let page = match Page::from(store, end.as_str()) {
            Ok(p) => p,
            Err(e) => {
                return Err(e);
            },
        };
        let ghost pg = page@;
        let ghost p0 = location.path_v()->Some_0;
        let kids = page.children();
        let n = kids.len();
        let mut out: Vec<Location> = Vec::new();
        let mut i: usize = 0;
        while i < n
            invariant
                store.wf(),
                location.wf(),
                location.path_v() == Some(p0),
                p0.len() > 0,
                kids.seqv() == pg.children,
                page_at(store@, p0.last()) == Some(pg),
                n == pg.children.len(),
                i <= n,
                out@.len() == i,
                forall|j: int|
                    0 <= j < i ==> {
                        &&& (#[trigger] out@[j]).branch_v() == location.branch_v()
                        &&& out@[j].version_v() == location.version_v()
                        &&& out@[j].path_v() == Some(p0.push(pg.children[j].1))
                        &&& out@[j].wf()
                    },
            decreases n - i,
        {
            let addr = kids.val_at(i).clone();
            let loc = match location.forward(addr) {
                Ok(l) => l,
                Err(e) => {
                    proof {
                        assert(false);
                    }
                    return Err(e);
                },
            };
            out.push(loc);
            i = i + 1;
        }
        Ok(out)
    }

    /// Descend from the version root along an id path.  The first id
    /// is taken to be the root's own and is skipped unchecked; each
    /// later id must be a key of the current node's child map.
    pub fn locate(store: &Store, version: &Location, ids: &Vec<String>) -> (r: Result<
        Location,
        HrdbError,
    >)
        requires
            store.wf(),
            ids@.len() >= 1,
        ensures
            match r {
                Ok(l) => {
                    &&& version.version_v() matches Some(v)
                    &&& l.wf()
                    &&& l.branch_v() == version.branch_v()
                    &&& l.version_v() == version.version_v()
                    &&& descend(
                        store@,
                        seq![version.version_v()->Some_0],
                        views_of(ids@).drop_first(),
                    ) == Ok::<Seq<Seq<char>>, HrdbError>(l.path_v()->Some_0)
                    &&& l.path_v() matches Some(p) && p[0] == version.version_v()->Some_0
                    &&& wf_path(store@, l.path_v()->Some_0)
                },
                Err(e) => (version.version_v() is None && e == HrdbError::NotFound) || (
                version.version_v() matches Some(v) && descend(
                    store@,
                    seq![v],
                    views_of(ids@).drop_first(),
                ) == Err::<Seq<Seq<char>>, HrdbError>(e)),
            },
            // in an id-linked store, the found pages carry exactly the
            // requested ids, after the root's own
            match r {
                Ok(l) => (id_linked(store@) && page_at(
                    store@,
                    version.version_v()->Some_0,
                ) is Some && page_at(store@, l.path_v()->Some_0.last()) is Some) ==> ids_of(
                    store@,
                    l.path_v()->Some_0,
                ) == Some(
                    seq![page_at(store@, version.version_v()->Some_0)->Some_0.id] + views_of(
                        ids@,
                    ).drop_first(),
                ),
                Err(e) => true,
            },
    {
        let mut location = match root(version) {
            Ok(l) => l,
            Err(e) => {
                return Err(e);
            },
        };
        let ghost v0 = version.version_v()->Some_0;
        let ghost all = views_of(ids@).drop_first();
        let n = ids.len();
        let mut i: usize = 1;
        proof {
            assert(location.path_v()->Some_0 =~~= seq![v0]);
            assert(all.skip(0) =~~= all);
        }
        while i < n
            invariant
                store.wf(),
                version.version_v() == Some(v0),
                all == views_of(ids@).drop_first(),
                n == ids@.len(),
                all.len() == n - 1,
                1 <= i <= n,
                location.wf(),
                location.branch_v() == version.branch_v(),
                location.version_v() == version.version_v(),
                location.path_v() matches Some(p) && p[0] == v0 && p.len() >= 1,
                wf_path(store@, location.path_v()->Some_0),
                descend(store@, seq![v0], all) == descend(
                    store@,
                    location.path_v()->Some_0,
                    all.skip(i - 1),
                ),
            decreases n - i,
        {
            let ghost pcur = location.path_v()->Some_0;
            let ghost rem = all.skip(i - 1);
            proof {
                assert(rem[0] == all[i - 1]);
                assert(all[i - 1] == ids@[i as int]@);
                assert(rem.drop_first() =~~= all.skip(i as int));
            }
            let top = match location.end() {
                Ok(a) => a,
                Err(e) => {
                    proof {
                        assert(false);
                    }
                    return Err(e);
                },
            };
            let page = match Page::from(store, top.as_str()) {
                Ok(p) => p,
                Err(e) => {
                    return Err(e);
                },
            };
            let kids = page.children();
            let addr = match kids.get(ids[i].as_str()) {
                Some(a) => a.clone(),
                None => {
                    proof {
                        crate::dict::lemma_map_of_contains(page@.children, ids@[i as int]@);
                    }
                    return Err(HrdbError::BrokenPath);
                },
            };
            let next = match location.forward(addr) {
                Ok(l) => l,
                Err(e) => {
                    proof {
                        assert(false);
                    }
                    return Err(e);
                },
            };
            proof {
                let ch = page@.children;
                crate::dict::lemma_map_of_contains(ch, ids@[i as int]@);
                let w = choose|w: int| 0 <= w < ch.len() && (#[trigger] ch[w]).0 == ids@[i as int]@;
                crate::dict::lemma_map_of_value(ch, w);
                assert(ch[w].1 == map_of(ch)[ids@[i as int]@]);
                assert(crate::dict::has_val(ch, map_of(ch)[ids@[i as int]@]));
                assert(child_step(store@, pcur.last(), map_of(ch)[ids@[i as int]@]));
                lemma_wf_path_push(store@, pcur, map_of(ch)[ids@[i as int]@]);
            }
            location = next;
            i = i + 1;
        }
        proof {
            assert(all.skip(n - 1) =~~= Seq::<Seq<char>>::empty());
            let m = store@;
            if id_linked(m) && page_at(m, v0) is Some && page_at(
                m,
                location.path_v()->Some_0.last(),
            ) is Some {
                let rootid = page_at(m, v0)->Some_0.id;
                assert(ids_of(m, seq![v0]) == Some(seq![rootid])) by {
                    assert(seq![v0].first() == v0);
                    assert(seq![v0].drop_first() =~~= Seq::<Seq<char>>::empty());
                    assert(ids_of(m, Seq::<Seq<char>>::empty()) == Some(
                        Seq::<Seq<char>>::empty(),
                    ));
                    assert(seq![rootid] + Seq::<Seq<char>>::empty() =~~= seq![rootid]);
                }
                assert(descend(m, seq![v0], all) == Ok::<Seq<Seq<char>>, HrdbError>(
                    location.path_v()->Some_0,
                ));
                lemma_descend_ids(m, seq![v0], all, seq![rootid]);
            }
        }
        Ok(location)
    }

    /// Breadth-first search for the page carrying `id`, starting at
    /// the version root and exploring children in stored map order;
    /// the result is exactly what the step-by-step `bfs` search finds,
    /// so `NotFound` comes only when the tree (or the search budget,
    /// on a pathological address graph) is exhausted without a match.
    pub fn locate_id(store: &Store, version: &Location, id: &str) -> (r: Result<
        Location,
        HrdbError,
    >)
        requires
            store.wf(),
        ensures
            match r {
                Ok(l) => {
                    &&& version.version_v() matches Some(v)
                    &&& l.wf()
                    &&& l.branch_v() == version.branch_v()
                    &&& l.version_v() == version.version_v()
                    &&& l.path_v() matches Some(p) && p[0] == version.version_v()->Some_0
                        && wf_path(store@, p)
                    &&& page_at(store@, l.path_v()->Some_0.last()) matches Some(pg) && pg.id == id@
                },
                Err(e) => e == HrdbError::NotFound || e == HrdbError::Corrupt,
            },
            version.version_v() is None ==> r == Err::<Location, HrdbError>(HrdbError::NotFound),
            version.version_v() matches Some(v) ==> (match r {
                Ok(l) => bfs(store@, seq![seq![v]], id@, 1048576) == Ok::<
                    Seq<Seq<char>>,
                    HrdbError,
                >(l.path_v()->Some_0),
                Err(e) => bfs(store@, seq![seq![v]], id@, 1048576) == Err::<
                    Seq<Seq<char>>,
                    HrdbError,
                >(e),
            }),
    {
        let first = match root(version) {
            Ok(l) => l,
            Err(e) => {
                return Err(e);
            },
        };
        let ghost v0 = version.version_v()->Some_0;
        proof {
            assert(first.path_v()->Some_0 =~~= seq![v0]);
        }
        let mut queue: Vec<Location> = Vec::new();
        queue.push(first);
        let mut fuel: u64 = 1048576;
        proof {
            assert(queue_paths(queue@) =~~= seq![seq![v0]]);
        }
        while queue.len() > 0 && fuel > 0
            invariant
                store.wf(),
                version.version_v() == Some(v0),
                fuel <= 1048576,
                bfs(store@, seq![seq![v0]], id@, 1048576) == bfs(
                    store@,
                    queue_paths(queue@),
                    id@,
                    fuel as nat,
                ),
                forall|j: int|
                    0 <= j < queue@.len() ==> {
                        let l = #[trigger] queue@[j];
                        &&& l.wf()
                        &&& l.branch_v() == version.branch_v()
                        &&& l.version_v() == version.version_v()
                        &&& l.path_v() matches Some(p) && p[0] == v0 && p.len() >= 1
                        &&& wf_path(store@, l.path_v()->Some_0)
                    },
            ensures
                queue@.len() == 0 || fuel == 0,
                bfs(store@, seq![seq![v0]], id@, 1048576) == bfs(
                    store@,
                    queue_paths(queue@),
                    id@,
                    fuel as nat,
                ),
            decreases fuel,
        {
            let ghost q0 = queue_paths(queue@);
            let ghost fuel0 = fuel as nat;
            let location = queue.remove(0);
            proof {
                assert(queue_paths(queue@) =~~= q0.drop_first());
                assert(q0.first() == location.path_v()->Some_0);
            }
            let top = match location.end() {
                Ok(a) => a,
                Err(e) => {
                    proof {
                        assert(false);
                    }
                    return Err(e);
                },
            };
            let page = match Page::from(store, top.as_str()) {
                Ok(p) => p,
                Err(e) => {
                    proof {
                        assert(bfs(store@, q0, id@, fuel0) == Err::<Seq<Seq<char>>, HrdbError>(e));
                    }
                    return Err(e);
                },
            };
            if crate::strutil::str_eq(page.id().as_str(), id) {
                proof {
                    assert(bfs(store@, q0, id@, fuel0) == Ok::<Seq<Seq<char>>, HrdbError>(
                        location.path_v()->Some_0,
                    ));
                }
                return Ok(location);
            }
            let ghost pcur = location.path_v()->Some_0;
            let ghost qrest = q0.drop_first();
            let kids = page.children();
            let nk = kids.len();
            let mut j: usize = 0;
            while j < nk
                invariant
                    store.wf(),
                    version.version_v() == Some(v0),
                    location.wf(),
                    location.branch_v() == version.branch_v(),
                    location.version_v() == version.version_v(),
                    location.path_v() == Some(pcur),
                    pcur[0] == v0 && pcur.len() >= 1,
                    wf_path(store@, pcur),
                    page_at(store@, pcur.last()) == Some(page@),
                    kids.seqv() == page@.children,
                    nk == page@.children.len(),
                    j <= nk,
                    queue_paths(queue@) == qrest + page@.children.subrange(0, j as int).map_values(
                        |pr: (Seq<char>, Seq<char>)| pcur.push(pr.1),
                    ),
                    forall|t: int|
                        0 <= t < queue@.len() ==> {
                            let l = #[trigger] queue@[t];
                            &&& l.wf()
                            &&& l.branch_v() == version.branch_v()
                            &&& l.version_v() == version.version_v()
                            &&& l.path_v() matches Some(p) && p[0] == v0 && p.len() >= 1
                            &&& wf_path(store@, l.path_v()->Some_0)
                        },
                decreases nk - j,
            {
                let addr = kids.val_at(j).clone();
                let ghost av = addr@;
                let next = match location.forward(addr) {
                    Ok(l) => l,
                    Err(e) => {
                        proof {
                            assert(false);
                        }
                        return Err(e);
                    },
                };
                proof {
                    assert(crate::dict::has_val(page@.children, av)) by {
                        assert(page@.children[j as int].1 == av);
                    }
                    assert(child_step(store@, pcur.last(), av));
                    lemma_wf_path_push(store@, pcur, av);
                }
                let ghost qb = queue_paths(queue@);
                queue.push(next);
                proof {
                    assert(queue_paths(queue@) =~~= qb.push(pcur.push(av)));
                    assert(page@.children.subrange(0, j as int + 1) =~~= page@.children.subrange(
                        0,
                        j as int,
                    ).push(page@.children[j as int]));
                    assert(queue_paths(queue@) =~~= qrest + page@.children.subrange(
                        0,
                        j as int + 1,
                    ).map_values(|pr: (Seq<char>, Seq<char>)| pcur.push(pr.1)));
                }
                j = j + 1;
            }
            proof {
                assert(page@.children.subrange(0, nk as int) =~~= page@.children);
                assert(queue_paths(queue@) =~~= qrest + page@.children.map_values(
                    |pr: (Seq<char>, Seq<char>)| pcur.push(pr.1),
                ));
                assert(bfs(store@, q0, id@, fuel0) == bfs(
                    store@,
                    queue_paths(queue@),
                    id@,
                    (fuel0 - 1) as nat,
                ));
            }
            fuel = fuel - 1;
        }
        proof {
            assert(bfs(store@, queue_paths(queue@), id@, fuel as nat) == Err::<
                Seq<Seq<char>>,
                HrdbError,
            >(HrdbError::NotFound));
        }
        Err(HrdbError::NotFound)
    }

    /// The core write protocol.  A commit may only be applied to the
    /// branch's current head (fast-forward only): if the head has
    /// advanced since the location was resolved, the commit fails with
    /// `StaleVersion` and changes nothing.  Otherwise the updated page
    /// is filed, every ancestor on the path is rewritten bottom-up
    /// (copy-on-write: siblings and unrelated subtrees keep their
    /// addresses), and — only if the new root address differs from the
    /// head — the new root is appended to the branch.  On `master` the
    /// shorthand table is refreshed first.  Returns the new root
    /// address.
    #[verifier::rlimit(100)]
    #[verifier::spinoff_prover]
    pub fn commit(store: &mut Store, location: &Location, updated: &Page) -> (r: Result<
        String,
        HrdbError,
    >)
        requires
            old(store).wf(),
            location.wf(),
            updated.wf(),
        ensures
            final(store).wf(),
            forall|key: Seq<char>|
                old(store)@.contains_key(key) ==> final(store)@.contains_key(key),
            match r {
                Ok(a) => commit_ok(
                    old(store)@,
                    location.branch_v(),
                    location.version_v(),
                    location.path_v(),
                    updated@,
                    a@,
                    final(store)@,
                ),
                Err(e) => commit_err(
                    old(store)@,
                    location.branch_v(),
                    location.version_v(),
                    location.path_v(),
                    e,
                    final(store)@,
                ),
            },
            commit_ready(
                old(store)@,
                location.branch_v(),
                location.version_v(),
                location.path_v(),
                updated@,
            ) ==> r is Ok,
    {
        let ghost m0 = old(store)@;
        let branch_name = location.branch();
        let b = match Branch::from(store, branch_name.as_str()) {
            Ok(b) => b,
            Err(e) => {
                return Err(e);
            },
        };
        let head = match b.head() {
            Ok(h) => h,
            Err(e) => {
                return Err(e);
            },
        };
        let version = match location.version() {
            Ok(v) => v,
            Err(e) => {
                return Err(e);
            },
        };
        if !crate::strutil::str_eq(version.as_str(), head.as_str()) {
            return Err(HrdbError::StaleVersion);
        }
        let path = match location.path() {
            Ok(p) => p,
            Err(e) => {
                return Err(e);
            },
        };
        let ghost l0 = list_of(m0[location.branch_v()]);
        if crate::strutil::str_eq(branch_name.as_str(), "master") {
            let vno = match location.ver_no(store) {
                Ok(n) => n,
                Err(e) => {
                    proof {
                        assert(l0.contains(version@)) by {
                            assert(l0[l0.len() - 1] == version@);
                        }
                        assert(false);
                    }
                    return Err(e);
                },
            };
            proof {
                let w = first_index(l0, l0.last());
                assert(exists|i: int|
                    0 <= i < l0.len() && #[trigger] l0[i] == l0.last() && (forall|j: int|
                        0 <= j < i ==> l0[j] != l0.last())) by {
                    assert(l0[vno as int] == l0.last());
                }
                assert(0 <= w < l0.len() && l0[w] == l0.last() && (forall|j: int|
                    0 <= j < w ==> l0[j] != l0.last()));
                if w < vno as int {
                    assert(l0[w] == version@);
                    assert(false);
                }
                if w > vno as int {
                    assert(l0[vno as int] != l0.last());
                    assert(false);
                }
            }
            match Shorthand::update(store, updated.short(), vno as u64, updated.id()) {
                Ok(()) => {},
                Err(e) => {
                    return Err(e);
                },
            }
            proof {
                assert(store@ == m0.insert(
                    "shorthand"@,
                    refreshed_table(m0, location.branch_v(), updated@),
                ));
            }
        }
        let ghost m1 = store@;
        proof {
            reveal_strlit("master");
            reveal_strlit("shorthand");
            assert("shorthand"@.len() == 9);
            assert("master"@.len() == 6);
            assert("master"@ != "shorthand"@);
            assert(m1 == (if location.branch_v() == "master"@ {
                m0.insert("shorthand"@, refreshed_table(m0, location.branch_v(), updated@))
            } else {
                m0
            }));
        }
        let text = updated.to_string();
        let mut address = crate::store::write(store, text.as_str());
        let ghost m2 = store@;
        proof {
            reveal(crate::controller::commit_setup);
            reveal(crate::controller::table_refreshed);
            assert(m2 == commit_setup(m0, location.branch_v(), updated@));
        }
        let ghost pathv = views_of(path@);
        let ghost id0 = updated@.id;
        let ghost addr0 = address@;
        let mut child_id = updated.id();
        let ln = path.len();
        let mut j: usize = 0;
        while j + 1 < ln
            invariant
                store.wf(),
                m0 == old(store)@,
                fast_forward(m0, location),
                location.path_v() == Some(pathv),
                m2 == commit_setup(m0, location.branch_v(), updated@),
                id0 == updated@.id,
                addr0 == crate::digest::address_of(enc_page(updated@)),
                ln == path@.len(),
                ln >= 1,
                j + 1 <= ln,
                pathv == views_of(path@),
                pathv.len() == ln,
                rewrite(m2, pathv, ln - 2, id0, addr0) == rewrite(
                    store@,
                    pathv,
                    ln - 2 - j,
                    child_id@,
                    address@,
                ),
                address@.len() >= 32,
                no_char(address@, '\n'),
                "shorthand"@.len() == 9,
                m1 == (if location.branch_v() == "master"@ {
                    m0.insert("shorthand"@, refreshed_table(m0, location.branch_v(), updated@))
                } else {
                    m0
                }),
                forall|key: Seq<char>|
                    key.len() < 32 ==> ((#[trigger] store@.contains_key(key))
                        <==> m1.contains_key(key)) && (m1.contains_key(key) ==> store@[key]
                        == m1[key]),
                forall|key: Seq<char>| m0.contains_key(key) ==> store@.contains_key(key),
                forall|key: Seq<char>| m2.contains_key(key) ==> store@.contains_key(key),
            decreases ln - j,
        {
            let pidx = ln - 2 - j;
            let ghost mb = store@;
            let mut parent = match Page::from(store, path[pidx].as_str()) {
                Ok(p) => p,
                Err(e) => {
                    proof {
                        reveal(crate::controller::rewrite);
                        assert(rewrite(mb, pathv, ln - 2 - j, child_id@, address@) is None);
                    }
                    return Err(e);
                },
            };
            proof {
                assert(page_at(mb, pathv[pidx as int]) == Some(parent@));
            }
            let ghost cid_old = child_id@;
            let ghost addr_old = address@;
            parent.child_insert(child_id, address);
            let text2 = parent.to_string();
            address = crate::store::write(store, text2.as_str());
            child_id = parent.id();
            proof {
                reveal(crate::controller::rewrite);
                let par = page_at(mb, pathv[pidx as int])->Some_0;
                let par2 = PageV { children: seq_insert(par.children, cid_old, addr_old), ..par };
                assert(parent@ == par2);
                assert(text2@ == enc_page(par2));
                assert(store@ == mb.insert(crate::digest::address_of(enc_page(par2)), enc_page(par2)));
                assert(rewrite(mb, pathv, ln - 2 - j, cid_old, addr_old) == rewrite(
                    store@,
                    pathv,
                    ln - 2 - j - 1,
                    par.id,
                    crate::digest::address_of(enc_page(par2)),
                ));
            }
            j = j + 1;
        }
        proof {
            reveal(crate::controller::rewrite);
            assert(rewrite(store@, pathv, ln - 2 - j, child_id@, address@) == Some(
                (store@, address@),
            ));
            assert(rewrite(m2, pathv, ln - 2, id0, addr0) == Some((store@, address@)));
        }
        if !crate::strutil::str_eq(address.as_str(), head.as_str()) {
            let ghost mfin = store@;
            match push(store, branch_name.as_str(), address.clone()) {
                Ok(()) => {},
                Err(e) => {
                    proof {
                        assert(mfin.contains_key(location.branch_v()));
                        assert(false);
                    }
                    return Err(e);
                },
            }
        }
        Ok(address)
    }

    /// Set an empty backend up: create the root page under a fresh
    /// `master` branch with exactly one version, register `master` in
    /// the branch registry, and seed the shorthand table with the root
    /// page's slug.  Idempotent: once the registry exists this is a
    /// no-op.
    #[verifier::rlimit(100)]
    #[verifier::spinoff_prover]
    pub fn init(store: &mut Store) -> (r: Result<(), HrdbError>)
        requires
            old(store).wf(),
        ensures
            final(store).wf(),
            r is Ok,
            old(store)@.contains_key("hrdb"@) ==> final(store)@ == old(store)@,
            !old(store)@.contains_key("hrdb"@) ==> (exists|pv: PageV|
                {
                    &&& pv.wf()
                    &&& pv.children == Seq::<(Seq<char>, Seq<char>)>::empty()
                    &&& pv.title == "Home"@
                    &&& pv.id.len() >= 32
                    &&& (#[trigger] page_at(final(store)@, crate::digest::address_of(enc_page(pv))))
                        == Some(pv)
                    &&& final(store)@.contains_key(pv.content)
                    &&& final(store)@.contains_key("master"@)
                    &&& list_of(final(store)@["master"@]) == (if old(store)@.contains_key(
                        "master"@,
                    ) {
                        list_of(old(store)@["master"@])
                    } else {
                        Seq::<Seq<char>>::empty()
                    }).push(crate::digest::address_of(enc_page(pv)))
                    &&& final(store)@.contains_key("hrdb"@)
                    &&& list_of(final(store)@["hrdb"@]) == seq!["master"@]
                    &&& final(store)@.contains_key("shorthand"@)
                    &&& crate::shorthand::dec_table(final(store)@["shorthand"@]) == Some(
                        seq![
                            (crate::page::slug_of(pv.title), crate::shorthand::enc_val(0, pv.id)),
                        ],
                    )
                }),
    {
        if store.contains("hrdb") {
            return Ok(());
        }
        let ghost m0 = old(store)@;
        let content = Content::new(
            "My friend ( ͡° ͜ʖ ͡°) would like you to check back soon.".to_owned(),
        );
        let caddr = crate::store::write(store, content.to_string().as_str());
        let ghost caddr_v = caddr@;
        let root_page = Page::new("Home".to_owned(), caddr, Dict::new());
        let text = root_page.to_string();
        let version = crate::store::write(store, text.as_str());
        let ghost pv = root_page@;
        let ghost vaddr = version@;
        let mut table = Shorthand::new();
        let slug = root_page.short();
        let rid = root_page.id();
        table.insert(slug, 0, rid);
        proof {
            assert(table.seqv() =~~= seq![
                (crate::page::slug_of(pv.title), crate::shorthand::enc_val(0, pv.id)),
            ]);
        }
        table.write(store);
        proof {
            crate::shorthand::lemma_table_round_trip(table.seqv());
        }
        ensure(store, "master");
        proof {
            reveal_strlit("master");
            reveal_strlit("hrdb");
            reveal_strlit("shorthand");
            assert("shorthand"@.len() == 9 && "hrdb"@.len() == 4 && "master"@.len() == 6);
            assert("shorthand"@ != "hrdb"@ && "master"@ != "hrdb"@ && "shorthand"@
                != "master"@);
            assert(vaddr != "master"@ && vaddr != "hrdb"@ && vaddr != "shorthand"@) by {
                assert(vaddr.len() >= 32);
            }
            assert(caddr_v != "master"@ && caddr_v != "hrdb"@ && caddr_v != "shorthand"@) by {
                assert(caddr_v.len() >= 32);
            }
        }
        match push(store, "master", version) {
            Ok(()) => {},
            Err(e) => {
                proof {
                    assert(false);
                }
                return Err(e);
            },
        }
        ensure(store, "hrdb");
        match push(store, "hrdb", "master".to_owned()) {
            Ok(()) => {},
            Err(e) => {
                proof {
                    assert(false);
                }
                return Err(e);
            },
        }
        proof {
            assert(no_char("master"@, '\n') && "master"@.len() > 0) by {
                reveal_strlit("master");
            }
            assert(list_of(Seq::<char>::empty()) =~~= Seq::<Seq<char>>::empty()) by {
                reveal_with_fuel(Seq::<_>::filter, 2);
            }
            assert(store@[vaddr] == enc_page(pv));
            assert(page_at(store@, vaddr) == Some(pv)) by {
                reveal(crate::page::page_at);
                crate::page::lemma_page_round_trip(pv);
            }
            assert(list_of(store@["hrdb"@]) =~~= seq!["master"@]);
            assert(list_of(store@["master"@]) =~~= (if m0.contains_key("master"@) {
                list_of(m0["master"@])
            } else {
                Seq::<Seq<char>>::empty()
            }).push(vaddr));
        }
        Ok(())
    }

    /// Copy the history of `from`'s branch, up to and including
    /// `from`'s version, into a branch with `into`'s name.  Only ever
    /// targets a name with no persisted list.
    #[verifier::rlimit(100)]
    #[verifier::spinoff_prover]
    pub fn fork(store: &mut Store, from: &Location, into: &Location) -> (r: Result<(), HrdbError>)
        requires
            old(store).wf(),
        ensures
            final(store).wf(),
            match r {
                Ok(()) => ({
                    let m0 = old(store)@;
                    let fb = from.branch_v();
                    let l0 = list_of(m0[fb]);
                    &&& !m0.contains_key(into.branch_v())
                    &&& m0.contains_key(fb)
                    &&& from.version_v() matches Some(v)
                    &&& exists|i: int|
                        {
                            &&& 0 <= i < l0.len()
                            &&& (#[trigger] l0[i]) == from.version_v()->Some_0
                            &&& (forall|j: int| 0 <= j < i ==> l0[j] != from.version_v()->Some_0)
                            &&& list_of(final(store)@[into.branch_v()]) == l0.take(i + 1)
                        }
                    &&& forall|key: Seq<char>|
                        key != into.branch_v() && m0.contains_key(key) ==> final(store)@.contains_key(
                            key,
                        ) && final(store)@[key] == m0[key]
                }),
                Err(e) => {
                    &&& final(store)@ == old(store)@
                    &&& (e == HrdbError::BranchExists <==> old(store)@.contains_key(
                        into.branch_v(),
                    ))
                    &&& (!old(store)@.contains_key(into.branch_v())
                        && !old(store)@.contains_key(from.branch_v()) ==> e == HrdbError::NotFound)
                    &&& (!old(store)@.contains_key(into.branch_v()) && old(store)@.contains_key(
                        from.branch_v(),
                    ) && from.version_v() is None ==> e == HrdbError::NotFound)
                    &&& (!old(store)@.contains_key(into.branch_v()) && old(store)@.contains_key(
                        from.branch_v(),
                    ) && (from.version_v() matches Some(v) && !list_of(
                        old(store)@[from.branch_v()],
                    ).contains(v)) ==> e == HrdbError::VersionNotFound)
                    &&& (e == HrdbError::VersionNotFound ==> !old(store)@.contains_key(
                        into.branch_v(),
                    ) && old(store)@.contains_key(from.branch_v()) && (
                    from.version_v() matches Some(v) && !list_of(
                        old(store)@[from.branch_v()],
                    ).contains(v)))
                },
            },
            // success is owed: a fresh target name, a present source
            // branch and a version on its list always fork
            ({
                &&& !old(store)@.contains_key(into.branch_v())
                &&& old(store)@.contains_key(from.branch_v())
                &&& from.version_v() matches Some(v) && list_of(
                    old(store)@[from.branch_v()],
                ).contains(v)
            }) ==> r is Ok,
    {
        let ghost m0 = old(store)@;
        let into_name = into.branch();
        if store.contains(into_name.as_str()) {
            return Err(HrdbError::BranchExists);
        }
        let from_branch = match Branch::from(store, from.branch().as_str()) {
            Ok(b) => b,
            Err(e) => {
                return Err(e);
            },
        };
        let from_version = match from.version() {
            Ok(v) => v,
            Err(e) => {
                return Err(e);
            },
        };
        let into_branch = match from_branch.fork(store, from_version.as_str(), into_name.as_str()) {
            Ok(b) => b,
            Err(e) => {
                proof {
                    if e == HrdbError::VersionNotFound {
                        if list_of(m0[from.branch_v()]).contains(from.version_v()->Some_0) {
                            let w = choose|w: int|
                                0 <= w < list_of(m0[from.branch_v()]).len() && list_of(
                                    m0[from.branch_v()],
                                )[w] == from.version_v()->Some_0;
                            assert(false);
                        }
                    }
                }
                return Err(e);
            },
        };
        ensure(store, into_name.as_str());
        proof {
            crate::store::lemma_list_entries(m0[from.branch_v()]);
        }
        match crate::store::append(store, into_name.as_str(), &into_branch.versions) {
            Ok(()) => {},
            Err(e) => {
                proof {
                    assert(false);
                }
                return Err(e);
            },
        }
        proof {
            let l0 = list_of(m0[from.branch_v()]);
            let i = choose|i: int|
                {
                    &&& 0 <= i < from_branch.versions@.len()
                    &&& (#[trigger] views_of(from_branch.versions@)[i]) == from_version@
                    &&& (forall|j: int|
                        0 <= j < i ==> views_of(from_branch.versions@)[j] != from_version@)
                    &&& views_of(into_branch.versions@) == views_of(from_branch.versions@).take(
                        i + 1,
                    )
                };
            assert(forall|t: int|
                0 <= t < l0.take(i + 1).len() ==> (#[trigger] l0.take(i + 1)[t]).len() > 0
                    && no_char(l0.take(i + 1)[t], '\n'));
            crate::store::lemma_list_append(Seq::<char>::empty(), l0.take(i + 1));
            assert(list_of(Seq::<char>::empty()) =~~= Seq::<Seq<char>>::empty()) by {
                reveal_with_fuel(Seq::<_>::filter, 2);
            }
            assert(list_of(final(store)@[into.branch_v()]) =~~= l0.take(i + 1));
        }
        Ok(())
    }

    /// Build a new page, file its content blob, and commit it as a new
    /// child reachable one step forward from `location`.
    #[verifier::rlimit(100)]
    #[verifier::spinoff_prover]
    pub fn create(
        store: &mut Store,
        location: &Location,
        title: String,
        content: String,
        fields: Dict,
    ) -> (r: Result<(), HrdbError>)
        requires
            old(store).wf(),
            location.wf(),
            fields.wf(),
        ensures
            final(store).wf(),
            match r {
                Ok(()) => (exists|pv: PageV, a: Seq<char>|
                    {
                        &&& pv.wf()
                        &&& pv.title == title@
                        &&& pv.content == crate::digest::address_of(content@)
                        &&& pv.fields == fields.seqv()
                        &&& pv.children == Seq::<(Seq<char>, Seq<char>)>::empty()
                        &&& pv.id.len() >= 32
                        &&& #[trigger] commit_ok(
                            old(store)@.insert(crate::digest::address_of(content@), content@).insert(
                                crate::digest::address_of(enc_page(pv)),
                                enc_page(pv),
                            ),
                            location.branch_v(),
                            location.version_v(),
                            Some(
                                location.path_v()->Some_0.push(
                                    crate::digest::address_of(enc_page(pv)),
                                ),
                            ),
                            pv,
                            a,
                            final(store)@,
                        )
                    }),
                Err(e) => ({
                    &&& (location.path_v() is None ==> e == HrdbError::NotFound)
                    &&& (e == HrdbError::NotFound || e == HrdbError::Corrupt || e
                        == HrdbError::StaleVersion || e == HrdbError::EmptyBranch)
                    // no failure corrupts a branch list or any other
                    // short-keyed record; only content-addressed blobs
                    // and the shorthand table may have been written
                    &&& (forall|key: Seq<char>|
                        key.len() < 32 && key != "shorthand"@ ==> ((
                        #[trigger] final(store)@.contains_key(key)) <==> old(store)@.contains_key(
                            key,
                        )) && (old(store)@.contains_key(key) ==> final(store)@[key] == old(
                            store,
                        )@[key]))
                }),
            },
            // success is owed whatever stable id is drawn: if the
            // commit is ready for every page shaped like the one being
            // created, the call returns Ok
            (location.path_v() is Some && (forall|pv: PageV|
                pv.title == title@ && pv.content == crate::digest::address_of(content@)
                    && pv.fields == fields.seqv() && pv.children == Seq::<(
                    Seq<char>,
                    Seq<char>,
                )>::empty() ==> #[trigger] commit_ready(
                    old(store)@.insert(crate::digest::address_of(content@), content@).insert(
                        crate::digest::address_of(enc_page(pv)),
                        enc_page(pv),
                    ),
                    location.branch_v(),
                    location.version_v(),
                    Some(location.path_v()->Some_0.push(crate::digest::address_of(enc_page(pv)))),
                    pv,
                ))) ==> r is Ok,
    {
        let ghost m0 = old(store)@;
        let caddr = crate::store::write(store, content.as_str());
        let new_page = Page::new(title, caddr, fields);
        let text = new_page.to_string();
        let addr = crate::store::write(store, text.as_str());
        proof {
            assert(store@ == m0.insert(crate::digest::address_of(content@), content@).insert(
                crate::digest::address_of(enc_page(new_page@)),
                enc_page(new_page@),
            ));
            assert(addr@ == crate::digest::address_of(enc_page(new_page@)));
        }
        let ghost addr_v = addr@;
        let child_loc = match location.forward(addr) {
            Ok(l) => l,
            Err(e) => {
                return Err(e);
            },
        };
        match Self::commit(store, &child_loc, &new_page) {
            Ok(a) => {
                proof {
                    assert(child_loc.path_v() == Some(location.path_v()->Some_0.push(addr_v)));
                    assert(commit_ok(
                        old(store)@.insert(
                            crate::digest::address_of(content@),
                            content@,
                        ).insert(
                            crate::digest::address_of(enc_page(new_page@)),
                            enc_page(new_page@),
                        ),
                        location.branch_v(),
                        location.version_v(),
                        Some(
                            location.path_v()->Some_0.push(
                                crate::digest::address_of(enc_page(new_page@)),
                            ),
                        ),
                        new_page@,
                        a@,
                        final(store)@,
                    ));
                }
                Ok(())
            },
            Err(e) => Err(e),
        }
    }

    /// Apply a partial update to the page at `location` — omitted
    /// fields are preserved unchanged — and commit it in place.  The
    /// page's stable id is never touched: identity survives every
    /// edit.
    #[verifier::rlimit(100)]
    #[verifier::spinoff_prover]
    pub fn edit(
        store: &mut Store,
        location: &Location,
        title: Option<String>,
        content: Option<String>,
        fields: Option<Dict>,
    ) -> (r: Result<(), HrdbError>)
        requires
            old(store).wf(),
            location.wf(),
            fields matches Some(f) ==> f.wf(),
        ensures
            final(store).wf(),
            match r {
                Ok(()) => edit_ok(
                    old(store)@,
                    location.branch_v(),
                    location.version_v(),
                    location.path_v(),
                    (if title is Some {
                        Some(title->Some_0@)
                    } else {
                        None
                    }),
                    (if content is Some {
                        Some(content->Some_0@)
                    } else {
                        None
                    }),
                    (if fields is Some {
                        Some(fields->Some_0.seqv())
                    } else {
                        None
                    }),
                    final(store)@,
                ),
                Err(e) => ({
                    &&& (e == HrdbError::NotFound || e == HrdbError::Corrupt || e
                        == HrdbError::StaleVersion || e == HrdbError::EmptyBranch)
                    // no failure corrupts a branch list or any other
                    // short-keyed record
                    &&& (forall|key: Seq<char>|
                        key.len() < 32 && key != "shorthand"@ ==> ((
                        #[trigger] final(store)@.contains_key(key)) <==> old(store)@.contains_key(
                            key,
                        )) && (old(store)@.contains_key(key) ==> final(store)@[key] == old(
                            store,
                        )@[key]))
                }),
            },
            // success is owed: a decodable page at the head of its
            // branch, with a decodable shorthand table on master and
            // decodable ancestors, always commits
            ({
                let pg0 = page_at(old(store)@, location.path_v()->Some_0.last())->Some_0;
                let titleo: Option<Seq<char>> = if title is Some {
                    Some(title->Some_0@)
                } else {
                    None
                };
                let contento: Option<Seq<char>> = if content is Some {
                    Some(content->Some_0@)
                } else {
                    None
                };
                let fieldso: Option<Seq<(Seq<char>, Seq<char>)>> = if fields is Some {
                    Some(fields->Some_0.seqv())
                } else {
                    None
                };
                &&& location.path_v() is Some
                &&& page_at(old(store)@, location.path_v()->Some_0.last()) is Some
                &&& commit_ready(
                    edit_mb(old(store)@, contento),
                    location.branch_v(),
                    location.version_v(),
                    location.path_v(),
                    edit_pv(pg0, titleo, contento, fieldso),
                )
            }) ==> r is Ok,
    {
        let ghost m0 = old(store)@;
        let end = match location.end() {
            Ok(a) => a,
            Err(e) => {
                return Err(e);
            },
        };
        let mut page = match Page::from(store, end.as_str()) {
            Ok(p) => p,
            Err(e) => {
                return Err(e);
            },
        };
        let ghost pg0 = page@;
        match content {
            Some(c) => {
                let caddr = crate::store::write(store, c.as_str());
                page.set_content(caddr);
            },
            None => {},
        }
        match title {
            Some(t) => {
                page.set_title(t);
            },
            None => {},
        }
        match fields {
            Some(f) => {
                page.set_fields(f);
            },
            None => {},
        }
        let ghost mb = store@;
        let ghost pgv = page@;
        let ghost titleo: Option<Seq<char>> = if title is Some {
            Some(title->Some_0@)
        } else {
            None
        };
        let ghost contento: Option<Seq<char>> = if content is Some {
            Some(content->Some_0@)
        } else {
            None
        };
        let ghost fieldso: Option<Seq<(Seq<char>, Seq<char>)>> = if fields is Some {
            Some(fields->Some_0.seqv())
        } else {
            None
        };
        proof {
            assert(pg0 == page_at(m0, location.path_v()->Some_0.last())->Some_0);
            assert(mb == (if contento is Some {
                m0.insert(crate::digest::address_of(contento->Some_0), contento->Some_0)
            } else {
                m0
            }));
            assert(pgv == (PageV {
                title: (if titleo is Some {
                    titleo->Some_0
                } else {
                    pg0.title
                }),
                content: (if contento is Some {
                    crate::digest::address_of(contento->Some_0)
                } else {
                    pg0.content
                }),
                fields: (if fieldso is Some {
                    fieldso->Some_0
                } else {
                    pg0.fields
                }),
                ..pg0
            }));
        }
        match Self::commit(store, location, &page) {
            Ok(a) => {
                proof {
                    assert(edit_ok(
                        m0,
                        location.branch_v(),
                        location.version_v(),
                        location.path_v(),
                        titleo,
                        contento,
                        fieldso,
                        store@,
                    )) by {
                        assert(edit_pv(pg0, titleo, contento, fieldso) == pgv);
                        assert(edit_mb(m0, contento) == mb);
                        assert(commit_ok(
                            edit_mb(m0, contento),
                            location.branch_v(),
                            location.version_v(),
                            location.path_v(),
                            edit_pv(pg0, titleo, contento, fieldso),
                            a@,
                            store@,
                        ));
                    }
                }
                Ok(())
            },
            Err(e) => Err(e),
        }
    }

    /// Remove the child at `location` from its parent and commit the
    /// parent.  The deleted subtree's records stay in storage: there is
    /// no cascading deletion of content-addressed data.
    #[verifier::rlimit(100)]
    #[verifier::spinoff_prover]
    pub fn delete(store: &mut Store, location: &Location) -> (r: Result<(), HrdbError>)
        requires
            old(store).wf(),
            location.wf(),
        ensures
            final(store).wf(),
            match r {
                Ok(()) => ({
                    let m0 = old(store)@;
                    let path = location.path_v()->Some_0;
                    let par0 = page_at(m0, path[path.len() - 2])->Some_0;
                    let child = page_at(m0, path.last())->Some_0;
                    let pv = PageV {
                        children: crate::dict::seq_remove(par0.children, child.id),
                        ..par0
                    };
                    &&& location.path_v() is Some
                    &&& path.len() >= 2
                    &&& page_at(m0, path[path.len() - 2]) is Some
                    &&& page_at(m0, path.last()) is Some
                    &&& exists|a: Seq<char>|
                        #[trigger] commit_ok(
                            m0,
                            location.branch_v(),
                            location.version_v(),
                            Some(path.drop_last()),
                            pv,
                            a,
                            final(store)@,
                        )
                }),
                Err(e) => {
                    &&& (e == HrdbError::NotFound || e == HrdbError::Corrupt || e
                        == HrdbError::StaleVersion || e == HrdbError::EmptyBranch || e
                        == HrdbError::AtRoot)
                    // no failure corrupts a branch list or any other
                    // short-keyed record
                    &&& (forall|key: Seq<char>|
                        key.len() < 32 && key != "shorthand"@ ==> ((
                        #[trigger] final(store)@.contains_key(key)) <==> old(store)@.contains_key(
                            key,
                        )) && (old(store)@.contains_key(key) ==> final(store)@[key] == old(
                            store,
                        )@[key]))
                },
            },
            // success is owed: a non-root node whose parent chain
            // decodes at the head of its branch always deletes
            ({
                let path = location.path_v()->Some_0;
                let par0 = page_at(old(store)@, path[path.len() - 2])->Some_0;
                let child = page_at(old(store)@, path.last())->Some_0;
                &&& location.path_v() is Some
                &&& path.len() >= 2
                &&& page_at(old(store)@, path[path.len() - 2]) is Some
                &&& page_at(old(store)@, path.last()) is Some
                &&& commit_ready(
                    old(store)@,
                    location.branch_v(),
                    location.version_v(),
                    Some(path.drop_last()),
                    PageV { children: crate::dict::seq_remove(par0.children, child.id), ..par0 },
                )
            }) ==> r is Ok,
    {
        let parent_loc = match location.back() {
            Ok(l) => l,
            Err(e) => {
                return Err(e);
            },
        };
        let pend = match parent_loc.end() {
            Ok(a) => a,
            Err(e) => {
                proof {
                    assert(false);
                }
                return Err(e);
            },
        };
        let mut parent = match Page::from(store, pend.as_str()) {
            Ok(p) => p,
            Err(e) => {
                return Err(e);
            },
        };
        let end = match location.end() {
            Ok(a) => a,
            Err(e) => {
                proof {
                    assert(false);
                }
                return Err(e);
            },
        };
        let page = match Page::from(store, end.as_str()) {
            Ok(p) => p,
            Err(e) => {
                return Err(e);
            },
        };
        let cid = page.id();
        parent.child_remove(cid.as_str());
        let ghost m0 = old(store)@;
        let ghost pgv = parent@;
        proof {
            let path = location.path_v()->Some_0;
            assert(parent_loc.path_v() == Some(path.drop_last()));
            assert(path.drop_last().last() == path[path.len() - 2]);
            assert(page_at(m0, path[path.len() - 2]) is Some);
            assert(pgv == (PageV {
                children: crate::dict::seq_remove(
                    page_at(m0, path[path.len() - 2])->Some_0.children,
                    page_at(m0, path.last())->Some_0.id,
                ),
                ..page_at(m0, path[path.len() - 2])->Some_0
            }));
        }
        match Self::commit(store, &parent_loc, &parent) {
            Ok(a) => {
                proof {
                    assert(commit_ok(
                        m0,
                        location.branch_v(),
                        location.version_v(),
                        Some(location.path_v()->Some_0.drop_last()),
                        pgv,
                        a@,
                        final(store)@,
                    ));
                }
                Ok(())
            },
            Err(e) => Err(e),
        }
    }

    /// Move the node at `from` under the parent at `to`, preserving
    /// its stable id: the destination parent gains a child entry for
    /// the node's current address, the source parent loses its entry,
    /// and the two commits are issued destination first.  Each commit
    /// validates independently against the branch head.
    #[verifier::rlimit(100)]
    #[verifier::spinoff_prover]
    pub fn relocate(store: &mut Store, from: &Location, to: &Location) -> (r: Result<
        (),
        HrdbError,
    >)
        requires
            old(store).wf(),
            from.wf(),
            to.wf(),
        ensures
            final(store).wf(),
            match r {
                Ok(()) => ({
                    let m0 = old(store)@;
                    let fpath = from.path_v()->Some_0;
                    let par0 = page_at(m0, fpath[fpath.len() - 2])->Some_0;
                    let fpage = page_at(m0, fpath.last())->Some_0;
                    let tpage = page_at(m0, to.path_v()->Some_0.last())->Some_0;
                    let tv = PageV {
                        children: seq_insert(tpage.children, fpage.id, fpath.last()),
                        ..tpage
                    };
                    let pv = PageV {
                        children: crate::dict::seq_remove(par0.children, fpage.id),
                        ..par0
                    };
                    &&& from.path_v() is Some
                    &&& to.path_v() is Some
                    &&& fpath.len() >= 2
                    &&& exists|a1: Seq<char>, a2: Seq<char>, mmid: Map<Seq<char>, Seq<char>>|
                        {
                            &&& #[trigger] commit_ok(
                                m0,
                                to.branch_v(),
                                to.version_v(),
                                to.path_v(),
                                tv,
                                a1,
                                mmid,
                            )
                            &&& #[trigger] commit_ok(
                                mmid,
                                from.branch_v(),
                                from.version_v(),
                                Some(fpath.drop_last()),
                                pv,
                                a2,
                                final(store)@,
                            )
                        }
                }),
                Err(e) => ({
                    &&& (e == HrdbError::NotFound || e == HrdbError::Corrupt || e
                        == HrdbError::StaleVersion || e == HrdbError::EmptyBranch || e
                        == HrdbError::AtRoot)
                    // the destination commit may have landed before the
                    // failure; every other short-keyed record is intact
                    &&& (forall|key: Seq<char>|
                        key.len() < 32 && key != "shorthand"@ && key != to.branch_v() ==> ((
                        #[trigger] final(store)@.contains_key(key)) <==> old(store)@.contains_key(
                            key,
                        )) && (old(store)@.contains_key(key) ==> final(store)@[key] == old(
                            store,
                        )@[key]))
                }),
            },
            // success is owed when both commits are ready: the
            // destination against the starting store, the source
            // against the store the destination commit produces
            ({
                let m0 = old(store)@;
                let fpath = from.path_v()->Some_0;
                let tpath = to.path_v()->Some_0;
                let tv = PageV {
                    children: seq_insert(
                        page_at(m0, tpath.last())->Some_0.children,
                        page_at(m0, fpath.last())->Some_0.id,
                        fpath.last(),
                    ),
                    ..page_at(m0, tpath.last())->Some_0
                };
                let pv = PageV {
                    children: crate::dict::seq_remove(
                        page_at(m0, fpath[fpath.len() - 2])->Some_0.children,
                        page_at(m0, fpath.last())->Some_0.id,
                    ),
                    ..page_at(m0, fpath[fpath.len() - 2])->Some_0
                };
                &&& from.path_v() is Some
                &&& to.path_v() is Some
                &&& fpath.len() >= 2
                &&& page_at(m0, fpath[fpath.len() - 2]) is Some
                &&& page_at(m0, fpath.last()) is Some
                &&& page_at(m0, tpath.last()) is Some
                &&& commit_ready(m0, to.branch_v(), to.version_v(), to.path_v(), tv)
                &&& commit_ready(
                    commit_mend(m0, to.branch_v(), to.path_v(), tv),
                    from.branch_v(),
                    from.version_v(),
                    Some(fpath.drop_last()),
                    pv,
                )
            }) ==> r is Ok,
    {
        let parent_loc = match from.back() {
            Ok(l) => l,
            Err(e) => {
                return Err(e);
            },
        };
        let pend = match parent_loc.end() {
            Ok(a) => a,
            Err(e) => {
                proof {
                    assert(false);
                }
                return Err(e);
            },
        };
        let mut parent = match Page::from(store, pend.as_str()) {
            Ok(p) => p,
            Err(e) => {
                return Err(e);
            },
        };
        let fend = match from.end() {
            Ok(a) => a,
            Err(e) => {
                proof {
                    assert(false);
                }
                return Err(e);
            },
        };
        let from_page = match Page::from(store, fend.as_str()) {
            Ok(p) => p,
            Err(e) => {
                return Err(e);
            },
        };
        let tend = match to.end() {
            Ok(a) => a,
            Err(e) => {
                return Err(e);
            },
        };
        let mut to_page = match Page::from(store, tend.as_str()) {
            Ok(p) => p,
            Err(e) => {
                return Err(e);
            },
        };
        let ghost fend_v = fend@;
        to_page.child_insert(from_page.id(), fend);
        parent.child_remove(from_page.id().as_str());
        let ghost m0 = old(store)@;
        let ghost tv = to_page@;
        let ghost pv = parent@;
        proof {
            let fpath = from.path_v()->Some_0;
            assert(parent_loc.path_v() == Some(fpath.drop_last()));
            assert(fpath.drop_last().last() == fpath[fpath.len() - 2]);
            assert(tv == (PageV {
                children: seq_insert(
                    page_at(m0, to.path_v()->Some_0.last())->Some_0.children,
                    page_at(m0, fpath.last())->Some_0.id,
                    fpath.last(),
                ),
                ..page_at(m0, to.path_v()->Some_0.last())->Some_0
            }));
            assert(pv == (PageV {
                children: crate::dict::seq_remove(
                    page_at(m0, fpath[fpath.len() - 2])->Some_0.children,
                    page_at(m0, fpath.last())->Some_0.id,
                ),
                ..page_at(m0, fpath[fpath.len() - 2])->Some_0
            }));
        }
        let a1 = match Self::commit(store, to, &to_page) {
            Ok(a) => a,
            Err(e) => {
                return Err(e);
            },
        };
        let ghost mmid = store@;
        let a2 = match Self::commit(store, &parent_loc, &parent) {
            Ok(a) => a,
            Err(e) => {
                return Err(e);
            },
        };
        proof {
            assert(commit_ok(m0, to.branch_v(), to.version_v(), to.path_v(), tv, a1@, mmid));
            assert(commit_ok(
                mmid,
                from.branch_v(),
                from.version_v(),
                Some(from.path_v()->Some_0.drop_last()),
                pv,
                a2@,
                final(store)@,
            ));
        }
        Ok(())
    }

    /// Resolve a human-readable shorthand on `master`: look the name
    /// up in the side table and find the recorded page by its stable
    /// id, preferring the current head and falling back to the
    /// recorded version — entries are best-effort pointers and the
    /// page may have moved or vanished since they were written.
    pub fn resolve_short(store: &Store, name: &str) -> (r: Result<Location, HrdbError>)
        requires
            store.wf(),
        ensures
            match r {
                Ok(l) => ({
                    &&& l.wf()
                    &&& l.branch_v() == "master"@
                    &&& l.version_v() is Some
                    &&& l.path_v() matches Some(p) && p[0] == l.version_v()->Some_0 && wf_path(
                        store@,
                        p,
                    )
                    &&& crate::shorthand::dec_table(store@["shorthand"@]) is Some
                    &&& crate::dict::map_of(
                        crate::shorthand::dec_table(store@["shorthand"@])->Some_0,
                    ).contains_key(name@)
                    &&& page_at(store@, l.path_v()->Some_0.last()) matches Some(pg)
                        && pg.id == crate::shorthand::val_id(
                        crate::dict::map_of(
                            crate::shorthand::dec_table(store@["shorthand"@])->Some_0,
                        )[name@],
                    )
                }),
                Err(e) => e == HrdbError::NotFound || e == HrdbError::Corrupt,
            },
            // success is owed: a decodable table with an entry whose
            // recorded version exists and whose id the search finds at
            // the head or at the recorded version always resolves
            ({
                let tbl = crate::shorthand::dec_table(store@["shorthand"@])->Some_0;
                let entry = crate::dict::map_of(tbl)[name@];
                let l = list_of(store@["master"@]);
                &&& store@.contains_key("shorthand"@)
                &&& crate::shorthand::dec_table(store@["shorthand"@]) is Some
                &&& crate::dict::map_of(tbl).contains_key(name@)
                &&& store@.contains_key("master"@)
                &&& l.len() > 0
                &&& crate::shorthand::val_ver(entry) < l.len()
                &&& (bfs(store@, seq![seq![l.last()]], crate::shorthand::val_id(entry), 1048576)
                    is Ok || bfs(
                    store@,
                    seq![seq![l[crate::shorthand::val_ver(entry) as int]]],
                    crate::shorthand::val_id(entry),
                    1048576,
                ) is Ok)
            }) ==> r is Ok,
    {
        let table = match Shorthand::read(store) {
            Ok(t) => t,
            Err(e) => {
                return Err(e);
            },
        };
        let (ver_no, id) = match table.get(name) {
            Some(p) => p,
            None => {
                proof {
                    crate::dict::lemma_map_of_contains(table.seqv(), name@);
                }
                return Err(HrdbError::NotFound);
            },
        };
        proof {
            let tbl = crate::shorthand::dec_table(store@["shorthand"@])->Some_0;
            assert(table.seqv() == tbl);
            assert(table@.contains_key(name@));
            assert(crate::dict::map_of(tbl).contains_key(name@));
            assert(ver_no as nat == crate::shorthand::val_ver(crate::dict::map_of(tbl)[name@]));
            assert(id@ == crate::shorthand::val_id(crate::dict::map_of(tbl)[name@]));
        }
        let master = Location::from_branch("master".to_owned());
        let versions = match Self::versions(store, &master) {
            Ok(v) => v,
            Err(e) => {
                return Err(e);
            },
        };
        if versions.len() == 0 {
            return Err(HrdbError::NotFound);
        }
        if ver_no >= versions.len() as u64 {
            return Err(HrdbError::NotFound);
        }
        let recorded = &versions[ver_no as usize];
        let head = &versions[versions.len() - 1];
        match Self::locate_id(store, head, id.as_str()) {
            Ok(l) => Ok(l),
            Err(_) => Self::locate_id(store, recorded, id.as_str()),
        }
    }

    /// The page at a location, as plain data: title, content text, and
    /// metadata fields.
    pub fn read(store: &Store, location: &Location) -> (r: Result<
        (String, String, Dict),
        HrdbError,
    >)
        requires
            store.wf(),
            location.wf(),
        ensures
            match r {
                Ok(v) => {
                    &&& location.path_v() matches Some(p)
                    &&& page_at(store@, location.path_v()->Some_0.last()) matches Some(pg)
                    &&& ({
                        let pg2 = page_at(store@, location.path_v()->Some_0.last())->Some_0;
                        &&& v.0@ == pg2.title
                        &&& store@.contains_key(pg2.content)
                        &&& v.1@ == store@[pg2.content]
                        &&& v.2.seqv() == pg2.fields
                        &&& v.2.wf()
                    })
                },
                Err(e) => ({
                    &&& (location.path_v() is None ==> e == HrdbError::NotFound)
                    &&& (location.path_v() matches Some(p) ==> ((page_at(store@, p.last()) is None
                        && (e == HrdbError::NotFound <==> !store@.contains_key(p.last())) && (e
                        == HrdbError::Corrupt <==> store@.contains_key(p.last()))) || (page_at(
                        store@,
                        p.last(),
                    ) matches Some(pg) && !store@.contains_key(pg.content) && e
                        == HrdbError::NotFound)))
                }),
            },
            ({
                &&& location.path_v() matches Some(p)
                &&& page_at(store@, location.path_v()->Some_0.last()) matches Some(pg)
                &&& store@.contains_key(pg.content)
            }) ==> r is Ok,
    {
        let end = match location.end() {
            Ok(a) => a,
            Err(e) => {
                return Err(e);
            },
        };
        let page = match Page::from(store, end.as_str()) {
            Ok(p) => p,
            Err(e) => {
                return Err(e);
            },
        };
        let content = match read(store, page.content().as_str()) {
            Ok(c) => c,
            Err(e) => {
                return Err(e);
            },
        };
        let title = page.title().clone();
        let fields = page.into_fields();
        Ok((title, content, fields))
    }
}

} // verus!
