//! A location: a branch name, optionally a chosen version (the hash of
//! a root page), and optionally a path of addresses from that root down
//! to one node.  A location without a path is a branch or version
//! handle, not a resolvable node.

use vstd::prelude::*;
use crate::errors::HrdbError;
use crate::page::{page_at, Page, PageV};
use crate::store::Store;
use crate::strutil::views_of;

verus! {

/// The ids of the pages along a path, root first; `None` when some
/// address is missing or does not decode.
pub open spec fn ids_of(m: Map<Seq<char>, Seq<char>>, path: Seq<Seq<char>>) -> Option<
    Seq<Seq<char>>,
>
    decreases path.len(),
{
    if path.len() == 0 {
        Some(Seq::empty())
    } else {
        match page_at(m, path.first()) {
            None => None,
            Some(p) => match ids_of(m, path.drop_first()) {
                None => None,
                Some(rest) => Some(seq![p.id] + rest),
            },
        }
    }
}

/// Extending a fully resolved path by one decodable address appends
/// that page's id to the resolved ids.
pub proof fn lemma_ids_of_push(
    m: Map<Seq<char>, Seq<char>>,
    path: Seq<Seq<char>>,
    b: Seq<char>,
    pre: Seq<Seq<char>>,
)
    requires
        ids_of(m, path) == Some(pre),
        page_at(m, b) is Some,
    ensures
        ids_of(m, path.push(b)) == Some(pre.push(page_at(m, b)->Some_0.id)),
    decreases path.len(),
{
    if path.len() == 0 {
        assert(path.push(b).first() == b);
        assert(path.push(b).drop_first() =~~= Seq::<Seq<char>>::empty());
        assert(ids_of(m, Seq::<Seq<char>>::empty()) == Some(Seq::<Seq<char>>::empty()));
        assert(pre =~~= Seq::<Seq<char>>::empty());
        assert(seq![page_at(m, b)->Some_0.id] + Seq::<Seq<char>>::empty() =~~= pre.push(
            page_at(m, b)->Some_0.id,
        ));
    } else {
        let rest = ids_of(m, path.drop_first())->Some_0;
        lemma_ids_of_push(m, path.drop_first(), b, rest);
        assert(path.push(b).first() == path.first());
        assert(path.push(b).drop_first() =~~= path.drop_first().push(b));
        assert(seq![page_at(m, path.first())->Some_0.id] + rest.push(page_at(m, b)->Some_0.id)
            =~~= pre.push(page_at(m, b)->Some_0.id));
    }
}

/// The location of a specific page at a specific version on a specific
/// branch: the branch's name, the version (the root page's hash), and
/// a path of addresses from the root to the page.
#[derive(Clone, Debug)]
pub struct Location {
    branch: String,
    rest: Option<(String, Option<Vec<String>>)>,
}

impl Location {
    /// The branch name.
    pub closed spec fn branch_v(&self) -> Seq<char> {
        self.branch@
    }

    /// The chosen version, if any.
    pub closed spec fn version_v(&self) -> Option<Seq<char>> {
        match self.rest {
            None => None,
            Some(r) => Some(r.0@),
        }
    }

    /// The path of addresses, if any.
    pub closed spec fn path_v(&self) -> Option<Seq<Seq<char>>> {
        match self.rest {
            None => None,
            Some(r) => match r.1 {
                None => None,
                Some(p) => Some(views_of(p@)),
            },
        }
    }

    /// A path is never empty, and only exists below a version.
    pub open spec fn wf(&self) -> bool {
        self.path_v() matches Some(p) ==> p.len() > 0
    }

    /// A handle on a whole branch.
    pub fn from_branch(branch: String) -> (r: Location)
        ensures
            r.wf(),
            r.branch_v() == branch@,
            r.version_v() is None,
            r.path_v() is None,
    {
        Location { branch, rest: None }
    }

    /// A handle on one version of a branch.
    pub fn from_branch_and_version(branch: String, version: String) -> (r: Location)
        ensures
            r.wf(),
            r.branch_v() == branch@,
            r.version_v() == Some(version@),
            r.path_v() is None,
    {
        Location { branch, rest: Some((version, None)) }
    }

    /// A resolvable node: branch, version, and a non-empty path of
    /// addresses starting at the version root.
    pub fn from_branch_version_and_path(branch: String, version: String, path: Vec<String>) -> (r:
        Location)
        requires
            path@.len() > 0,
        ensures
            r.wf(),
            r.branch_v() == branch@,
            r.version_v() == Some(version@),
            r.path_v() == Some(views_of(path@)),
    {
        Location { branch, rest: Some((version, Some(path))) }
    }

    pub fn branch(&self) -> (r: String)
        ensures
            r@ == self.branch_v(),
    {
        self.branch.clone()
    }

    /// The chosen version; fails with `NotFound` exactly when this is
    /// a plain branch handle.
    pub fn version(&self) -> (r: Result<String, HrdbError>)
        ensures
            match r {
                Ok(v) => self.version_v() == Some(v@),
                Err(e) => e == HrdbError::NotFound && self.version_v() is None,
            },
    {
        match &self.rest {
            Some(r) => Ok(r.0.clone()),
            None => Err(HrdbError::NotFound),
        }
    }

    /// The path of addresses; fails with `NotFound` exactly when no
    /// path was resolved.
    pub fn path(&self) -> (r: Result<Vec<String>, HrdbError>)
        ensures
            match r {
                Ok(p) => self.path_v() == Some(views_of(p@)),
                Err(e) => e == HrdbError::NotFound && self.path_v() is None,
            },
    {
        match &self.rest {
            Some(r) => match &r.1 {
                Some(p) => Ok(p.clone()),
                None => Err(HrdbError::NotFound),
            },
            None => Err(HrdbError::NotFound),
        }
    }

    /// One step toward the root: the same location with the last path
    /// element dropped.  Fails with `AtRoot` when the node is the
    /// version root itself.
    pub fn back(&self) -> (r: Result<Location, HrdbError>)
        requires
            self.wf(),
        ensures
            match r {
                Ok(l) => {
                    &&& l.wf()
                    &&& self.path_v() matches Some(p) && p.len() >= 2
                    &&& l.branch_v() == self.branch_v()
                    &&& l.version_v() == self.version_v()
                    &&& l.path_v() == Some(self.path_v()->Some_0.drop_last())
                },
                Err(e) => {
                    &&& (e == HrdbError::NotFound || e == HrdbError::AtRoot)
                    &&& (e == HrdbError::NotFound <==> self.path_v() is None)
                    &&& (e == HrdbError::AtRoot <==> (self.path_v() matches Some(p) && p.len()
                        == 1))
                },
            },
    {
        let mut path = match self.path() {
            Ok(p) => p,
            Err(e) => {
                return Err(e);
            },
        };
        if path.len() <= 1 {
            return Err(HrdbError::AtRoot);
        }
        let ghost p0 = path@;
        let _ = path.pop();
        proof {
            assert(views_of(path@) =~~= views_of(p0).drop_last());
        }
        let version = match self.version() {
            Ok(v) => v,
            Err(e) => {
                return Err(e);
            },
        };
        Ok(Location::from_branch_version_and_path(self.branch(), version, path))
    }

    /// One step downward: the same location with `address` appended to
    /// the path.  Reachability is not checked here; it is checked when
    /// the page is actually read.  Fails with `NotFound` when this
    /// location has no path to extend.
    pub fn forward(&self, address: String) -> (r: Result<Location, HrdbError>)
        requires
            self.wf(),
        ensures
            match r {
                Ok(l) => {
                    &&& l.wf()
                    &&& self.path_v() matches Some(p)
                    &&& l.branch_v() == self.branch_v()
                    &&& l.version_v() == self.version_v()
                    &&& l.path_v() == Some(self.path_v()->Some_0.push(address@))
                },
                Err(e) => e == HrdbError::NotFound && self.path_v() is None,
            },
    {
        let mut path = match self.path() {
            Ok(p) => p,
            Err(e) => {
                return Err(e);
            },
        };
        let ghost p0 = path@;
        path.push(address);
        proof {
            assert(views_of(path@) =~~= views_of(p0).push(path@.last()@));
        }
        let version = match self.version() {
            Ok(v) => v,
            Err(e) => {
                return Err(e);
            },
        };
        Ok(Location::from_branch_version_and_path(self.branch(), version, path))
    }

    /// The address of the node this location points at: the path's
    /// last element.
    pub fn end(&self) -> (r: Result<String, HrdbError>)
        requires
            self.wf(),
        ensures
            match r {
                Ok(a) => self.path_v() matches Some(p) && a@ == p.last(),
                Err(e) => e == HrdbError::NotFound && self.path_v() is None,
            },
    {
        match &self.rest {
            Some(rv) => match &rv.1 {
                Some(p) => {
                    let a = p[p.len() - 1].clone();
                    Ok(a)
                },
                None => Err(HrdbError::NotFound),
            },
            None => Err(HrdbError::NotFound),
        }
    }

    /// The stable ids of every page on the path, root first.
    pub fn ids(&self, store: &Store) -> (r: Result<Vec<String>, HrdbError>)
        requires
            self.wf(),
            store.wf(),
        ensures
            match r {
                Ok(v) => self.path_v() matches Some(p) && ids_of(store@, p) == Some(views_of(v@)),
                Err(e) => (e == HrdbError::NotFound && self.path_v() is None) || (
                self.path_v() matches Some(p) && ids_of(store@, p) is None && (e
                    == HrdbError::NotFound || e == HrdbError::Corrupt)),
            },
    {
        let path = match self.path() {
            Ok(p) => p,
            Err(e) => {
                return Err(e);
            },
        };
        let ghost pv = views_of(path@);
        let mut out: Vec<String> = Vec::new();
        let mut i: usize = 0;
        proof {
            assert(pv.skip(0) =~~= pv);
            match ids_of(store@, pv) {
                None => {},
                Some(rest) => {
                    assert(views_of(out@) + rest =~~= rest);
                },
            }
        }
        while i < path.len()
            invariant
                store.wf(),
                self.path_v() == Some(pv),
                path@.len() == pv.len(),
                views_of(path@) == pv,
                i <= pv.len(),
                ids_of(store@, pv) == (match ids_of(store@, pv.skip(i as int)) {
                    None => None::<Seq<Seq<char>>>,
                    Some(rest) => Some(views_of(out@) + rest),
                }),
            decreases pv.len() - i,
        {
            let ghost suffix = pv.skip(i as int);
            let page = match Page::from(store, path[i].as_str()) {
                Ok(p) => p,
                Err(e) => {
                    proof {
                        assert(suffix.first() == pv[i as int]);
                        assert(ids_of(store@, suffix) is None);
                    }
                    return Err(e);
                },
            };
            let ghost o0 = views_of(out@);
            out.push(page.id());
            proof {
                assert(suffix.first() == pv[i as int]);
                assert(suffix.drop_first() =~~= pv.skip(i as int + 1));
                assert(views_of(out@) =~~= o0.push(page@.id));
                match ids_of(store@, pv.skip(i as int + 1)) {
                    None => {},
                    Some(rest) => {
                        assert(views_of(out@) + rest =~~= o0 + (seq![page@.id] + rest));
                    },
                }
            }
            i = i + 1;
        }
        proof {
            assert(pv.skip(pv.len() as int) =~~= Seq::<Seq<char>>::empty());
            assert(ids_of(store@, Seq::<Seq<char>>::empty()) == Some(Seq::<Seq<char>>::empty()));
            assert(views_of(out@) + Seq::<Seq<char>>::empty() =~~= views_of(out@));
        }
        Ok(out)
    }

    /// The stable id of the node this location points at.
    pub fn id(&self, store: &Store) -> (r: Result<String, HrdbError>)
        requires
            self.wf(),
            store.wf(),
        ensures
            match r {
                Ok(v) => self.path_v() matches Some(p) && page_at(store@, p.last()) matches Some(pg)
                    && v@ == pg.id,
                Err(e) => (e == HrdbError::NotFound && self.path_v() is None) || (
                self.path_v() matches Some(p) && page_at(store@, p.last()) is None && (e
                    == HrdbError::NotFound || e == HrdbError::Corrupt)),
            },
    {
        let a = match self.end() {
            Ok(a) => a,
            Err(e) => {
                return Err(e);
            },
        };
        let page = match Page::from(store, a.as_str()) {
            Ok(p) => p,
            Err(e) => {
                return Err(e);
            },
        };
        Ok(page.id())
    }

    /// The position of this location's version in its branch's stored
    /// list (the version number shown to callers).
    pub fn ver_no(&self, store: &Store) -> (r: Result<usize, HrdbError>)
        requires
            store.wf(),
        ensures
            match r {
                Ok(n) => {
                    &&& self.version_v() matches Some(v)
                    &&& store@.contains_key(self.branch_v())
                    &&& {
                        let l = crate::store::list_of(store@[self.branch_v()]);
                        &&& (n as int) < l.len()
                        &&& l[n as int] == self.version_v()->Some_0
                        &&& forall|j: int|
                            0 <= j < n ==> l[j] != self.version_v()->Some_0
                    }
                },
                Err(e) => e == HrdbError::NotFound && (self.version_v() is None
                    || !store@.contains_key(self.branch_v()) || (self.version_v() matches Some(v)
                    && !crate::store::list_of(store@[self.branch_v()]).contains(v))),
            },
    {
        let version = match self.version() {
            Ok(v) => v,
            Err(e) => {
                return Err(e);
            },
        };
        let entries = match crate::store::list(store, self.branch.as_str()) {
            Ok(v) => v,
            Err(e) => {
                return Err(e);
            },
        };
        let ghost l = crate::store::list_of(store@[self.branch_v()]);
        let mut i: usize = 0;
        while i < entries.len()
            invariant
                store@.contains_key(self.branch_v()),
                self.version_v() == Some(version@),
                l == crate::store::list_of(store@[self.branch_v()]),
                entries@.len() == l.len(),
                views_of(entries@) == l,
                i <= l.len(),
                forall|j: int| 0 <= j < i ==> l[j] != version@,
            decreases l.len() - i,
        {
            if crate::strutil::str_eq(entries[i].as_str(), version.as_str()) {
                proof {
                    assert(l[i as int] == version@);
                }
                return Ok(i);
            }
            i = i + 1;
        }
        proof {
            if crate::store::list_of(store@[self.branch_v()]).contains(version@) {
                let w = choose|w: int| 0 <= w < l.len() && l[w] == version@;
                assert(false);
            }
        }
        Err(HrdbError::NotFound)
    }
}

} // verus!
