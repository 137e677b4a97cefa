//! A branch: a named, append-only list of version (root page)
//! addresses, stored as a newline-joined list under the branch's name.
//! The head is the last entry.  Appends go through the commit
//! protocol only.

use vstd::prelude::*;
use crate::errors::HrdbError;
use crate::store::{list, list_of, Store};
use crate::strutil::{str_eq, views_of};

verus! {

/// An in-memory copy of a branch's version list.
#[derive(Debug)]
pub struct Branch {
    pub versions: Vec<String>,
}

impl Branch {
    /// Load the branch named `name`; fails with `NotFound` exactly
    /// when no list was ever created under that name.
    pub fn from(store: &Store, name: &str) -> (r: Result<Branch, HrdbError>)
        requires
            store.wf(),
        ensures
            match r {
                Ok(b) => store@.contains_key(name@) && views_of(b.versions@) == list_of(
                    store@[name@],
                ),
                Err(e) => e == HrdbError::NotFound && !store@.contains_key(name@),
            },
    {
        match list(store, name) {
            Ok(v) => Ok(Branch { versions: v }),
            Err(e) => Err(e),
        }
    }

    /// The most recent version; fails with `EmptyBranch` exactly when
    /// no versions exist yet.
    pub fn head(&self) -> (r: Result<String, HrdbError>)
        ensures
            match r {
                Ok(h) => self.versions@.len() > 0 && h@ == views_of(self.versions@).last(),
                Err(e) => e == HrdbError::EmptyBranch && self.versions@.len() == 0,
            },
    {
        if self.versions.len() == 0 {
            Err(HrdbError::EmptyBranch)
        } else {
            let h = self.versions[self.versions.len() - 1].clone();
            Ok(h)
        }
    }

    /// A new in-memory branch holding this branch's history up to and
    /// including `version`.  Fails with `BranchExists` when `name`
    /// already has a persisted list, and with `VersionNotFound` when
    /// `version` is absent from this branch's list.
    pub fn fork(&self, store: &Store, version: &str, name: &str) -> (r: Result<Branch, HrdbError>)
        requires
            store.wf(),
        ensures
            match r {
                Ok(b) => {
                    &&& !store@.contains_key(name@)
                    &&& exists|i: int|
                        {
                            &&& 0 <= i < self.versions@.len()
                            &&& (#[trigger] views_of(self.versions@)[i]) == version@
                            &&& (forall|j: int|
                                0 <= j < i ==> (#[trigger] views_of(self.versions@)[j]) != version@)
                            &&& views_of(b.versions@) == views_of(self.versions@).take(i + 1)
                        }
                },
                Err(e) => {
                    &&& (e == HrdbError::BranchExists || e == HrdbError::VersionNotFound)
                    &&& (e == HrdbError::BranchExists <==> store@.contains_key(name@))
                    &&& (e == HrdbError::VersionNotFound ==> forall|i: int|
                        0 <= i < self.versions@.len() ==> (#[trigger] views_of(self.versions@)[i])
                            != version@)
                },
            },
    {
        if store.contains(name) {
            return Err(HrdbError::BranchExists);
        }
        let n = self.versions.len();
        let mut i: usize = 0;
        while i < n
            invariant
                !store@.contains_key(name@),
                n == self.versions@.len(),
                i <= n,
                forall|j: int| 0 <= j < i ==> (#[trigger] views_of(self.versions@)[j]) != version@,
            decreases n - i,
        {
            if str_eq(self.versions[i].as_str(), version) {
                let mut out: Vec<String> = Vec::new();
                let mut k: usize = 0;
                proof {
                    assert(views_of(out@) =~~= views_of(self.versions@).take(0));
                }
                while k <= i
                    invariant
                        i < n,
                        n == self.versions@.len(),
                        k <= i + 1,
                        views_of(out@) == views_of(self.versions@).take(k as int),
                    decreases i + 1 - k,
                {
                    let ghost o0 = out@;
                    out.push(self.versions[k].clone());
                    proof {
                        assert(out@ =~= o0.push(self.versions@[k as int]));
                        crate::strutil::lemma_views_take_push(
                            o0,
                            self.versions@[k as int],
                            views_of(self.versions@),
                            k as int,
                        );
                    }
                    k = k + 1;
                }
                let b = Branch { versions: out };
                proof {
                    let iv = i as int;
                    assert(0 <= iv < self.versions@.len());
                    assert(views_of(self.versions@)[iv] == version@);
                    assert(views_of(b.versions@) == views_of(self.versions@).take(iv + 1));
                    assert(exists|w: int|
                        {
                            &&& 0 <= w < self.versions@.len()
                            &&& (#[trigger] views_of(self.versions@)[w]) == version@
                            &&& (forall|j: int|
                                0 <= j < w ==> (#[trigger] views_of(self.versions@)[j]) != version@)
                            &&& views_of(b.versions@) == views_of(self.versions@).take(w + 1)
                        });
                }
                return Ok(b);
            }
            i = i + 1;
        }
        Err(HrdbError::VersionNotFound)
    }

    /// Merging one branch into another needs a conflict-resolution
    /// policy that the design deliberately leaves unspecified, so the
    /// operation is exposed but always refused.
    pub fn merge(&mut self, from: &Branch) -> (r: Result<String, HrdbError>)
        ensures
            final(self).versions@ == old(self).versions@,
            r == Err::<String, HrdbError>(HrdbError::Unsupported),
    {
        let _ = from;
        Err(HrdbError::Unsupported)
    }
}

} // verus!
