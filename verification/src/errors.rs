use vstd::prelude::*;

verus! {

/// Every failure the store can report.  Operations return these as typed
/// values; no operation aborts the process on bad input.
#[derive(Clone, Copy, Debug, PartialEq, Eq, Structural)]
pub enum HrdbError {
    /// A key, branch, version, child or shorthand entry is missing.
    NotFound,
    /// Stored bytes do not decode into the expected record shape.
    Corrupt,
    /// The key-value layer itself failed.
    BackendFailure,
    /// The fast-forward check failed: the commit was not applied to the
    /// branch's current head.
    StaleVersion,
    /// Navigation tried to step above the version root.
    AtRoot,
    /// Direct descent met an id that is not a child of the current node.
    BrokenPath,
    /// A fork targeted a branch name that already has a persisted list.
    BranchExists,
    /// A fork named a version that is absent from the source branch.
    VersionNotFound,
    /// A head was requested on a branch with no versions yet.
    EmptyBranch,
    /// The operation is deliberately left unimplemented.
    Unsupported,
}

impl HrdbError {
    /// A short human-readable description of the failure.
    pub fn describe(&self) -> (r: String)
        ensures
            r@.len() > 0,
    {
        let s = match self {
            HrdbError::NotFound => "not found",
            HrdbError::Corrupt => "stored record is corrupt",
            HrdbError::BackendFailure => "key-value backend failure",
            HrdbError::StaleVersion => "commit was not applied to the branch head",
            HrdbError::AtRoot => "cannot navigate above the version root",
            HrdbError::BrokenPath => "id is not a child of the current node",
            HrdbError::BranchExists => "a branch with that name already exists",
            HrdbError::VersionNotFound => "version is not on this branch",
            HrdbError::EmptyBranch => "branch has no versions",
            HrdbError::Unsupported => "operation is not supported",
        };
        proof {
            reveal_strlit("not found");
            reveal_strlit("stored record is corrupt");
            reveal_strlit("key-value backend failure");
            reveal_strlit("commit was not applied to the branch head");
            reveal_strlit("cannot navigate above the version root");
            reveal_strlit("id is not a child of the current node");
            reveal_strlit("a branch with that name already exists");
            reveal_strlit("version is not on this branch");
            reveal_strlit("branch has no versions");
            reveal_strlit("operation is not supported");
        }
        s.to_owned()
    }
}

} // verus!
