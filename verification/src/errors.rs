use vstd::prelude::*;

verus! {

/// Everything that can go wrong during an analysis run. All errors are
/// terminal: the first one aborts the whole traversal.
#[derive(Clone, Copy, Debug, PartialEq, Eq, Structural)]
pub enum AnalysisError {
    /// The given path does not resolve to a valid repository.
    RepositoryOpenError,
    /// The repository has no current head to start the traversal from.
    HeadResolutionError,
    /// An identifier reached during the walk cannot be resolved to a commit.
    CommitResolutionError,
    /// A commit's author name or message is absent or unreadable.
    MalformedCommit,
}

impl AnalysisError {
    /// A short diagnostic label for the error, for callers that print one.
    pub fn describe(&self) -> (r: &'static str)
        ensures
            r@ == self.describe_spec(),
    {
        match self {
            AnalysisError::RepositoryOpenError => "could not open repository",
            AnalysisError::HeadResolutionError => "could not resolve repository head",
            AnalysisError::CommitResolutionError => "could not resolve a commit",
            AnalysisError::MalformedCommit => "malformed commit",
        }
    }

    pub open spec fn describe_spec(&self) -> Seq<char> {
        match self {
            AnalysisError::RepositoryOpenError => "could not open repository"@,
            AnalysisError::HeadResolutionError => "could not resolve repository head"@,
            AnalysisError::CommitResolutionError => "could not resolve a commit"@,
            AnalysisError::MalformedCommit => "malformed commit"@,
        }
    }
}

} // verus!
