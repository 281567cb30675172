use vstd::prelude::*;

verus! {

/// A read-only view of one historical commit, as plain values. The traversal
/// source fills one of these per commit; analyzers only borrow it for the
/// duration of one ingestion call.
///
/// `author_name` and `message` are `None` when the underlying record's field
/// is absent or unreadable; ingestion treats such a commit as malformed.
pub struct CommitRecord {
    /// Unique identifier of the commit (for instance, its hash rendered as
    /// hexadecimal text).
    pub id: String,
    /// Name of the author, if readable.
    pub author_name: Option<String>,
    /// When the change was authored, in seconds since the epoch.
    pub author_time: i64,
    /// When the change was recorded/committed, in seconds since the epoch.
    pub committer_time: i64,
    /// The commit message, if readable.
    pub message: Option<String>,
}

/// The mathematical model of a commit record.
pub struct CommitView {
    pub id: Seq<char>,
    pub author_name: Option<Seq<char>>,
    pub author_time: int,
    pub committer_time: int,
    pub message: Option<Seq<char>>,
}

impl View for CommitRecord {
    type V = CommitView;

    open spec fn view(&self) -> CommitView {
        CommitView {
            id: self.id@,
            author_name: match self.author_name {
                Some(ref s) => Some(s@),
                None => None,
            },
            author_time: self.author_time as int,
            committer_time: self.committer_time as int,
            message: match self.message {
                Some(ref s) => Some(s@),
                None => None,
            },
        }
    }
}

/// A commit is well-formed when every field an analyzer may require is
/// present: the author name and the message are readable.
pub open spec fn wf_commit(c: CommitView) -> bool {
    c.author_name is Some && c.message is Some
}

/// The author name of a well-formed commit.
pub open spec fn author_of(c: CommitView) -> Seq<char>
    recommends
        wf_commit(c),
{
    c.author_name->Some_0
}

/// The message of a well-formed commit.
pub open spec fn message_of(c: CommitView) -> Seq<char>
    recommends
        wf_commit(c),
{
    c.message->Some_0
}

/// The gap, in seconds, between when the commit was recorded and when it was
/// authored.
pub open spec fn gap_of(c: CommitView) -> int {
    c.committer_time - c.author_time
}

} // verus!
