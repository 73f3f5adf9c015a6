//! The values that describe a workspace's git state, and the output of a
//! finished command.
use vstd::prelude::*;

verus! {

/// A file with uncommitted changes, as `git status --porcelain=v1` lists it.
#[derive(Clone, Debug, PartialEq, Eq)]
pub struct ChangedFile {
    pub path: String,
    /// Status of the file in the index (`X` of the porcelain format).
    pub index_status: char,
    /// Status of the file in the work tree (`Y` of the porcelain format).
    pub worktree_status: char,
}

pub struct ChangedFileView {
    pub path: Seq<char>,
    pub index_status: char,
    pub worktree_status: char,
}

impl View for ChangedFile {
    type V = ChangedFileView;

    open spec fn view(&self) -> ChangedFileView {
        ChangedFileView {
            path: self.path@,
            index_status: self.index_status,
            worktree_status: self.worktree_status,
        }
    }
}

/// A commit of the recent history.
#[derive(Clone, Debug, PartialEq, Eq)]
pub struct CommitInfo {
    /// Abbreviated hash.
    pub hash: String,
    /// Subject line.
    pub message: String,
    pub author: String,
    /// Relative commit date, such as "2 days ago".
    pub date: String,
}

pub struct CommitInfoView {
    pub hash: Seq<char>,
    pub message: Seq<char>,
    pub author: Seq<char>,
    pub date: Seq<char>,
}

impl View for CommitInfo {
    type V = CommitInfoView;

    open spec fn view(&self) -> CommitInfoView {
        CommitInfoView {
            hash: self.hash@,
            message: self.message@,
            author: self.author@,
            date: self.date@,
        }
    }
}

/// A local branch, with how far it is ahead of and behind its upstream.
#[derive(Clone, Debug, PartialEq, Eq)]
pub struct BranchInfo {
    pub name: String,
    /// The branch is the one checked out.
    pub is_head: bool,
    pub ahead: Option<u32>,
    pub behind: Option<u32>,
}

pub struct BranchInfoView {
    pub name: Seq<char>,
    pub is_head: bool,
    pub ahead: Option<u32>,
    pub behind: Option<u32>,
}

impl View for BranchInfo {
    type V = BranchInfoView;

    open spec fn view(&self) -> BranchInfoView {
        BranchInfoView {
            name: self.name@,
            is_head: self.is_head,
            ahead: self.ahead,
            behind: self.behind,
        }
    }
}

/// A remote-tracking branch, such as `origin/main`.
#[derive(Clone, Debug, PartialEq, Eq)]
pub struct RemoteBranchInfo {
    pub full_name: String,
}

impl View for RemoteBranchInfo {
    type V = Seq<char>;

    open spec fn view(&self) -> Seq<char> {
        self.full_name@
    }
}

/// Everything that a refresh learns of a workspace's repository.
#[derive(Clone, Debug, PartialEq, Eq)]
pub struct GitState {
    /// The checked-out branch.
    pub branch: Option<String>,
    /// The upstream of the checked-out branch.
    pub upstream: Option<String>,
    /// Commits on the branch that its upstream does not have.
    pub ahead: Option<u32>,
    /// Commits on the upstream that the branch does not have.
    pub behind: Option<u32>,
    pub changed: Vec<ChangedFile>,
    pub recent_commits: Vec<CommitInfo>,
    pub local_branches: Vec<BranchInfo>,
    pub remote_branches: Vec<RemoteBranchInfo>,
}

/// What a finished `git` command left: whether it exited successfully, and
/// the bytes it wrote.
#[derive(Clone, Debug, PartialEq, Eq)]
pub struct CommandOutput {
    pub success: bool,
    pub stdout: Vec<u8>,
    pub stderr: Vec<u8>,
}

/// The views of a sequence of values.
pub open spec fn views_of<T: View>(v: Seq<T>) -> Seq<T::V> {
    v.map_values(|x: T| x@)
}

pub proof fn lemma_views_of_push<T: View>(v: Seq<T>, x: T)
    ensures
        views_of(v.push(x)) =~= views_of(v).push(x@),
{
}

} // verus!
