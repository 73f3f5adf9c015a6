//! The `git` commands that the workspace runs, and what a failed change
//! reports.
use vstd::prelude::*;

use crate::text::{decimal, decimal_of, decode_lossy, string_of, utf8_lossy};
use crate::types::{views_of, CommandOutput};

verus! {

/// A command that reads the state of the repository.
pub enum GitQuery {
    /// The short name of the checked-out branch.
    CurrentBranch,
    /// The changed files, in porcelain format.
    Status,
    /// The short name of the checked-out branch's upstream.
    UpstreamName,
    /// How many commits the branch and its upstream each have that the other has not.
    UpstreamCounts,
    /// The given number of most recent commits.
    RecentCommits(usize),
    /// The local branches with their tracking information.
    LocalBranches,
    /// The remote-tracking branches.
    RemoteBranches,
    /// The unstaged changes of a file.
    FileDiff(String),
    /// Whether git tracks a file (exits with failure when it does not).
    TrackedCheck(String),
    /// The changes that a commit made.
    CommitDiff(String),
}

/// A command that changes the repository.
pub enum GitChange {
    StageFile(String),
    UnstageFile(String),
    StageAll,
    UnstageAll,
    CreateBranch(String),
    CheckoutBranch(String),
    /// Creates the local branch (second) from the remote-tracking one (first).
    CheckoutRemoteBranch(String, String),
    Push,
    Pull,
    Fetch,
    Commit(String),
}

/// The `--format` argument of the log command: hash, subject, author and
/// relative date, separated by the unit separator.
pub open spec fn log_format_arg() -> Seq<char> {
    "--format=%h\u{1f}%s\u{1f}%an\u{1f}%cr"@
}

/// The arguments given to `git` for a query.
pub open spec fn query_args(q: GitQuery) -> Seq<Seq<char>> {
    match q {
        GitQuery::CurrentBranch => seq!["rev-parse"@, "--abbrev-ref"@, "HEAD"@],
        GitQuery::Status => seq!["status"@, "--porcelain=v1"@],
        GitQuery::UpstreamName => seq![
            "rev-parse"@,
            "--abbrev-ref"@,
            "--symbolic-full-name"@,
            "@{upstream}"@,
        ],
        GitQuery::UpstreamCounts => seq![
            "rev-list"@,
            "--left-right"@,
            "--count"@,
            "HEAD...@{upstream}"@,
        ],
        GitQuery::RecentCommits(n) => seq![
            "log"@,
            seq!['-'] + decimal_of(n as nat),
            log_format_arg(),
        ],
        GitQuery::LocalBranches => seq![
            "for-each-ref"@,
            "--format=%(HEAD) %(refname:short) %(upstream:track)"@,
            "refs/heads/"@,
        ],
        GitQuery::RemoteBranches => seq![
            "for-each-ref"@,
            "--format=%(refname:short)"@,
            "refs/remotes/"@,
        ],
        GitQuery::FileDiff(f) => seq!["diff"@, "--"@, f@],
        GitQuery::TrackedCheck(f) => seq!["ls-files"@, "--error-unmatch"@, "--"@, f@],
        GitQuery::CommitDiff(h) => seq!["show"@, h@, "--format="@],
    }
}

/// The arguments given to `git` for a change.
pub open spec fn change_args(c: GitChange) -> Seq<Seq<char>> {
    match c {
        GitChange::StageFile(f) => seq!["add"@, "--"@, f@],
        GitChange::UnstageFile(f) => seq!["reset"@, "HEAD"@, "--"@, f@],
        GitChange::StageAll => seq!["add"@, "-A"@],
        GitChange::UnstageAll => seq!["reset"@, "HEAD"@],
        GitChange::CreateBranch(b) => seq!["checkout"@, "-b"@, b@],
        GitChange::CheckoutBranch(b) => seq!["checkout"@, b@],
        GitChange::CheckoutRemoteBranch(remote, local) => seq![
            "checkout"@,
            "-b"@,
            local@,
            remote@,
        ],
        GitChange::Push => seq!["push"@, "-u"@, "origin"@, "HEAD"@],
        GitChange::Pull => seq!["pull"@],
        GitChange::Fetch => seq!["fetch"@],
        GitChange::Commit(m) => seq!["commit"@, "-m"@, m@],
    }
}

/// What a failed change reports before the command's error output.
pub open spec fn failure_prefix(c: GitChange) -> Seq<char> {
    match c {
        GitChange::StageFile(_) => "git add failed: "@,
        GitChange::UnstageFile(_) => "git reset failed: "@,
        GitChange::StageAll => "git add -A failed: "@,
        GitChange::UnstageAll => "git reset failed: "@,
        GitChange::CreateBranch(_) => "git checkout -b failed: "@,
        GitChange::CheckoutBranch(_) => "git checkout failed: "@,
        GitChange::CheckoutRemoteBranch(_, _) => "git checkout failed: "@,
        GitChange::Push => "git push failed: "@,
        GitChange::Pull => "git pull failed: "@,
        GitChange::Fetch => "git fetch failed: "@,
        GitChange::Commit(_) => "git commit failed: "@,
    }
}

fn owned(s: &str) -> (r: String)
    ensures
        r@ == s@,
{
    s.to_owned()
}

impl GitQuery {
    pub fn args(&self) -> (r: Vec<String>)
        ensures
            views_of(r@) == query_args(*self),
    {
        let mut r: Vec<String> = Vec::new();
        match self {
            GitQuery::CurrentBranch => {
                r.push(owned("rev-parse"));
                r.push(owned("--abbrev-ref"));
                r.push(owned("HEAD"));
            },
            GitQuery::Status => {
                r.push(owned("status"));
                r.push(owned("--porcelain=v1"));
            },
            GitQuery::UpstreamName => {
                r.push(owned("rev-parse"));
                r.push(owned("--abbrev-ref"));
                r.push(owned("--symbolic-full-name"));
                r.push(owned("@{upstream}"));
            },
            GitQuery::UpstreamCounts => {
                r.push(owned("rev-list"));
                r.push(owned("--left-right"));
                r.push(owned("--count"));
                r.push(owned("HEAD...@{upstream}"));
            },
            GitQuery::RecentCommits(n) => {
                r.push(owned("log"));
                let mut count = vec!['-'];
                let mut digits = decimal(*n as u64);
                count.append(&mut digits);
                assert(count@ =~= seq!['-'] + decimal_of(*n as nat));
                r.push(string_of(count.as_slice()));
                r.push(owned("--format=%h\u{1f}%s\u{1f}%an\u{1f}%cr"));
            },
            GitQuery::LocalBranches => {
                r.push(owned("for-each-ref"));
                r.push(owned("--format=%(HEAD) %(refname:short) %(upstream:track)"));
                r.push(owned("refs/heads/"));
            },
            GitQuery::RemoteBranches => {
                r.push(owned("for-each-ref"));
                r.push(owned("--format=%(refname:short)"));
                r.push(owned("refs/remotes/"));
            },
            GitQuery::FileDiff(f) => {
                r.push(owned("diff"));
                r.push(owned("--"));
                r.push(f.clone());
            },
            GitQuery::TrackedCheck(f) => {
                r.push(owned("ls-files"));
                r.push(owned("--error-unmatch"));
                r.push(owned("--"));
                r.push(f.clone());
            },
            GitQuery::CommitDiff(h) => {
                r.push(owned("show"));
                r.push(h.clone());
                r.push(owned("--format="));
            },
        }
        assert(views_of(r@) =~= query_args(*self));
        r
    }
}

impl GitChange {
    pub fn args(&self) -> (r: Vec<String>)
        ensures
            views_of(r@) == change_args(*self),
    {
        let mut r: Vec<String> = Vec::new();
        match self {
            GitChange::StageFile(f) => {
                r.push(owned("add"));
                r.push(owned("--"));
                r.push(f.clone());
            },
            GitChange::UnstageFile(f) => {
                r.push(owned("reset"));
                r.push(owned("HEAD"));
                r.push(owned("--"));
                r.push(f.clone());
            },
            GitChange::StageAll => {
                r.push(owned("add"));
                r.push(owned("-A"));
            },
            GitChange::UnstageAll => {
                r.push(owned("reset"));
                r.push(owned("HEAD"));
            },
            GitChange::CreateBranch(b) => {
                r.push(owned("checkout"));
                r.push(owned("-b"));
                r.push(b.clone());
            },
            GitChange::CheckoutBranch(b) => {
                r.push(owned("checkout"));
                r.push(b.clone());
            },
            GitChange::CheckoutRemoteBranch(remote, local) => {
                r.push(owned("checkout"));
                r.push(owned("-b"));
                r.push(local.clone());
                r.push(remote.clone());
            },
            GitChange::Push => {
                r.push(owned("push"));
                r.push(owned("-u"));
                r.push(owned("origin"));
                r.push(owned("HEAD"));
            },
            GitChange::Pull => {
                r.push(owned("pull"));
            },
            GitChange::Fetch => {
                r.push(owned("fetch"));
            },
            GitChange::Commit(m) => {
                r.push(owned("commit"));
                r.push(owned("-m"));
                r.push(m.clone());
            },
        }
        assert(views_of(r@) =~= change_args(*self));
        r
    }

    fn failure_prefix(&self) -> (r: String)
        ensures
            r@ == failure_prefix(*self),
    {
        match self {
            GitChange::StageFile(_) => owned("git add failed: "),
            GitChange::UnstageFile(_) => owned("git reset failed: "),
            GitChange::StageAll => owned("git add -A failed: "),
            GitChange::UnstageAll => owned("git reset failed: "),
            GitChange::CreateBranch(_) => owned("git checkout -b failed: "),
            GitChange::CheckoutBranch(_) => owned("git checkout failed: "),
            GitChange::CheckoutRemoteBranch(_, _) => owned("git checkout failed: "),
            GitChange::Push => owned("git push failed: "),
            GitChange::Pull => owned("git pull failed: "),
            GitChange::Fetch => owned("git fetch failed: "),
            GitChange::Commit(_) => owned("git commit failed: "),
        }
    }

    /// What the change comes to once its command has finished: nothing when
    /// it succeeded, else a message that names the command and carries its
    /// error output.
    pub fn outcome(&self, out: &CommandOutput) -> (r: Result<(), String>)
        ensures
            out.success ==> r is Ok,
            !out.success ==> (r matches Err(m) && m@ == failure_prefix(*self) + utf8_lossy(
                out.stderr@,
            )),
    {
        if out.success {
            Ok(())
        } else {
            let mut m = self.failure_prefix();
            let detail = decode_lossy(out.stderr.as_slice());
            m.append(detail.as_str());
            Err(m)
        }
    }
}

/// The changes of a commit, as the output of `git show` gives them.
pub fn commit_diff_text(out: &CommandOutput) -> (r: String)
    ensures
        r@ == utf8_lossy(out.stdout@),
{
    decode_lossy(out.stdout.as_slice())
}

} // verus!
