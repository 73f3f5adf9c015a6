use conduit_core::commands::{commit_diff_text, GitChange, GitQuery};
use conduit_core::types::CommandOutput;

#[test]
fn query_arguments() {
    assert_eq!(GitQuery::CurrentBranch.args(), vec!["rev-parse", "--abbrev-ref", "HEAD"]);
    assert_eq!(GitQuery::Status.args(), vec!["status", "--porcelain=v1"]);
    assert_eq!(
        GitQuery::UpstreamName.args(),
        vec!["rev-parse", "--abbrev-ref", "--symbolic-full-name", "@{upstream}"]
    );
    assert_eq!(
        GitQuery::UpstreamCounts.args(),
        vec!["rev-list", "--left-right", "--count", "HEAD...@{upstream}"]
    );
    assert_eq!(
        GitQuery::RecentCommits(20).args(),
        vec!["log", "-20", "--format=%h\u{1f}%s\u{1f}%an\u{1f}%cr"]
    );
    assert_eq!(GitQuery::RecentCommits(0).args()[1], "-0");
    assert_eq!(GitQuery::RecentCommits(105).args()[1], "-105");
    assert_eq!(
        GitQuery::LocalBranches.args(),
        vec!["for-each-ref", "--format=%(HEAD) %(refname:short) %(upstream:track)", "refs/heads/"]
    );
    assert_eq!(
        GitQuery::RemoteBranches.args(),
        vec!["for-each-ref", "--format=%(refname:short)", "refs/remotes/"]
    );
    assert_eq!(GitQuery::FileDiff("c.txt".to_string()).args(), vec!["diff", "--", "c.txt"]);
    assert_eq!(
        GitQuery::TrackedCheck("c.txt".to_string()).args(),
        vec!["ls-files", "--error-unmatch", "--", "c.txt"]
    );
    assert_eq!(GitQuery::CommitDiff("abc".to_string()).args(), vec!["show", "abc", "--format="]);
}

#[test]
fn change_arguments() {
    assert_eq!(GitChange::StageFile("a.txt".to_string()).args(), vec!["add", "--", "a.txt"]);
    assert_eq!(GitChange::UnstageFile("a.txt".to_string()).args(), vec!["reset", "HEAD", "--", "a.txt"]);
    assert_eq!(GitChange::StageAll.args(), vec!["add", "-A"]);
    assert_eq!(GitChange::UnstageAll.args(), vec!["reset", "HEAD"]);
    assert_eq!(GitChange::CreateBranch("f".to_string()).args(), vec!["checkout", "-b", "f"]);
    assert_eq!(GitChange::CheckoutBranch("f".to_string()).args(), vec!["checkout", "f"]);
    assert_eq!(
        GitChange::CheckoutRemoteBranch("origin/f".to_string(), "f".to_string()).args(),
        vec!["checkout", "-b", "f", "origin/f"]
    );
    assert_eq!(GitChange::Push.args(), vec!["push", "-u", "origin", "HEAD"]);
    assert_eq!(GitChange::Pull.args(), vec!["pull"]);
    assert_eq!(GitChange::Fetch.args(), vec!["fetch"]);
    assert_eq!(GitChange::Commit("second commit".to_string()).args(), vec!["commit", "-m", "second commit"]);
}

#[test]
fn successful_change_is_ok() {
    let out = CommandOutput { success: true, stdout: Vec::new(), stderr: b"warning".to_vec() };
    assert_eq!(GitChange::StageAll.outcome(&out), Ok(()));
}

#[test]
fn failed_change_reports_command_and_error_output() {
    let out = CommandOutput { success: false, stdout: Vec::new(), stderr: b"fatal: nope\n".to_vec() };
    assert_eq!(
        GitChange::StageFile("a".to_string()).outcome(&out),
        Err("git add failed: fatal: nope\n".to_string())
    );
    assert_eq!(GitChange::UnstageFile("a".to_string()).outcome(&out), Err("git reset failed: fatal: nope\n".to_string()));
    assert_eq!(GitChange::StageAll.outcome(&out), Err("git add -A failed: fatal: nope\n".to_string()));
    assert_eq!(GitChange::UnstageAll.outcome(&out), Err("git reset failed: fatal: nope\n".to_string()));
    assert_eq!(GitChange::CreateBranch("b".to_string()).outcome(&out), Err("git checkout -b failed: fatal: nope\n".to_string()));
    assert_eq!(GitChange::CheckoutBranch("b".to_string()).outcome(&out), Err("git checkout failed: fatal: nope\n".to_string()));
    assert_eq!(
        GitChange::CheckoutRemoteBranch("o/b".to_string(), "b".to_string()).outcome(&out),
        Err("git checkout failed: fatal: nope\n".to_string())
    );
    assert_eq!(GitChange::Push.outcome(&out), Err("git push failed: fatal: nope\n".to_string()));
    assert_eq!(GitChange::Pull.outcome(&out), Err("git pull failed: fatal: nope\n".to_string()));
    assert_eq!(GitChange::Fetch.outcome(&out), Err("git fetch failed: fatal: nope\n".to_string()));
    assert_eq!(GitChange::Commit("m".to_string()).outcome(&out), Err("git commit failed: fatal: nope\n".to_string()));
}

#[test]
fn failed_change_with_invalid_utf8_error_output() {
    let out = CommandOutput { success: false, stdout: Vec::new(), stderr: vec![b'x', 0xff] };
    assert_eq!(GitChange::Fetch.outcome(&out), Err("git fetch failed: x\u{fffd}".to_string()));
}

#[test]
fn commit_diff_is_the_output_text() {
    let out = CommandOutput { success: true, stdout: b"diff --git a/x b/x\n".to_vec(), stderr: Vec::new() };
    assert_eq!(commit_diff_text(&out), "diff --git a/x b/x\n");
}
