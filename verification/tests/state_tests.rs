use conduit_core::state::{git_state_from_outputs, needs_upstream_counts};
use conduit_core::types::CommandOutput;

fn ok(stdout: &str) -> Option<CommandOutput> {
    Some(CommandOutput { success: true, stdout: stdout.as_bytes().to_vec(), stderr: Vec::new() })
}

fn failed() -> Option<CommandOutput> {
    Some(CommandOutput { success: false, stdout: Vec::new(), stderr: b"fatal".to_vec() })
}

#[test]
fn state_of_clean_repository() {
    let s = git_state_from_outputs(
        &ok("main\n"),
        &ok(""),
        &failed(),
        &None,
        &ok("a1\u{1f}initial commit\u{1f}Test\u{1f}now\n"),
        &ok("* main \n"),
        &ok(""),
    )
    .unwrap();
    let branch = s.branch.as_deref().unwrap();
    assert!(branch == "main" || branch == "master");
    assert!(s.changed.is_empty());
    assert_eq!(s.upstream, None);
    assert_eq!(s.ahead, None);
    assert_eq!(s.behind, None);
    assert_eq!(s.recent_commits.len(), 1);
    assert_eq!(s.local_branches.len(), 1);
    assert!(s.remote_branches.is_empty());
}

#[test]
fn state_of_dirty_worktree_with_upstream() {
    let s = git_state_from_outputs(
        &ok("main\n"),
        &ok(" M hello.txt\n"),
        &ok("origin/main\n"),
        &ok("2\t1\n"),
        &None,
        &ok("* main [ahead 2, behind 1]\n  feature-x \n"),
        &ok("origin/HEAD\norigin/main\n"),
    )
    .unwrap();
    assert_eq!(s.changed.len(), 1);
    assert_eq!(s.changed[0].path, "hello.txt");
    assert_eq!(s.upstream.as_deref(), Some("origin/main"));
    assert_eq!((s.ahead, s.behind), (Some(2), Some(1)));
    assert!(s.recent_commits.is_empty());
    let names: Vec<&str> = s.local_branches.iter().map(|b| b.name.as_str()).collect();
    assert!(names.contains(&"feature-x"));
    assert_eq!(s.remote_branches.len(), 1);
}

#[test]
fn state_with_uncuttable_status_line() {
    let s = git_state_from_outputs(&None, &ok("ab\u{20ac}\n"), &None, &None, &None, &None, &None);
    assert!(s.is_none());
}

#[test]
fn counts_only_after_a_named_upstream() {
    assert!(needs_upstream_counts(&ok("origin/main\n")));
    assert!(!needs_upstream_counts(&ok("\n")));
    assert!(!needs_upstream_counts(&failed()));
    assert!(!needs_upstream_counts(&None));
}
