use conduit_core::diff::{diff_start, diff_step, untracked_diff, DiffAction, DiffEvent, DiffStage};
use conduit_core::types::CommandOutput;

fn ran(success: bool, stdout: &str) -> DiffEvent {
    DiffEvent::GitOutput(Some(CommandOutput {
        success,
        stdout: stdout.as_bytes().to_vec(),
        stderr: Vec::new(),
    }))
}

fn done(action: DiffAction) -> String {
    match action {
        DiffAction::Done(t) => t,
        _ => panic!("expected a finished diff"),
    }
}

#[test]
fn untracked_text_file_diff() {
    let d = untracked_diff("new.txt", b"brand new content");
    assert_eq!(
        d,
        "diff --git a/new.txt b/new.txt\nnew file mode 100644\n--- /dev/null\n+++ b/new.txt\n@@ -0,0 +1 @@\n+brand new content\n"
    );
    assert!(d.contains("+brand new content"));
}

#[test]
fn untracked_file_with_several_lines() {
    let d = untracked_diff("f", b"one\r\ntwo\n\nthree");
    assert!(d.ends_with("@@ -0,0 +1 @@\n+one\n+two\n+\n+three\n"));
}

#[test]
fn untracked_empty_file() {
    let d = untracked_diff("e", b"");
    assert_eq!(d, "diff --git a/e b/e\nnew file mode 100644\n--- /dev/null\n+++ b/e\n@@ -0,0 +1 @@\n");
}

#[test]
fn untracked_binary_file() {
    assert_eq!(untracked_diff("img.png", b"\x89PNG\x00\x01"), "Binary file added: img.png\n");
}

#[test]
fn modified_tracked_file_uses_git_diff() {
    let (probe, action) = diff_start("c.txt");
    match action {
        DiffAction::RunGit(a) => assert_eq!(a, vec!["diff", "--", "c.txt"]),
        _ => panic!("expected git diff"),
    }
    let text = "diff --git a/c.txt b/c.txt\n-original\n+modified\n";
    let (probe, action) = diff_step(probe, ran(true, text));
    assert!(matches!(probe.stage, DiffStage::Finished));
    let d = done(action);
    assert!(!d.trim().is_empty());
    assert!(d.contains('+') || d.contains('-'));
}

#[test]
fn clean_committed_file_has_empty_diff() {
    let (probe, _) = diff_start("d.txt");
    let (probe, action) = diff_step(probe, ran(true, ""));
    match action {
        DiffAction::RunGit(a) => assert_eq!(a, vec!["ls-files", "--error-unmatch", "--", "d.txt"]),
        _ => panic!("expected the tracking check"),
    }
    let (_, action) = diff_step(probe, ran(true, "d.txt\n"));
    assert!(done(action).trim().is_empty());
}

#[test]
fn untracked_new_file_is_added_whole() {
    let (probe, _) = diff_start("new.txt");
    let (probe, _) = diff_step(probe, ran(true, "\n"));
    let (probe, action) = diff_step(probe, ran(false, ""));
    assert!(matches!(action, DiffAction::CheckExists));
    let (probe, action) = diff_step(probe, DiffEvent::Exists(true));
    assert!(matches!(action, DiffAction::CheckIsDir));
    let (probe, action) = diff_step(probe, DiffEvent::IsDir(false));
    assert!(matches!(action, DiffAction::ReadFile));
    let (probe, action) = diff_step(probe, DiffEvent::Contents(Some(b"brand new content".to_vec())));
    assert!(matches!(probe.stage, DiffStage::Finished));
    assert!(done(action).contains("+brand new content"));
}

#[test]
fn missing_file_keeps_blank_diff() {
    let (probe, _) = diff_start("gone.txt");
    let (probe, _) = diff_step(probe, ran(true, " \n"));
    let (probe, _) = diff_step(probe, DiffEvent::GitOutput(None));
    let (_, action) = diff_step(probe, DiffEvent::Exists(false));
    assert_eq!(done(action), " \n");
}

#[test]
fn untracked_directory_note() {
    let (probe, _) = diff_start("dir");
    let (probe, _) = diff_step(probe, ran(false, ""));
    let (probe, _) = diff_step(probe, ran(false, ""));
    let (probe, _) = diff_step(probe, DiffEvent::Exists(true));
    let (_, action) = diff_step(probe, DiffEvent::IsDir(true));
    assert_eq!(done(action), "Untracked directory: dir\n(no file-level diff available)\n");
}

#[test]
fn failures_fail_the_diff() {
    let (probe, _) = diff_start("x");
    let (probe, action) = diff_step(probe, DiffEvent::GitOutput(None));
    assert!(matches!(action, DiffAction::Fail));
    assert!(matches!(probe.stage, DiffStage::Finished));

    let (probe, _) = diff_start("x");
    let (probe, _) = diff_step(probe, ran(true, ""));
    let (probe, _) = diff_step(probe, ran(false, ""));
    let (probe, _) = diff_step(probe, DiffEvent::Exists(true));
    let (probe, _) = diff_step(probe, DiffEvent::IsDir(false));
    let (_, action) = diff_step(probe, DiffEvent::Contents(None));
    assert!(matches!(action, DiffAction::Fail));
}
