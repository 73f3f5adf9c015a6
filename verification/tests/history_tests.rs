use conduit_core::commits::{commits_from_output, parse_commit_line, parse_commit_log};
use conduit_core::types::CommandOutput;

#[test]
fn commit_line_fields() {
    let c = parse_commit_line("a1b2c3d\u{1f}second commit\u{1f}Test\u{1f}2 minutes ago").unwrap();
    assert_eq!(c.hash, "a1b2c3d");
    assert_eq!(c.message, "second commit");
    assert_eq!(c.author, "Test");
    assert_eq!(c.date, "2 minutes ago");
}

#[test]
fn commit_line_last_field_keeps_the_rest() {
    let c = parse_commit_line("h\u{1f}m\u{1f}a\u{1f}d\u{1f}more").unwrap();
    assert_eq!(c.date, "d\u{1f}more");
}

#[test]
fn commit_line_with_too_few_fields() {
    assert!(parse_commit_line("h\u{1f}m\u{1f}a").is_none());
    assert!(parse_commit_line("").is_none());
}

#[test]
fn commit_line_fields_are_not_trimmed() {
    let c = parse_commit_line(" h \u{1f} m\u{1f}\u{1f}").unwrap();
    assert_eq!(c.hash, " h ");
    assert_eq!(c.message, " m");
    assert_eq!(c.author, "");
    assert_eq!(c.date, "");
}

#[test]
fn commit_log_lists_commits_in_order() {
    let log = "b\u{1f}second commit\u{1f}Test\u{1f}now\nbroken line\na\u{1f}initial commit\u{1f}Test\u{1f}1 hour ago\n";
    let cs = parse_commit_log(log);
    assert_eq!(cs.len(), 2);
    assert_eq!(cs[0].message, "second commit");
    assert_eq!(cs[1].hash, "a");
    assert!(cs.iter().any(|c| c.message == "initial commit"));
}

#[test]
fn commits_of_failed_command_are_empty() {
    assert!(commits_from_output(&None).is_empty());
    let failed = Some(CommandOutput { success: false, stdout: b"a\x1fb\x1fc\x1fd\n".to_vec(), stderr: Vec::new() });
    assert!(commits_from_output(&failed).is_empty());
    let ok = Some(CommandOutput { success: true, stdout: b"a\x1fb\x1fc\x1fd\n".to_vec(), stderr: Vec::new() });
    assert_eq!(commits_from_output(&ok).len(), 1);
}
