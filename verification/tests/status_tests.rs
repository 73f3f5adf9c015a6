use conduit_core::status::{changed_files_from_output, parse_porcelain_line, parse_status_text};
use conduit_core::types::CommandOutput;

fn ok_output(stdout: &str) -> Option<CommandOutput> {
    Some(CommandOutput { success: true, stdout: stdout.as_bytes().to_vec(), stderr: Vec::new() })
}

#[test]
fn porcelain_modified_in_worktree() {
    let f = parse_porcelain_line(" M hello.txt").unwrap();
    assert_eq!(f.path, "hello.txt");
    assert_eq!(f.index_status, ' ');
    assert_eq!(f.worktree_status, 'M');
}

#[test]
fn porcelain_staged_and_untracked() {
    let staged = parse_porcelain_line("M  a.txt").unwrap();
    assert_eq!(staged.index_status, 'M');
    assert_eq!(staged.worktree_status, ' ');
    assert_eq!(staged.path, "a.txt");
    let untracked = parse_porcelain_line("?? new.txt").unwrap();
    assert_eq!(untracked.index_status, '?');
    assert_eq!(untracked.worktree_status, '?');
    assert_eq!(untracked.path, "new.txt");
}

#[test]
fn porcelain_path_is_trimmed() {
    let f = parse_porcelain_line("A    spaced name.txt  ").unwrap();
    assert_eq!(f.path, "spaced name.txt");
    assert_eq!(f.index_status, 'A');
}

#[test]
fn porcelain_short_or_empty_lines_give_nothing() {
    assert!(parse_porcelain_line("").is_none());
    assert!(parse_porcelain_line("M").is_none());
    assert!(parse_porcelain_line("MM").is_none());
    assert!(parse_porcelain_line("MM ").is_none());
    assert!(parse_porcelain_line("MM    ").is_none());
}

#[test]
fn porcelain_non_ascii_status_byte() {
    // The status codes are the first two bytes, each taken as a character.
    let f = parse_porcelain_line("é a").unwrap();
    assert_eq!(f.index_status, '\u{c3}');
    assert_eq!(f.worktree_status, '\u{a9}');
    assert_eq!(f.path, "a");
}

#[test]
fn status_text_lists_each_changed_file() {
    let files = parse_status_text(" M hello.txt\r\nA  b.txt\n?? c d.txt\n\n");
    assert_eq!(files.len(), 3);
    assert_eq!(files[0].path, "hello.txt");
    assert_eq!(files[1].path, "b.txt");
    assert_eq!(files[1].index_status, 'A');
    assert_eq!(files[2].path, "c d.txt");
}

#[test]
fn status_of_clean_tree_is_empty() {
    assert!(parse_status_text("").is_empty());
    let files = changed_files_from_output(&ok_output("")).unwrap();
    assert!(files.is_empty());
}

#[test]
fn status_of_failed_or_missing_command_is_empty() {
    assert!(changed_files_from_output(&None).unwrap().is_empty());
    let failed = Some(CommandOutput { success: false, stdout: b" M x\n".to_vec(), stderr: Vec::new() });
    assert!(changed_files_from_output(&failed).unwrap().is_empty());
}

#[test]
fn status_output_is_parsed() {
    let files = changed_files_from_output(&ok_output(" M hello.txt\n")).unwrap();
    assert_eq!(files.len(), 1);
    assert_eq!(files[0].path, "hello.txt");
    assert_eq!(files[0].worktree_status, 'M');
}

#[test]
fn status_output_with_uncuttable_line_is_refused() {
    // "ab€x": the third byte is inside the euro sign.
    assert!(changed_files_from_output(&ok_output("ab\u{20ac}x\n")).is_none());
}
