use conduit_core::branches::{
    local_branches_from_output, parse_branch_line, parse_branch_listing, parse_remote_listing,
    parse_track_info, remote_branches_from_output,
};
use conduit_core::types::CommandOutput;

fn ok_output(stdout: &str) -> Option<CommandOutput> {
    Some(CommandOutput { success: true, stdout: stdout.as_bytes().to_vec(), stderr: Vec::new() })
}

#[test]
fn track_info_documented_forms() {
    assert_eq!(parse_track_info("[ahead 3]"), (Some(3), None));
    assert_eq!(parse_track_info("[behind 2]"), (None, Some(2)));
    assert_eq!(parse_track_info("[ahead 1, behind 4]"), (Some(1), Some(4)));
    assert_eq!(parse_track_info("[gone]"), (None, None));
}

#[test]
fn track_info_edge_cases() {
    assert_eq!(parse_track_info(""), (None, None));
    assert_eq!(parse_track_info("   "), (None, None));
    assert_eq!(parse_track_info("[]"), (None, None));
    assert_eq!(parse_track_info("  [[ahead 7]]  "), (Some(7), None));
    assert_eq!(parse_track_info("[ahead x]"), (None, None));
    assert_eq!(parse_track_info("[ahead 5, ahead 9]"), (Some(9), None));
    assert_eq!(parse_track_info("[ahead +6]"), (Some(6), None));
    assert_eq!(parse_track_info("[ahead 4294967296]"), (None, None));
    assert_eq!(parse_track_info("[ahead 4294967295]"), (Some(4294967295), None));
    assert_eq!(parse_track_info("[behind  12 , something]"), (None, Some(12)));
    assert_eq!(parse_track_info("[diverged]"), (None, None));
}

#[test]
fn branch_line_checked_out_with_tracking() {
    let b = parse_branch_line("* main [ahead 1, behind 2]").unwrap();
    assert_eq!(b.name, "main");
    assert!(b.is_head);
    assert_eq!(b.ahead, Some(1));
    assert_eq!(b.behind, Some(2));
}

#[test]
fn branch_line_without_upstream() {
    let b = parse_branch_line("  feature-x ").unwrap();
    assert_eq!(b.name, "feature-x");
    assert!(!b.is_head);
    assert_eq!(b.ahead, None);
    assert_eq!(b.behind, None);
}

#[test]
fn branch_line_blank_or_nameless() {
    assert!(parse_branch_line("").is_none());
    assert!(parse_branch_line("    ").is_none());
    assert!(parse_branch_line("*  [gone]").is_none());
}

#[test]
fn branch_listing_keeps_named_lines() {
    let bs = parse_branch_listing("  feature-x \n* main [behind 3]\n\n");
    assert_eq!(bs.len(), 2);
    assert_eq!(bs[0].name, "feature-x");
    assert_eq!(bs[1].name, "main");
    assert!(bs[1].is_head);
    assert_eq!(bs[1].behind, Some(3));
    let names: Vec<&str> = bs.iter().map(|b| b.name.as_str()).collect();
    assert!(names.contains(&"feature-x"));
}

#[test]
fn local_branches_of_outputs() {
    assert!(local_branches_from_output(&None).unwrap().is_empty());
    let bs = local_branches_from_output(&ok_output("* main \n")).unwrap();
    assert_eq!(bs.len(), 1);
    assert_eq!(bs[0].name, "main");
    // A one-character line cannot be cut after its second byte.
    assert!(local_branches_from_output(&ok_output("x\n")).is_none());
}

#[test]
fn remote_listing_skips_head_and_blank_lines() {
    let rs = parse_remote_listing("origin/HEAD\n  origin/main \n\norigin/dev\n");
    assert_eq!(rs.len(), 2);
    assert_eq!(rs[0].full_name, "origin/main");
    assert_eq!(rs[1].full_name, "origin/dev");
}

#[test]
fn remote_branches_of_outputs() {
    assert!(remote_branches_from_output(&None).is_empty());
    let failed = Some(CommandOutput { success: false, stdout: b"origin/main\n".to_vec(), stderr: Vec::new() });
    assert!(remote_branches_from_output(&failed).is_empty());
    assert_eq!(remote_branches_from_output(&ok_output("origin/main\n")).len(), 1);
}

#[test]
fn track_counts_need_their_words() {
    for info in ["[aheadx 3]", "[ahead3]", "[behind3, gone]", "junk", "[été 5]", "[[[", "]]]"] {
        let (a, b) = parse_track_info(info);
        if a.is_some() {
            assert!(info.contains("ahead "));
        }
        if b.is_some() {
            assert!(info.contains("behind "));
        }
        assert_eq!((a, b), (None, None));
    }
    assert_eq!(parse_track_info("x ahead 2"), (None, None));
    assert_eq!(parse_track_info("[x, ahead 2]"), (Some(2), None));
}

#[test]
fn listed_branch_names_are_clean() {
    let text = "* main [ahead 1]\n\n   \n  topic   \n*  [gone]\n  feature/x[gone]\n";
    let branches = parse_branch_listing(text);
    let non_blank = text.lines().filter(|l| !l.trim().is_empty()).count();
    assert!(branches.len() <= non_blank);
    for b in &branches {
        assert!(!b.name.is_empty());
        assert_eq!(b.name, b.name.trim());
        assert!(!b.name.contains('['));
    }
    let names: Vec<&str> = branches.iter().map(|b| b.name.as_str()).collect();
    assert_eq!(names, vec!["main", "topic", "feature/x"]);
}
