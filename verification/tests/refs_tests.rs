use conduit_core::refs::{counts_from_output, ref_name_from_output};
use conduit_core::types::CommandOutput;

fn out(success: bool, stdout: &[u8]) -> Option<CommandOutput> {
    Some(CommandOutput { success, stdout: stdout.to_vec(), stderr: Vec::new() })
}

#[test]
fn branch_name_is_trimmed_output() {
    assert_eq!(ref_name_from_output(&out(true, b"main\n")), Some("main".to_string()));
    assert_eq!(ref_name_from_output(&out(true, b"  origin/main \n")), Some("origin/main".to_string()));
}

#[test]
fn branch_name_missing() {
    assert_eq!(ref_name_from_output(&out(true, b"  \n")), None);
    assert_eq!(ref_name_from_output(&out(false, b"main\n")), None);
    assert_eq!(ref_name_from_output(&None), None);
}

#[test]
fn branch_name_of_invalid_utf8() {
    assert_eq!(ref_name_from_output(&out(true, b"ma\xffin\n")), Some("ma\u{fffd}in".to_string()));
}

#[test]
fn ahead_behind_counts() {
    assert_eq!(counts_from_output(&out(true, b"3\t5\n")), (Some(3), Some(5)));
    assert_eq!(counts_from_output(&out(true, b"0\t0\n")), (Some(0), Some(0)));
}

#[test]
fn ahead_behind_counts_defaults() {
    assert_eq!(counts_from_output(&out(true, b"x\t5\n")), (Some(0), Some(5)));
    assert_eq!(counts_from_output(&out(true, b"7\n")), (Some(0), Some(0)));
    assert_eq!(counts_from_output(&out(true, b"1\t2\t3\n")), (Some(0), Some(0)));
    assert_eq!(counts_from_output(&out(false, b"1\t2\n")), (None, None));
    assert_eq!(counts_from_output(&None), (None, None));
}
