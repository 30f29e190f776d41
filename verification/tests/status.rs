use repo_scan::status::parse_status;

#[test]
fn branch_only_output_is_clean() {
    let s = parse_status("## main...origin/main", Some(0), "repo".to_string());
    assert_eq!(s.branch, "main...origin/main");
    assert_eq!(s.changes, "");
    assert!(s.clean);
    assert_eq!(s.name, "repo");
    assert_eq!(s.command_status, Some(0));
}

#[test]
fn modified_file_marks_dirty() {
    let s = parse_status("## main...origin/main\n M file.txt\n", Some(0), "repo".to_string());
    assert!(!s.clean);
    assert_eq!(s.changes, "M file.txt");
    assert_eq!(s.branch, "main...origin/main");
}

#[test]
fn empty_output_is_clean_with_empty_fields() {
    let s = parse_status("", None, String::new());
    assert_eq!(s.branch, "");
    assert_eq!(s.changes, "");
    assert!(s.clean);
    assert_eq!(s.name, "");
    assert_eq!(s.command_status, None);
}

#[test]
fn all_leading_markers_are_stripped_and_lines_kept() {
    let s = parse_status("##head\n#note\nM a\n?? b\n", Some(1), "r".to_string());
    assert_eq!(s.branch, "head\nnote");
    assert_eq!(s.changes, "M a\n?? b");
    assert!(!s.clean);
    assert_eq!(s.command_status, Some(1));
}

#[test]
fn blank_lines_between_changes_are_kept_inside() {
    let s = parse_status("## b\nM a\n\nM c\n", None, "r".to_string());
    assert_eq!(s.changes, "M a\n\nM c");
    assert!(!s.clean);
}

#[test]
fn unicode_whitespace_is_trimmed_at_ends() {
    let s = parse_status("##\u{00A0}main\u{2009}\nM a\u{3000}\n", Some(0), "r".to_string());
    assert_eq!(s.branch, "main");
    assert_eq!(s.changes, "M a");
}

#[test]
fn carriage_returns_are_trimmed_at_ends() {
    let s = parse_status("## b\r\n", Some(0), "r".to_string());
    assert_eq!(s.branch, "b");
    assert_eq!(s.changes, "");
    assert!(s.clean);
}

#[test]
fn marker_in_mid_line_is_a_change() {
    let s = parse_status("x # y", Some(0), "r".to_string());
    assert_eq!(s.branch, "");
    assert_eq!(s.changes, "x # y");
    assert!(!s.clean);
}
