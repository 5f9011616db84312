use eth2fuzz::coverage::branch_coverage_digits;

#[test]
fn coverage_reads_digits() {
    assert_eq!(branch_coverage_digits("x\nbranch_coverage_percent: 42\n"), Some("42".to_string()));
}

#[test]
fn coverage_uses_last_mentioning_line() {
    let log = "branch_coverage_percent: 10\nfoo\nbranch_coverage_percent:\t7 more\nend\n";
    assert_eq!(branch_coverage_digits(log), Some("7".to_string()));
}

#[test]
fn coverage_last_line_without_digits_gives_none() {
    let log = "branch_coverage_percent: 10\nbranch_coverage_percent: n/a\n";
    assert_eq!(branch_coverage_digits(log), None);
}

#[test]
fn coverage_leftmost_match_in_line() {
    assert_eq!(
        branch_coverage_digits("branch_coverage_percent: x branch_coverage_percent: 55"),
        Some("55".to_string())
    );
    assert_eq!(
        branch_coverage_digits("a branch_coverage_percent: 3 b branch_coverage_percent: 4"),
        Some("3".to_string())
    );
}

#[test]
fn coverage_unicode_space_and_crlf() {
    assert_eq!(branch_coverage_digits("branch_coverage_percent:\u{a0}12"), Some("12".to_string()));
    assert_eq!(branch_coverage_digits("branch_coverage_percent: 9\r\n"), Some("9".to_string()));
    assert_eq!(branch_coverage_digits("branch_coverage_percent:99%"), Some("99".to_string()));
}

#[test]
fn coverage_absent() {
    assert_eq!(branch_coverage_digits(""), None);
    assert_eq!(branch_coverage_digits("coverage 40"), None);
    assert_eq!(branch_coverage_digits("branch_coverage_percent"), None);
}

#[test]
fn coverage_last_mention_without_colon_gives_none() {
    let log = "branch_coverage_percent: 10\nsummary branch_coverage_percent 12\n";
    assert_eq!(branch_coverage_digits(log), None);
}
