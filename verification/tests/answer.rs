use delfaf::answer::is_yes;

#[test]
fn confirm_yes_is_only_y() {
    assert!(is_yes("y"));
    assert!(is_yes("Y"));
    assert!(is_yes(" y\n"));
    assert!(!is_yes(""));
    assert!(!is_yes("\n"));
    assert!(!is_yes("n"));
    assert!(!is_yes("N"));
    assert!(!is_yes("yes"));
    assert!(!is_yes("no"));
}

#[test]
fn yes_with_unicode_white_space() {
    assert!(is_yes("\u{3000}y\u{a0}"));
    assert!(is_yes("\t\r\nY\r\n"));
    assert!(!is_yes("y y"));
    assert!(!is_yes("\u{200b}y"));
}
