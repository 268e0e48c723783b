use kenotex::list_prefix::{
    detect_list_prefix, has_checkbox_prefix, insert_checkbox_prefix, is_prefix_only,
    toggle_checkbox_prefix,
};

#[test]
fn test_detect_checkbox_unchecked() {
    let p = detect_list_prefix("- [ ] buy milk").unwrap();
    assert_eq!(p.indent, "");
    assert_eq!(p.continuation, "- [ ] ");
}

#[test]
fn test_detect_checkbox_checked_x() {
    let p = detect_list_prefix("- [x] done task").unwrap();
    assert_eq!(p.continuation, "- [ ] ");
}

#[test]
fn test_detect_checkbox_checked_upper_x() {
    let p = detect_list_prefix("- [X] done").unwrap();
    assert_eq!(p.continuation, "- [ ] ");
}

#[test]
fn test_detect_unordered_dash() {
    let p = detect_list_prefix("- some item").unwrap();
    assert_eq!(p.continuation, "- ");
}

#[test]
fn test_detect_ordered_dot() {
    let p = detect_list_prefix("1. first item").unwrap();
    assert_eq!(p.continuation, "2. ");
}

#[test]
fn test_detect_ordered_paren() {
    let p = detect_list_prefix("3) third item").unwrap();
    assert_eq!(p.continuation, "4) ");
}

#[test]
fn test_detect_indented_checkbox() {
    let p = detect_list_prefix("    - [ ] indented").unwrap();
    assert_eq!(p.indent, "    ");
    assert_eq!(p.continuation, "- [ ] ");
}

#[test]
fn test_detect_no_prefix() {
    assert!(detect_list_prefix("just some text").is_none());
    assert!(detect_list_prefix("").is_none());
}

#[test]
fn test_prefix_only_checkbox() {
    assert!(is_prefix_only("- [ ] "));
    assert!(is_prefix_only("- [x] "));
    assert!(is_prefix_only("  - [ ] "));
}

#[test]
fn test_prefix_only_dash() {
    assert!(is_prefix_only("- "));
    assert!(is_prefix_only("  - "));
}

#[test]
fn test_prefix_only_ordered() {
    assert!(is_prefix_only("1. "));
    assert!(is_prefix_only("2) "));
}

#[test]
fn test_not_prefix_only() {
    assert!(!is_prefix_only("- [ ] task"));
    assert!(!is_prefix_only("- item"));
    assert!(!is_prefix_only("1. first"));
}

#[test]
fn test_has_checkbox_true() {
    assert!(has_checkbox_prefix("- [ ] something"));
    assert!(has_checkbox_prefix("- [x] done"));
    assert!(has_checkbox_prefix("  - [X] done"));
}

#[test]
fn test_has_checkbox_false() {
    assert!(!has_checkbox_prefix("- item"));
    assert!(!has_checkbox_prefix("1. first"));
    assert!(!has_checkbox_prefix("plain text"));
}

#[test]
fn test_insert_checkbox_on_plain() {
    assert_eq!(
        insert_checkbox_prefix("buy milk"),
        Some("- [ ] buy milk".to_string())
    );
}

#[test]
fn test_insert_checkbox_preserves_indent() {
    assert_eq!(
        insert_checkbox_prefix("    indented"),
        Some("    - [ ] indented".to_string())
    );
}

#[test]
fn list_prefix_test_insert_checkbox_already_exists() {
    assert_eq!(insert_checkbox_prefix("- [ ] already"), None);
    assert_eq!(insert_checkbox_prefix("- [x] done"), None);
}

#[test]
fn test_insert_checkbox_on_empty() {
    assert_eq!(insert_checkbox_prefix(""), Some("- [ ] ".to_string()));
}

#[test]
fn list_prefix_test_toggle_checkbox_check() {
    assert_eq!(
        toggle_checkbox_prefix("- [ ] buy milk"),
        Some("- [x] buy milk".to_string())
    );
}

#[test]
fn test_toggle_checkbox_uncheck_lower() {
    assert_eq!(
        toggle_checkbox_prefix("- [x] done task"),
        Some("- [ ] done task".to_string())
    );
}

#[test]
fn test_toggle_checkbox_uncheck_upper() {
    assert_eq!(
        toggle_checkbox_prefix("- [X] done"),
        Some("- [ ] done".to_string())
    );
}

#[test]
fn test_toggle_checkbox_preserves_indent() {
    assert_eq!(
        toggle_checkbox_prefix("    - [ ] indented"),
        Some("    - [x] indented".to_string())
    );
    assert_eq!(
        toggle_checkbox_prefix("    - [x] indented"),
        Some("    - [ ] indented".to_string())
    );
}

#[test]
fn test_toggle_checkbox_bare() {
    assert_eq!(toggle_checkbox_prefix("- [ ]"), Some("- [x]".to_string()));
    assert_eq!(toggle_checkbox_prefix("- [x]"), Some("- [ ]".to_string()));
}

#[test]
fn list_prefix_test_toggle_checkbox_no_checkbox() {
    assert_eq!(toggle_checkbox_prefix("- plain item"), None);
    assert_eq!(toggle_checkbox_prefix("just text"), None);
    assert_eq!(toggle_checkbox_prefix(""), None);
}
