use kenotex::comment::{
    comment_line, is_commented, should_comment, toggle_comment_line, uncomment_line,
};

#[test]
fn test_is_commented_basic() {
    assert!(is_commented("<!-- hello -->"));
    assert!(is_commented("  <!-- hello -->"));
}

#[test]
fn test_is_commented_no_spaces() {
    assert!(is_commented("<!--hello-->"));
}

#[test]
fn test_is_commented_false() {
    assert!(!is_commented("hello"));
    assert!(!is_commented("<!-- half"));
    assert!(!is_commented("half -->"));
    assert!(!is_commented(""));
}

#[test]
fn test_comment_line_basic() {
    assert_eq!(comment_line("hello"), "<!-- hello -->");
}

#[test]
fn test_comment_line_preserves_indent() {
    assert_eq!(comment_line("    hello"), "    <!-- hello -->");
}

#[test]
fn test_comment_line_empty() {
    assert_eq!(comment_line(""), "");
    assert_eq!(comment_line("   "), "   ");
}

#[test]
fn test_uncomment_line_basic() {
    assert_eq!(uncomment_line("<!-- hello -->"), Some("hello".to_string()));
}

#[test]
fn test_uncomment_line_preserves_indent() {
    assert_eq!(
        uncomment_line("    <!-- hello -->"),
        Some("    hello".to_string())
    );
}

#[test]
fn test_uncomment_line_no_spaces() {
    assert_eq!(uncomment_line("<!--hello-->"), Some("hello".to_string()));
}

#[test]
fn test_uncomment_line_not_commented() {
    assert_eq!(uncomment_line("hello"), None);
}

#[test]
fn test_toggle_comment_comments() {
    assert_eq!(toggle_comment_line("hello"), "<!-- hello -->");
}

#[test]
fn test_toggle_comment_uncomments() {
    assert_eq!(toggle_comment_line("<!-- hello -->"), "hello");
}

#[test]
fn test_toggle_comment_empty() {
    assert_eq!(toggle_comment_line(""), "");
}

#[test]
fn test_toggle_comment_indented_roundtrip() {
    let original = "    some text";
    let commented = toggle_comment_line(original);
    assert_eq!(commented, "    <!-- some text -->");
    let uncommented = toggle_comment_line(&commented);
    assert_eq!(uncommented, original);
}

#[test]
fn test_should_comment_all_uncommented() {
    let lines = vec!["hello".to_string(), "world".to_string()];
    assert!(should_comment(&lines));
}

#[test]
fn test_should_comment_all_commented() {
    let lines = vec!["<!-- hello -->".to_string(), "<!-- world -->".to_string()];
    assert!(!should_comment(&lines));
}

#[test]
fn test_should_comment_mixed() {
    let lines = vec!["<!-- hello -->".to_string(), "world".to_string()];
    assert!(should_comment(&lines));
}

#[test]
fn test_should_comment_with_empty_lines() {
    let lines = vec![
        "<!-- hello -->".to_string(),
        "".to_string(),
        "<!-- world -->".to_string(),
    ];
    assert!(!should_comment(&lines));
}

#[test]
fn test_should_comment_all_empty() {
    let lines = vec!["".to_string(), "  ".to_string()];
    assert!(!should_comment(&lines));
}
