use yumchat::markdown::extract_code_language;
use yumchat::markdown::is_code_fence;
use yumchat::markdown::is_table_row;
use yumchat::markdown::is_table_separator;

#[test]
fn test_is_code_fence() {
    assert!(is_code_fence("```"));
    assert!(is_code_fence("```python"));
    assert!(is_code_fence("```rust"));
    assert!(!is_code_fence("code"));
}

#[test]
fn test_extract_code_language() {
    assert_eq!(extract_code_language("```python"), Some("python".to_string()));
    assert_eq!(extract_code_language("```rust"), Some("rust".to_string()));
    assert_eq!(extract_code_language("```"), None);
}

#[test]
fn test_is_table_row() {
    assert!(is_table_row("| Col1 | Col2 |"));
    assert!(is_table_row("|A|B|C|"));
    assert!(!is_table_row("Not a table"));
    assert!(!is_table_row("| Only one pipe"));
}

#[test]
fn test_is_table_separator() {
    assert!(is_table_separator("|---|---|"));
    assert!(is_table_separator("| --- | --- |"));
    assert!(is_table_separator("|:---|---:|"));
    assert!(!is_table_separator("| Col1 | Col2 |"));
}

#[test]
fn test_is_table_predicates_on_empty_line() {
    assert!(!is_table_row(""));
    assert!(!is_table_separator("   "));
    assert!(!is_code_fence("``"));
}
