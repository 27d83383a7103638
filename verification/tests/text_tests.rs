use moxnode::text::{decimal_string, str_contains, truncate};

#[test]
fn truncate_cuts_and_marks() {
    assert_eq!(truncate("hello world", 5), "hello…");
    assert_eq!(truncate("hi", 5), "hi");
    assert_eq!(truncate("exact", 5), "exact");
    assert_eq!(truncate("héllo wörld", 7), "héllo w…");
}

#[test]
fn decimal_rendering() {
    assert_eq!(decimal_string(0), "0");
    assert_eq!(decimal_string(7), "7");
    assert_eq!(decimal_string(1234567890), "1234567890");
    assert_eq!(decimal_string(u64::MAX), "18446744073709551615");
}

#[test]
fn substring_test() {
    assert!(str_contains("thinks 404 errors are existential", "404"));
    assert!(str_contains("anything", ""));
    assert!(!str_contains("stack", "stack trace"));
}
