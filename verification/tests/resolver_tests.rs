use bibcli::resolve_format;

#[test]
fn resolves_every_alias_lowercase() {
    assert_eq!(resolve_format("apa"), Some(String::from("apa")));
    assert_eq!(resolve_format("harvard"), Some(String::from("harvard1")));
    assert_eq!(
        resolve_format("mla"),
        Some(String::from("modern-language-association-with-url"))
    );
    assert_eq!(resolve_format("chicago"), Some(String::from("chicago-author-date")));
    assert_eq!(resolve_format("vancouver"), Some(String::from("vancouver")));
    assert_eq!(resolve_format("nature"), Some(String::from("nature")));
}

#[test]
fn resolves_every_alias_uppercase() {
    assert_eq!(resolve_format("APA"), Some(String::from("apa")));
    assert_eq!(resolve_format("HARVARD"), Some(String::from("harvard1")));
    assert_eq!(
        resolve_format("MLA"),
        Some(String::from("modern-language-association-with-url"))
    );
    assert_eq!(resolve_format("CHICAGO"), Some(String::from("chicago-author-date")));
    assert_eq!(resolve_format("VANCOUVER"), Some(String::from("vancouver")));
    assert_eq!(resolve_format("NATURE"), Some(String::from("nature")));
}

#[test]
fn resolves_mixed_casing() {
    assert_eq!(resolve_format("Apa"), Some(String::from("apa")));
    assert_eq!(resolve_format("Harvard"), Some(String::from("harvard1")));
    assert_eq!(resolve_format("ChIcAgO"), Some(String::from("chicago-author-date")));
    assert_eq!(resolve_format("Nature"), Some(String::from("nature")));
}

#[test]
fn rejects_unknown_format() {
    assert_eq!(resolve_format("klingon"), None);
    assert_eq!(resolve_format(""), None);
    assert_eq!(resolve_format("apa2"), None);
    assert_eq!(resolve_format("harvard1"), None);
    assert_eq!(resolve_format(" apa"), None);
}

#[test]
fn str_eq_compares_exactly() {
    assert!(bibcli::resolver::str_eq("", ""));
    assert!(bibcli::resolver::str_eq("abc", "abc"));
    assert!(!bibcli::resolver::str_eq("abc", "abd"));
    assert!(!bibcli::resolver::str_eq("abc", "abcd"));
}
