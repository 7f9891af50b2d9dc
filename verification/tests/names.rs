use bill_split::text::blank;
use bill_split::text::trim;

#[test]
fn trim_takes_whitespace_from_both_ends() {
    assert_eq!(trim("  Ann "), "Ann");
    assert_eq!(trim("Ann"), "Ann");
    assert_eq!(trim("\tAnn Lee\n"), "Ann Lee");
    assert_eq!(trim(""), "");
    assert_eq!(trim("   "), "");
    assert_eq!(trim("\u{2003}Zoë\u{a0}"), "Zoë");
}

#[test]
fn trim_agrees_with_the_standard_library() {
    for s in [" a", "a ", " a b ", "\r\n x \t", "", " ", "é ", " \u{3000}名 "] {
        assert_eq!(trim(s), s.trim());
    }
}

#[test]
fn blank_names_are_recognised() {
    assert!(blank(""));
    assert!(blank(" "));
    assert!(blank(" \t\r\n"));
    assert!(blank("\u{2003}"));
    assert!(!blank("a"));
    assert!(!blank(" a "));
    assert!(!blank("_"));
}
