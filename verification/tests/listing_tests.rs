use raur::installed::{is_debug_name, is_debug_package, parse_installed};
use raur::prompt::{parse_answer, refuses_root, root_refused};
use raur::text::white_space;

#[test]
fn debug_packages() {
    assert!(is_debug_package("foo-debug"));
    assert!(is_debug_package("foo-dbg"));
    assert!(is_debug_package("foo-dbgsym"));
    assert!(is_debug_package("foo-debuginfo"));
    assert!(is_debug_package("Foo-DEBUG"));
    assert!(is_debug_package("-Dbg"));
    assert!(!is_debug_package("foo-debugger"));
    assert!(!is_debug_package("debug"));
    assert!(!is_debug_package("foo"));
    assert!(!is_debug_package(""));
}

#[test]
fn debug_names_are_lowercase() {
    assert!(is_debug_name("x-debug"));
    assert!(!is_debug_name("x-DEBUG"));
}

#[test]
fn installed_listing() {
    let listing = "yay 12.3.5-1\nparu-bin  2.0.3-1 extra\n\nlonely\n  spaced\t 1:2.0-3  \n";
    let expected: Vec<(String, String)> = vec![
        ("yay".to_string(), "12.3.5-1".to_string()),
        ("paru-bin".to_string(), "2.0.3-1".to_string()),
        ("spaced".to_string(), "1:2.0-3".to_string()),
    ];
    assert_eq!(parse_installed(listing), expected);
    assert!(parse_installed("").is_empty());
}

#[test]
fn installed_listing_crlf() {
    let expected: Vec<(String, String)> = vec![("a".to_string(), "1".to_string())];
    assert_eq!(parse_installed("a 1\r\n"), expected);
}

#[test]
fn answers() {
    assert_eq!(parse_answer("y\n"), Some(true));
    assert_eq!(parse_answer("  Yes \n"), Some(true));
    assert_eq!(parse_answer("TRUE"), Some(true));
    assert_eq!(parse_answer("yeah"), Some(true));
    assert_eq!(parse_answer("n"), Some(false));
    assert_eq!(parse_answer("Not\r\n"), Some(false));
    assert_eq!(parse_answer("NO"), Some(false));
    assert_eq!(parse_answer("nope"), Some(false));
    assert_eq!(parse_answer(""), None);
    assert_eq!(parse_answer("\n"), None);
    assert_eq!(parse_answer("maybe"), None);
    assert_eq!(parse_answer("y es"), None);
}

#[test]
fn root_refusal() {
    assert!(refuses_root(true, false));
    assert!(!refuses_root(true, true));
    assert!(!refuses_root(false, false));
    assert!(!refuses_root(false, true));
    assert!(!root_refused(true));
}

#[test]
fn unicode_white_space_is_trimmed() {
    assert_eq!(parse_answer("\u{2003}yes\u{3000}"), Some(true));
    assert_eq!(parse_answer("\u{a0}NO\u{85}"), Some(false));
    assert_eq!(parse_answer("\u{200b}yes"), None);
}

#[test]
fn white_space_characters() {
    for c in ['\t', '\n', '\u{b}', '\u{c}', '\r', ' ', '\u{85}', '\u{a0}', '\u{1680}', '\u{2000}', '\u{200a}', '\u{2028}', '\u{2029}', '\u{202f}', '\u{205f}', '\u{3000}'] {
        assert!(white_space(c));
        assert!(c.is_whitespace());
    }
    for c in ['a', '\u{200b}', '\u{feff}', '\u{180e}', '0', '\u{1f}'] {
        assert!(!white_space(c));
        assert!(!c.is_whitespace());
    }
}

#[test]
fn words_split_on_unicode_space() {
    let expected: Vec<(String, String)> = vec![("a".to_string(), "1".to_string())];
    assert_eq!(parse_installed("a\u{3000}1"), expected);
}
