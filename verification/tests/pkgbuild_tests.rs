use raur::pkgbuild::{
    github_package_exists, is_success_status, parse_mirror_branches, parse_pkgbuild_version,
    pkgbuild_has_lone_quote, pkgbuild_state, pkgbuild_url, search_mirror, PkgbuildState,
};

fn version(text: &str) -> Option<String> {
    assert!(!pkgbuild_has_lone_quote(text));
    parse_pkgbuild_version(text)
}

#[test]
fn version_with_release() {
    let text = "# Maintainer: someone\npkgname=foo\npkgver=1.2.3\npkgrel=4\narch=('x86_64')\n";
    assert_eq!(version(text), Some("1.2.3-4".to_string()));
}

#[test]
fn version_without_release() {
    assert_eq!(version("pkgname=foo\npkgver=0.9\n"), Some("0.9".to_string()));
}

#[test]
fn release_without_version_gives_nothing() {
    assert_eq!(version("pkgrel=2\n"), None);
}

#[test]
fn empty_text_gives_nothing() {
    assert_eq!(version(""), None);
}

#[test]
fn quoted_values_are_unquoted() {
    assert_eq!(version("pkgver='2.0.1'\npkgrel=\"7\"\n"), Some("2.0.1-7".to_string()));
}

#[test]
fn mismatched_quotes_are_kept() {
    assert_eq!(version("pkgver='2.0\"\n"), Some("'2.0\"".to_string()));
}

#[test]
fn empty_quotes_give_empty_value() {
    assert_eq!(version("pkgver=''\npkgrel=1\n"), Some("-1".to_string()));
}

#[test]
fn comment_lines_are_skipped() {
    assert_eq!(version("  # pkgver=9.9\npkgver=1.0\npkgrel=1\n"), Some("1.0-1".to_string()));
}

#[test]
fn surrounding_spaces_are_trimmed() {
    assert_eq!(version("   pkgver =  3.1  \n\tpkgrel= 2\r\n"), Some("3.1-2".to_string()));
}

#[test]
fn release_before_version() {
    assert_eq!(version("pkgrel=5\npkgver=8.0\n"), Some("8.0-5".to_string()));
}

#[test]
fn later_version_replaces_earlier() {
    assert_eq!(version("pkgver=1.0\npkgver=1.1\npkgrel=3\n"), Some("1.1-3".to_string()));
}

#[test]
fn reading_stops_once_both_are_known() {
    assert_eq!(version("pkgver=1.0\npkgrel=1\npkgver=$(git describe)\n"), Some("1.0-1".to_string()));
}

#[test]
fn dynamic_version_gives_nothing() {
    assert_eq!(version("pkgver=$(git describe --tags)\npkgrel=1\n"), None);
}

#[test]
fn parenthesis_gives_nothing() {
    assert_eq!(version("pkgver=1.0\npkgrel=(1)\n"), None);
}

#[test]
fn dynamic_release_after_version_gives_nothing() {
    assert_eq!(version("pkgver=1.0\npkgrel=${_rel}\n"), None);
}

#[test]
fn value_after_first_equals_sign() {
    assert_eq!(version("pkgver=a=b\n"), Some("a=b".to_string()));
}

#[test]
fn key_prefix_without_equals_is_ignored() {
    assert_eq!(version("pkgver\npkgver_extra=2\npkgrel=1\n"), Some("2-1".to_string()));
}

#[test]
fn line_without_final_newline() {
    assert_eq!(version("pkgver=4.5\npkgrel=6"), Some("4.5-6".to_string()));
}

#[test]
fn lone_quote_is_detected() {
    assert!(pkgbuild_has_lone_quote("pkgver='\n"));
    assert!(pkgbuild_has_lone_quote("pkgver=1\npkgrel=\"\n"));
    assert!(!pkgbuild_has_lone_quote("pkgver=1\npkgrel=2\npkgver='\n"));
    assert!(!pkgbuild_has_lone_quote("pkgver=$(x)\npkgrel='\n"));
}

#[test]
fn mirror_url() {
    assert_eq!(
        pkgbuild_url("yay"),
        "https://raw.githubusercontent.com/archlinux/aur/yay/PKGBUILD"
    );
}

#[test]
fn success_statuses() {
    assert!(is_success_status(200));
    assert!(is_success_status(204));
    assert!(is_success_status(299));
    assert!(!is_success_status(199));
    assert!(!is_success_status(300));
    assert!(!is_success_status(404));
}

#[test]
fn state_of_answers() {
    match pkgbuild_state(200, "pkgver=1".to_string()) {
        PkgbuildState::Result(b) => assert_eq!(b, "pkgver=1"),
        _ => panic!("expected a PKGBUILD"),
    }
    assert!(matches!(pkgbuild_state(404, String::new()), PkgbuildState::NotFound));
    assert!(matches!(pkgbuild_state(500, String::new()), PkgbuildState::OtherError));
    assert!(matches!(pkgbuild_state(301, String::new()), PkgbuildState::OtherError));
}

#[test]
fn mirror_listing() {
    let listing = "abc123\trefs/heads/yay\ndef456\trefs/heads/paru-bin\n\nlonely\n789\tother/ref\n";
    assert_eq!(
        parse_mirror_branches(listing),
        vec!["yay".to_string(), "paru-bin".to_string(), "other/ref".to_string()]
    );
}

#[test]
fn mirror_listing_takes_second_word() {
    assert_eq!(parse_mirror_branches("a b c\n  x   refs/heads/y  z"), vec!["b".to_string(), "y".to_string()]);
    assert!(parse_mirror_branches("").is_empty());
}

#[test]
fn package_exists_on_mirror() {
    let list = vec!["yay".to_string(), "paru".to_string()];
    assert!(github_package_exists("paru", &list));
    assert!(!github_package_exists("par", &list));
    assert!(!github_package_exists("yay", &[]));
}

#[test]
fn mirror_search_filters_and_sorts() {
    let branches: Vec<String> =
        ["zsh-git", "yay", "git-lfs", "foo", "Git", "agit", "éclair-git"].iter().map(|s| s.to_string()).collect();
    assert_eq!(
        search_mirror(&branches, "git"),
        vec!["agit".to_string(), "git-lfs".to_string(), "zsh-git".to_string(), "éclair-git".to_string()]
    );
}

#[test]
fn mirror_search_empty_term_sorts_all() {
    let branches: Vec<String> = ["b", "a", "ab", "a"].iter().map(|s| s.to_string()).collect();
    assert_eq!(
        search_mirror(&branches, ""),
        vec!["a".to_string(), "a".to_string(), "ab".to_string(), "b".to_string()]
    );
}

#[test]
fn unicode_values() {
    assert_eq!(version("\u{3000}pkgver=é1\u{a0}\npkgrel=1"), Some("é1-1".to_string()));
}

#[test]
fn other_lines_change_nothing() {
    let plain = "pkgver=2.5\npkgrel=1\n";
    let busy = "pkgname=(a b)\npkgver=2.5\n# pkgrel=$(x)\ndepends=('$y')\npkgrel=1\n";
    assert_eq!(version(busy), version(plain));
    assert_eq!(version(busy), Some("2.5-1".to_string()));
}
