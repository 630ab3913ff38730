use raur::package::{first_package, info_url, search_url, sort_by_popularity, AurPkg};
use raur::{AUR_RPC, GITHUB_AUR_MIRROR_RAW_BASE, NO_OPTIONS, YES_OPTIONS};

fn pkg(name: &str, popularity: Option<f32>) -> AurPkg {
    AurPkg {
        name: name.to_string(),
        version: Some("1.0-1".to_string()),
        description: None,
        popularity: popularity.map(|p| p.to_bits()),
        maintainer: None,
        depends: vec![],
        make_depends: vec![],
    }
}

fn names(pkgs: &[AurPkg]) -> Vec<String> {
    pkgs.iter().map(|p| p.name.clone()).collect()
}

#[test]
fn constants() {
    assert_eq!(AUR_RPC, "https://aur.archlinux.org/rpc/?v=5&");
    assert_eq!(GITHUB_AUR_MIRROR_RAW_BASE, "https://raw.githubusercontent.com/archlinux/aur");
    assert_eq!(YES_OPTIONS, ["y", "yes", "true", "yeah"]);
    assert_eq!(NO_OPTIONS, ["n", "not", "no", "nope"]);
}

#[test]
fn urls() {
    assert_eq!(search_url("yay"), "https://aur.archlinux.org/rpc/?v=5&type=search&arg=yay");
    assert_eq!(info_url("paru"), "https://aur.archlinux.org/rpc/?v=5&type=info&arg=paru");
}

#[test]
fn most_popular_first() {
    let sorted = sort_by_popularity(vec![
        pkg("low", Some(0.5)),
        pkg("high", Some(12.25)),
        pkg("mid", Some(3.0)),
    ]);
    assert_eq!(names(&sorted), vec!["high", "mid", "low"]);
}

#[test]
fn equal_popularity_keeps_order() {
    let sorted = sort_by_popularity(vec![
        pkg("a", Some(1.0)),
        pkg("b", Some(2.0)),
        pkg("c", Some(1.0)),
        pkg("d", Some(2.0)),
        pkg("e", Some(1.0)),
    ]);
    assert_eq!(names(&sorted), vec!["b", "d", "a", "c", "e"]);
}

#[test]
fn missing_popularity_counts_as_zero() {
    let sorted = sort_by_popularity(vec![
        pkg("none", None),
        pkg("neg", Some(-1.0)),
        pkg("zero", Some(0.0)),
        pkg("negzero", Some(-0.0)),
        pkg("tiny", Some(1e-40)),
        pkg("inf", Some(f32::INFINITY)),
        pkg("neginf", Some(f32::NEG_INFINITY)),
    ]);
    assert_eq!(names(&sorted), vec!["inf", "tiny", "none", "zero", "negzero", "neg", "neginf"]);
}

#[test]
fn single_result_with_nan() {
    let sorted = sort_by_popularity(vec![pkg("nan", Some(f32::NAN))]);
    assert_eq!(names(&sorted), vec!["nan"]);
    assert!(sort_by_popularity(vec![]).is_empty());
}

#[test]
fn first_package_found() {
    let found = first_package(vec![pkg("first", None), pkg("second", None)], "first");
    match found {
        Ok(p) => assert_eq!(p.name, "first"),
        Err(_) => panic!("expected a package"),
    }
}

#[test]
fn first_package_missing() {
    match first_package(vec![], "ghost-pkg") {
        Ok(_) => panic!("expected an error"),
        Err(msg) => assert_eq!(msg, "Package 'ghost-pkg' not found"),
    }
}
