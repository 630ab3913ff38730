use raur::commands::{
    aur_clone_url, info_from_pkgbuild, install_start, judge_pkgbuild, judge_rpc, makepkg_args,
    mirror_clone_args, package_details, top_level, uninstall_question, update_start, InfoSource, InstallStart,
    PkgbuildVerdict, RpcVerdict, TopLevel, UpdateStart, AUR_MIRROR_GIT,
};
use raur::package::AurPkg;
use raur::pkgbuild::PkgbuildState;

fn pkg(version: Option<&str>) -> AurPkg {
    AurPkg {
        name: "yay".to_string(),
        version: version.map(|v| v.to_string()),
        description: None,
        popularity: None,
        maintainer: None,
        depends: vec![],
        make_depends: vec![],
    }
}

#[test]
fn starting() {
    assert!(matches!(top_level(true, false), TopLevel::Meow));
    assert!(matches!(top_level(true, true), TopLevel::Meow));
    assert!(matches!(top_level(false, false), TopLevel::MissingSubcommand));
    assert!(matches!(top_level(false, true), TopLevel::Run));
}

#[test]
fn update_starts() {
    assert!(matches!(update_start("foo-debug", true), UpdateStart::SkipDebug));
    assert!(matches!(update_start("foo-DBG", false), UpdateStart::SkipDebug));
    assert!(matches!(update_start("foo", true), UpdateStart::FetchPkgbuild));
    assert!(matches!(update_start("foo", false), UpdateStart::FetchInfo));
}

#[test]
fn pkgbuild_verdicts() {
    let body = Some(PkgbuildState::Result("pkgver=1.2\npkgrel=3\n".to_string()));
    assert!(matches!(judge_pkgbuild(&body, "1.2-3"), PkgbuildVerdict::Current));
    assert!(matches!(judge_pkgbuild(&body, "1.2-2"), PkgbuildVerdict::Outdated));
    let dynamic = Some(PkgbuildState::Result("pkgver=$(date)\n".to_string()));
    assert!(matches!(judge_pkgbuild(&dynamic, "1"), PkgbuildVerdict::Unparsable));
    assert!(matches!(judge_pkgbuild(&None, "1"), PkgbuildVerdict::FetchFailed));
    assert!(matches!(judge_pkgbuild(&Some(PkgbuildState::NotFound), "1"), PkgbuildVerdict::NotOnMirror));
    assert!(matches!(judge_pkgbuild(&Some(PkgbuildState::OtherError), "1"), PkgbuildVerdict::MirrorFailure));
}

#[test]
fn rpc_verdicts() {
    assert!(matches!(judge_rpc(&Some(pkg(Some("2.0-1"))), "2.0-1"), RpcVerdict::Current));
    assert!(matches!(judge_rpc(&Some(pkg(Some("2.0-2"))), "2.0-1"), RpcVerdict::Outdated));
    assert!(matches!(judge_rpc(&Some(pkg(None)), "2.0-1"), RpcVerdict::Outdated));
    assert!(matches!(judge_rpc(&Some(pkg(None)), ""), RpcVerdict::Current));
    assert!(matches!(judge_rpc(&None, "2.0-1"), RpcVerdict::Unavailable));
}

#[test]
fn info_sources() {
    match info_from_pkgbuild(&PkgbuildState::Result("pkgver=3\n".to_string())) {
        InfoSource::Version(v) => assert_eq!(v, "3"),
        _ => panic!("expected a version"),
    }
    assert!(matches!(
        info_from_pkgbuild(&PkgbuildState::Result("pkgver=$(v)\n".to_string())),
        InfoSource::Unparsable
    ));
    assert!(matches!(info_from_pkgbuild(&PkgbuildState::NotFound), InfoSource::NotOnMirror));
    assert!(matches!(info_from_pkgbuild(&PkgbuildState::OtherError), InfoSource::MirrorFailure));
}

#[test]
fn install_starts() {
    let mirror = vec!["yay".to_string(), "paru".to_string()];
    assert!(matches!(install_start("yay-debug", true, &mirror), InstallStart::SkipDebug));
    assert!(matches!(install_start("yay", true, &mirror), InstallStart::Proceed));
    assert!(matches!(install_start("trizen", true, &mirror), InstallStart::NotOnMirror));
    assert!(matches!(install_start("trizen", false, &[]), InstallStart::Proceed));
}

#[test]
fn makepkg_arguments() {
    assert_eq!(makepkg_args(false), vec!["-si", "--noconfirm"]);
    assert_eq!(makepkg_args(true), vec!["-si", "--noconfirm", "--rmdeps"]);
}

#[test]
fn clone_sources() {
    assert_eq!(aur_clone_url("yay"), "https://aur.archlinux.org/yay.git");
    assert_eq!(AUR_MIRROR_GIT, "https://github.com/archlinux/aur.git");
    assert_eq!(
        mirror_clone_args("paru"),
        vec!["clone", "--single-branch", "--branch", "paru", "https://github.com/archlinux/aur.git", "paru"]
    );
}

#[test]
fn uninstall_questions() {
    assert_eq!(uninstall_question("yay"), "Really uninstall yay?");
}

#[test]
fn details_shown() {
    let mut p = pkg(Some("1.0-1"));
    p.maintainer = Some("alice".to_string());
    p.description = Some("A helper".to_string());
    let d = package_details(&p);
    assert_eq!(d.version, "1.0-1");
    assert_eq!(d.maintainer, "alice");
    assert_eq!(d.description, Some("A helper".to_string()));

    let mut q = pkg(None);
    q.description = Some(String::new());
    let d = package_details(&q);
    assert_eq!(d.version, "Unknown");
    assert_eq!(d.maintainer, "None");
    assert_eq!(d.description, None);
}
