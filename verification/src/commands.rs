use vstd::prelude::*;

use crate::installed::{has_debug_suffix, is_debug_package, lowercase};
use crate::package::AurPkg;
use crate::pkgbuild::{
    github_package_exists, parse_pkgbuild_version, pkgbuild_version, scan_pkgbuild, PkgbuildState,
};

verus! {

/// The address of the AUR mirror repository, one branch per package.
pub const AUR_MIRROR_GIT: &'static str = "https://github.com/archlinux/aur.git";

/// What the program does when it starts.
pub enum TopLevel {
    /// Answer the `--meow` flag and stop.
    Meow,
    /// Report that no command was given and fail.
    MissingSubcommand,
    /// Run the command given.
    Run,
}

/// What the program does, given whether `--meow` was set and whether a
/// command was given.
pub fn top_level(meow: bool, has_subcommand: bool) -> (r: TopLevel)
    ensures
        meow ==> r is Meow,
        !meow && !has_subcommand ==> r is MissingSubcommand,
        !meow && has_subcommand ==> r is Run,
{
    if meow {
        TopLevel::Meow
    } else if !has_subcommand {
        TopLevel::MissingSubcommand
    } else {
        TopLevel::Run
    }
}

/// How an installed package is first looked at during an update.
pub enum UpdateStart {
    /// A debug package: left alone.
    SkipDebug,
    /// Read its PKGBUILD on the GitHub mirror.
    FetchPkgbuild,
    /// Ask the AUR RPC interface.
    FetchInfo,
}

/// How the installed package `name` is first looked at during an update.
pub fn update_start(name: &str, use_github: bool) -> (r: UpdateStart)
    ensures
        has_debug_suffix(lowercase(name@)) ==> r is SkipDebug,
        !has_debug_suffix(lowercase(name@)) && use_github ==> r is FetchPkgbuild,
        !has_debug_suffix(lowercase(name@)) && !use_github ==> r is FetchInfo,
{
    if is_debug_package(name) {
        UpdateStart::SkipDebug
    } else if use_github {
        UpdateStart::FetchPkgbuild
    } else {
        UpdateStart::FetchInfo
    }
}

/// What a PKGBUILD request tells about an installed package.
pub enum PkgbuildVerdict {
    /// The PKGBUILD declares another version: the package needs an update.
    Outdated,
    /// The PKGBUILD declares the installed version.
    Current,
    /// No version could be read from the PKGBUILD: ask the AUR RPC interface.
    Unparsable,
    /// The request failed: ask the AUR RPC interface.
    FetchFailed,
    /// The mirror has no such package: the update stops with an error.
    NotOnMirror,
    /// The mirror answered with another failure: the update stops with an error.
    MirrorFailure,
}

/// Whether a fetched PKGBUILD can be read for its version.
pub open spec fn fetched_readable(fetched: Option<PkgbuildState>) -> bool {
    fetched matches Some(PkgbuildState::Result(b)) ==> !(scan_pkgbuild(b@) is LoneQuote)
}

/// What the PKGBUILD request outcome `fetched` (`None` where the request
/// failed) tells about a package installed at version `installed`.
pub open spec fn pkgbuild_verdict(fetched: Option<PkgbuildState>, installed: Seq<char>) -> PkgbuildVerdict {
    match fetched {
        None => PkgbuildVerdict::FetchFailed,
        Some(PkgbuildState::Result(b)) => match pkgbuild_version(b@) {
            Some(v) => if v == installed {
                PkgbuildVerdict::Current
            } else {
                PkgbuildVerdict::Outdated
            },
            None => PkgbuildVerdict::Unparsable,
        },
        Some(PkgbuildState::NotFound) => PkgbuildVerdict::NotOnMirror,
        Some(PkgbuildState::OtherError) => PkgbuildVerdict::MirrorFailure,
    }
}

/// What the PKGBUILD request outcome `fetched` tells about a package
/// installed at version `installed` (see [`pkgbuild_verdict`]).
pub fn judge_pkgbuild(fetched: &Option<PkgbuildState>, installed: &str) -> (r: PkgbuildVerdict)
    requires
        fetched_readable(*fetched),
    ensures
        r == pkgbuild_verdict(*fetched, installed@),
{
    match fetched {
        None => PkgbuildVerdict::FetchFailed,
        Some(PkgbuildState::Result(b)) => match parse_pkgbuild_version(b.as_str()) {
            Some(v) => {
                let wanted = String::from_str(installed);
                if v == wanted {
                    PkgbuildVerdict::Current
                } else {
                    PkgbuildVerdict::Outdated
                }
            },
            None => PkgbuildVerdict::Unparsable,
        },
        Some(PkgbuildState::NotFound) => PkgbuildVerdict::NotOnMirror,
        Some(PkgbuildState::OtherError) => PkgbuildVerdict::MirrorFailure,
    }
}

/// What an AUR RPC information request tells about an installed package.
pub enum RpcVerdict {
    /// The AUR has another version: the package needs an update.
    Outdated,
    /// The AUR has the installed version.
    Current,
    /// The request failed: the package is skipped.
    Unavailable,
}

/// The version the AUR reports for `pkg`; a missing version reads as empty.
pub open spec fn reported_version(pkg: AurPkg) -> Seq<char> {
    match pkg.version {
        Some(v) => v@,
        None => seq![],
    }
}

/// What the AUR RPC outcome `fetched` tells about a package installed at
/// version `installed`.
pub open spec fn rpc_verdict(fetched: Option<AurPkg>, installed: Seq<char>) -> RpcVerdict {
    match fetched {
        None => RpcVerdict::Unavailable,
        Some(pkg) => if reported_version(pkg) == installed {
            RpcVerdict::Current
        } else {
            RpcVerdict::Outdated
        },
    }
}

/// A package is current exactly when the version the AUR reports (empty when
/// missing) equals the installed version character for character; any
/// difference, at any position or in length, makes it outdated; a failed
/// request never counts it outdated.
pub proof fn lemma_rpc_verdict_compares(pkg: AurPkg, installed: Seq<char>)
    ensures
        rpc_verdict(Some(pkg), installed) is Current <==> match pkg.version {
            Some(v) => v@.len() == installed.len() && forall|i: int|
                0 <= i < installed.len() ==> v@[i] == installed[i],
            None => installed.len() == 0,
        },
        rpc_verdict(Some(pkg), installed) is Outdated || rpc_verdict(Some(pkg), installed) is Current,
        rpc_verdict(None, installed) is Unavailable,
{
    match pkg.version {
        Some(v) => {
            if v@.len() == installed.len() && forall|i: int|
                0 <= i < installed.len() ==> v@[i] == installed[i] {
                assert(v@ =~= installed);
            }
        },
        None => {
            if installed.len() == 0 {
                assert(installed =~= Seq::<char>::empty());
            }
        },
    }
}

/// A readable PKGBUILD makes a package current exactly when the version it
/// declares equals the installed version character for character, and
/// outdated on any difference.
pub proof fn lemma_pkgbuild_verdict_compares(b: String, installed: Seq<char>, v: Seq<char>)
    requires
        pkgbuild_version(b@) == Some(v),
    ensures
        pkgbuild_verdict(Some(PkgbuildState::Result(b)), installed) is Current <==> (v.len()
            == installed.len() && forall|i: int| 0 <= i < v.len() ==> v[i] == installed[i]),
        pkgbuild_verdict(Some(PkgbuildState::Result(b)), installed) is Outdated
            || pkgbuild_verdict(Some(PkgbuildState::Result(b)), installed) is Current,
{
    if v.len() == installed.len() && forall|i: int| 0 <= i < v.len() ==> v[i] == installed[i] {
        assert(v =~= installed);
    }
}

/// What the AUR RPC outcome `fetched` (`None` where the request failed)
/// tells about a package installed at version `installed`.
pub fn judge_rpc(fetched: &Option<AurPkg>, installed: &str) -> (r: RpcVerdict)
    ensures
        r == rpc_verdict(*fetched, installed@),
{
    match fetched {
        None => RpcVerdict::Unavailable,
        Some(pkg) => {
            let wanted = String::from_str(installed);
            let reported = match &pkg.version {
                Some(v) => v.clone(),
                None => String::new(),
            };
            if reported == wanted {
                RpcVerdict::Current
            } else {
                RpcVerdict::Outdated
            }
        },
    }
}

/// What the information command learns from a PKGBUILD request.
pub enum InfoSource {
    /// The version read from the PKGBUILD.
    Version(String),
    /// No version could be read: the AUR RPC interface is asked.
    Unparsable,
    /// The mirror has no such package: the command fails.
    NotOnMirror,
    /// The mirror answered with another failure: the command fails.
    MirrorFailure,
}

/// What the information command learns from the PKGBUILD request outcome `state`.
pub fn info_from_pkgbuild(state: &PkgbuildState) -> (r: InfoSource)
    requires
        fetched_readable(Some(*state)),
    ensures
        state matches PkgbuildState::Result(b) ==> match pkgbuild_version(b@) {
            Some(v) => r matches InfoSource::Version(s) && s@ == v,
            None => r is Unparsable,
        },
        state is NotFound ==> r is NotOnMirror,
        state is OtherError ==> r is MirrorFailure,
{
    match state {
        PkgbuildState::Result(b) => match parse_pkgbuild_version(b.as_str()) {
            Some(v) => InfoSource::Version(v),
            None => InfoSource::Unparsable,
        },
        PkgbuildState::NotFound => InfoSource::NotOnMirror,
        PkgbuildState::OtherError => InfoSource::MirrorFailure,
    }
}

/// Whether a package named in an install request is installed.
pub enum InstallStart {
    /// A debug package: not installed.
    SkipDebug,
    /// The GitHub mirror, which was asked for, lacks it: skipped.
    NotOnMirror,
    /// It is installed (after the user agrees).
    Proceed,
}

/// Whether the package `name` of an install request is installed, where
/// `mirror` lists the branches of the GitHub mirror when `use_github` is set.
pub fn install_start(name: &str, use_github: bool, mirror: &[String]) -> (r: InstallStart)
    ensures
        has_debug_suffix(lowercase(name@)) ==> r is SkipDebug,
        !has_debug_suffix(lowercase(name@)) ==> (r is NotOnMirror <==> (use_github && !exists|i: int|
            0 <= i < mirror@.len() && (#[trigger] mirror@[i])@ == name@)),
        !has_debug_suffix(lowercase(name@)) ==> (r is Proceed <==> !(use_github && !exists|i: int|
            0 <= i < mirror@.len() && (#[trigger] mirror@[i])@ == name@)),
{
    if is_debug_package(name) {
        InstallStart::SkipDebug
    } else if use_github && !github_package_exists(name, mirror) {
        InstallStart::NotOnMirror
    } else {
        InstallStart::Proceed
    }
}

/// The arguments of `makepkg`: build and install without asking, and remove
/// the build dependencies afterwards when `remove_deps` is set.
pub fn makepkg_args(remove_deps: bool) -> (r: Vec<&'static str>)
    ensures
        r@.len() == if remove_deps {
            3int
        } else {
            2int
        },
        r@[0]@ == "-si"@,
        r@[1]@ == "--noconfirm"@,
        remove_deps ==> r@[2]@ == "--rmdeps"@,
{
    let mut args: Vec<&'static str> = Vec::new();
    args.push("-si");
    args.push("--noconfirm");
    if remove_deps {
        args.push("--rmdeps");
    }
    args
}

/// The address of the AUR git repository of the package `name`.
pub fn aur_clone_url(name: &str) -> (u: String)
    ensures
        u@ == "https://aur.archlinux.org/"@ + name@ + ".git"@,
{
    let mut u = String::from_str("https://aur.archlinux.org/");
    u.append(name);
    u.append(".git");
    u
}

/// The arguments of `git` that clone the branch of the package `name` from
/// the mirror into a directory of that name.
pub fn mirror_clone_args(name: &str) -> (r: Vec<String>)
    ensures
        r@.len() == 6,
        r@[0]@ == "clone"@,
        r@[1]@ == "--single-branch"@,
        r@[2]@ == "--branch"@,
        r@[3]@ == name@,
        r@[4]@ == AUR_MIRROR_GIT@,
        r@[5]@ == name@,
{
    let mut args: Vec<String> = Vec::new();
    args.push(String::from_str("clone"));
    args.push(String::from_str("--single-branch"));
    args.push(String::from_str("--branch"));
    args.push(String::from_str(name));
    args.push(String::from_str(AUR_MIRROR_GIT));
    args.push(String::from_str(name));
    args
}

/// The question asked before the package `pkg` is uninstalled.
pub fn uninstall_question(pkg: &str) -> (q: String)
    ensures
        q@ == "Really uninstall "@ + pkg@ + "?"@,
{
    let mut q = String::from_str("Really uninstall ");
    q.append(pkg);
    q.append("?");
    q
}

/// The fields of a package that the information command shows.
pub struct PackageDetails {
    pub version: String,
    pub maintainer: String,
    /// The description, where there is a non-empty one.
    pub description: Option<String>,
}

/// The shown fields of `pkg`: its version or `Unknown`, its maintainer or
/// `None`, and its description where it is not empty.
pub fn package_details(pkg: &AurPkg) -> (d: PackageDetails)
    ensures
        d.version@ == match pkg.version {
            Some(v) => v@,
            None => "Unknown"@,
        },
        d.maintainer@ == match pkg.maintainer {
            Some(m) => m@,
            None => "None"@,
        },
        match pkg.description {
            Some(desc) => if desc@.len() > 0 {
                d.description matches Some(shown) && shown@ == desc@
            } else {
                d.description is None
            },
            None => d.description is None,
        },
{
    let version = match &pkg.version {
        Some(v) => v.clone(),
        None => String::from_str("Unknown"),
    };
    let maintainer = match &pkg.maintainer {
        Some(m) => m.clone(),
        None => String::from_str("None"),
    };
    let description = match &pkg.description {
        Some(desc) => if desc.as_str().unicode_len() > 0 {
            Some(desc.clone())
        } else {
            None
        },
        None => None,
    };
    PackageDetails { version, maintainer, description }
}

} // verus!
