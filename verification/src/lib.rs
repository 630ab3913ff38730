//! The logic of a small AUR helper: reading PKGBUILD versions and package
//! listings, ordering search results, and the decisions of its commands.
use vstd::prelude::*;

pub mod commands;
pub mod installed;
pub mod order;
pub mod package;
pub mod pkgbuild;
pub mod prompt;
pub mod text;

verus! {

/// Base of the AUR RPC interface (version 5).
pub const AUR_RPC: &'static str = "https://aur.archlinux.org/rpc/?v=5&";

/// Base of the raw files of the GitHub mirror of the AUR, one branch per package.
pub const GITHUB_AUR_MIRROR_RAW_BASE: &'static str = "https://raw.githubusercontent.com/archlinux/aur";

/// Answers that count as yes.
pub const YES_OPTIONS: [&'static str; 4] = ["y", "yes", "true", "yeah"];

/// Answers that count as no.
pub const NO_OPTIONS: [&'static str; 4] = ["n", "not", "no", "nope"];

} // verus!
