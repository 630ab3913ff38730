use vstd::prelude::*;

use crate::installed::{lowercase, to_lowercase};
use crate::text::{str_chars, string_of, trim, trim_bounds};
use crate::{NO_OPTIONS, YES_OPTIONS};

verus! {

/// Whether `s` is one of the answers `options`.
pub open spec fn is_one_of(options: [&'static str; 4], s: Seq<char>) -> bool {
    exists|i: int| 0 <= i < 4 && (#[trigger] options@[i])@ == s
}

/// The answer that a reply gives: `Some(true)` for yes, `Some(false)` for no,
/// `None` where the question must be asked again. The reply is trimmed and
/// lowercased before it is looked up.
pub open spec fn answer_of(reply: Seq<char>) -> Option<bool> {
    let r = lowercase(trim(reply));
    if is_one_of(YES_OPTIONS, r) {
        Some(true)
    } else if is_one_of(NO_OPTIONS, r) {
        Some(false)
    } else {
        None
    }
}

fn one_of(options: [&'static str; 4], s: &String) -> (r: bool)
    ensures
        r == is_one_of(options, s@),
{
    let mut i: usize = 0;
    while i < 4
        invariant
            i <= 4,
            forall|j: int| 0 <= j < i ==> (#[trigger] options@[j])@ != s@,
        decreases 4 - i,
    {
        let o = String::from_str(options[i]);
        if o == *s {
            assert(options@[i as int]@ == s@);
            return true;
        }
        i = i + 1;
    }
    false
}

/// The answer that the reply `input` gives to a yes/no question (see [`answer_of`]).
pub fn parse_answer(input: &str) -> (r: Option<bool>)
    ensures
        r == answer_of(input@),
{
    let v = str_chars(input);
    let (a, b) = trim_bounds(&v, 0, v.len());
    assert(v@.subrange(0, v.len() as int) =~= v@);
    let trimmed = string_of(&v, a, b);
    let reply = to_lowercase(trimmed.as_str());
    if one_of(YES_OPTIONS, &reply) {
        Some(true)
    } else if one_of(NO_OPTIONS, &reply) {
        Some(false)
    } else {
        None
    }
}

/// `nix::unistd::Uid::effective().is_root()`: whether the process runs with
/// an effective user id of 0. It depends on the process, so nothing is
/// stated of the result.
#[verifier::external_body]
fn effective_user_is_root() -> bool {
    nix::unistd::Uid::effective().is_root()
}

/// Whether the program must refuse to go on: it runs as root without the bypass.
pub fn refuses_root(is_root: bool, bypass: bool) -> (r: bool)
    ensures
        r == (is_root && !bypass),
{
    is_root && !bypass
}

/// Whether the program, as it runs now, must refuse to go on: it runs as
/// root and `bypass` is not set. With the bypass it never refuses.
pub fn root_refused(bypass: bool) -> (r: bool)
    ensures
        bypass ==> !r,
{
    refuses_root(effective_user_is_root(), bypass)
}

} // verus!
