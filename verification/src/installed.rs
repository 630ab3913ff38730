use vstd::prelude::*;

use crate::text::{
    bounds_of, ends_with, ends_with_at, line_bounds, split_lines, str_chars, string_of, word_bounds,
    words,
};

verus! {

/// What `str::to_lowercase` gives for a string: its characters mapped by the
/// Unicode lowercase mapping.
pub uninterp spec fn lowercase(s: Seq<char>) -> Seq<char>;

/// `str::to_lowercase`: the lowercase form of `s`. The contract claims only that
/// the result is [`lowercase`] of the text of `s`, a function of `s` alone;
/// nothing is stated of that mapping.
#[verifier::external_body]
pub(crate) fn to_lowercase(s: &str) -> (r: String)
    ensures
        r@ == lowercase(s@),
{
    s.to_lowercase()
}

/// Whether the (lowercase) name `s` ends like the name of a debug package.
pub open spec fn has_debug_suffix(s: Seq<char>) -> bool {
    ||| ends_with(s, seq!['-', 'd', 'e', 'b', 'u', 'g'])
    ||| ends_with(s, seq!['-', 'd', 'b', 'g'])
    ||| ends_with(s, seq!['-', 'd', 'b', 'g', 's', 'y', 'm'])
    ||| ends_with(s, seq!['-', 'd', 'e', 'b', 'u', 'g', 'i', 'n', 'f', 'o'])
}

proof fn lemma_ends_with_split(s: Seq<char>, t: Seq<char>)
    ensures
        ends_with(s, t) ==> s == s.take(s.len() - t.len()) + t,
        forall|p: Seq<char>| #[trigger] (p + t) == s ==> ends_with(s, t),
        ends_with(s, t) && t.len() > 0 ==> s.last() == t.last(),
{
    if ends_with(s, t) {
        assert(s =~= s.take(s.len() - t.len()) + s.skip(s.len() - t.len()));
        if t.len() > 0 {
            assert(s.last() == s.skip(s.len() - t.len())[t.len() - 1]);
        }
    }
    assert forall|p: Seq<char>| #[trigger] (p + t) == s implies ends_with(s, t) by {
        assert(s.skip(s.len() - t.len()) =~= t);
    }
}

/// The names taken for debug packages are exactly those made of some name
/// followed by `-debug`, `-dbg`, `-dbgsym` or `-debuginfo`; every such name
/// ends in `g`, `m` or `o`, so a name ending otherwise (such as `-bin` or
/// `-git`) is never one.
pub proof fn lemma_debug_suffixes(s: Seq<char>)
    ensures
        has_debug_suffix(s) <==> {
            ||| exists|p: Seq<char>| s == p + seq!['-', 'd', 'e', 'b', 'u', 'g']
            ||| exists|p: Seq<char>| s == p + seq!['-', 'd', 'b', 'g']
            ||| exists|p: Seq<char>| s == p + seq!['-', 'd', 'b', 'g', 's', 'y', 'm']
            ||| exists|p: Seq<char>| s == p + seq!['-', 'd', 'e', 'b', 'u', 'g', 'i', 'n', 'f', 'o']
        },
        has_debug_suffix(s) ==> s.len() >= 4 && (s.last() == 'g' || s.last() == 'm' || s.last()
            == 'o'),
{
    let t1 = seq!['-', 'd', 'e', 'b', 'u', 'g'];
    let t2 = seq!['-', 'd', 'b', 'g'];
    let t3 = seq!['-', 'd', 'b', 'g', 's', 'y', 'm'];
    let t4 = seq!['-', 'd', 'e', 'b', 'u', 'g', 'i', 'n', 'f', 'o'];
    lemma_ends_with_split(s, t1);
    lemma_ends_with_split(s, t2);
    lemma_ends_with_split(s, t3);
    lemma_ends_with_split(s, t4);
    assert(has_debug_suffix(s) == (ends_with(s, t1) || ends_with(s, t2) || ends_with(s, t3) || ends_with(s, t4)));
    if ends_with(s, t1) {
        let p = s.take(s.len() - t1.len());
        assert(s == p + t1);
    } else if ends_with(s, t2) {
        let p = s.take(s.len() - t2.len());
        assert(s == p + t2);
    } else if ends_with(s, t3) {
        let p = s.take(s.len() - t3.len());
        assert(s == p + t3);
    } else if ends_with(s, t4) {
        let p = s.take(s.len() - t4.len());
        assert(s == p + t4);
    }
    if exists|p: Seq<char>| s == p + t1 {
        let p = choose|p: Seq<char>| s == p + t1;
        assert(ends_with(s, t1));
    }
    if exists|p: Seq<char>| s == p + t2 {
        let p = choose|p: Seq<char>| s == p + t2;
        assert(ends_with(s, t2));
    }
    if exists|p: Seq<char>| s == p + t3 {
        let p = choose|p: Seq<char>| s == p + t3;
        assert(ends_with(s, t3));
    }
    if exists|p: Seq<char>| s == p + t4 {
        let p = choose|p: Seq<char>| s == p + t4;
        assert(ends_with(s, t4));
    }
}

/// Whether the lowercase name `lowered` ends in `-debug`, `-dbg`, `-dbgsym`
/// or `-debuginfo`.
pub fn is_debug_name(lowered: &str) -> (r: bool)
    ensures
        r == has_debug_suffix(lowered@),
{
    let v = str_chars(lowered);
    let n = v.len();
    let debug = vec!['-', 'd', 'e', 'b', 'u', 'g'];
    let dbg = vec!['-', 'd', 'b', 'g'];
    let dbgsym = vec!['-', 'd', 'b', 'g', 's', 'y', 'm'];
    let debuginfo = vec!['-', 'd', 'e', 'b', 'u', 'g', 'i', 'n', 'f', 'o'];
    assert(v@.subrange(0, n as int) =~= v@);
    ends_with_at(&v, 0, n, &debug) || ends_with_at(&v, 0, n, &dbg) || ends_with_at(
        &v,
        0,
        n,
        &dbgsym,
    ) || ends_with_at(&v, 0, n, &debuginfo)
}

/// Whether `name` is that of a debug variant of a package, to be left alone:
/// its lowercase form ends in `-debug`, `-dbg`, `-dbgsym` or `-debuginfo`.
pub fn is_debug_package(name: &str) -> (r: bool)
    ensures
        r == has_debug_suffix(lowercase(name@)),
{
    let lowered = to_lowercase(name);
    is_debug_name(lowered.as_str())
}

/// The (name, version) pairs given by the first two words of each listing
/// line that has two.
pub open spec fn installed_of_lines(ls: Seq<Seq<char>>) -> Seq<(Seq<char>, Seq<char>)>
    decreases ls.len(),
{
    if ls.len() == 0 {
        seq![]
    } else {
        let before = installed_of_lines(ls.drop_last());
        let ws = words(ls.last());
        if ws.len() >= 2 {
            before.push((ws[0], ws[1]))
        } else {
            before
        }
    }
}

/// The texts of (name, version) pairs.
pub open spec fn pair_texts(v: Seq<(String, String)>) -> Seq<(Seq<char>, Seq<char>)> {
    v.map_values(|p: (String, String)| (p.0@, p.1@))
}

/// The installed foreign packages and their versions, read from a
/// `pacman -Qm` listing: the first two words of each line that has two.
pub fn parse_installed(listing: &str) -> (r: Vec<(String, String)>)
    ensures
        pair_texts(r@) == installed_of_lines(split_lines(listing@)),
{
    let v = str_chars(listing);
    let lines = line_bounds(&v);
    let ghost ls = split_lines(v@);
    let mut r: Vec<(String, String)> = Vec::new();
    let mut k: usize = 0;
    while k < lines.len()
        invariant
            v@ == listing@,
            ls == split_lines(v@),
            bounds_of(v@, lines@, ls),
            k <= lines.len(),
            pair_texts(r@) == installed_of_lines(ls.take(k as int)),
        decreases lines.len() - k,
    {
        let (lo, hi) = lines[k];
        let ws = word_bounds(&v, lo, hi);
        assert(ls.take(k + 1).drop_last() =~= ls.take(k as int));
        assert(ls[k as int] == v@.subrange(lo as int, hi as int));
        if ws.len() >= 2 {
            let (a, b) = ws[0];
            let (c, d) = ws[1];
            let name = string_of(&v, a, b);
            let version = string_of(&v, c, d);
            let ghost entry = (name@, version@);
            r.push((name, version));
            assert(pair_texts(r@) =~= installed_of_lines(ls.take(k as int)).push(entry));
        }
        k = k + 1;
    }
    assert(ls.take(k as int) =~= ls);
    r
}

} // verus!
