use vstd::prelude::*;

use crate::order::{
    distinct_in, in_key_order, is_permutation, is_rearrangement, key_before, lemma_lex_total, lex_le,
    sort_indices,
};
use crate::text::{
    bounds_of, contains_char, find_char, first_index, is_first_index, lemma_first_index,
    lemma_split_lines_around, lemma_split_scan_piece, is_white_space,
    line_bounds, occurs, occurs_in, push_char, split_lines, split_scan, starts_with, starts_with_at, string_of,
    str_chars, trim, trim_bounds, word_bounds, words,
};
use crate::GITHUB_AUR_MIRROR_RAW_BASE;

verus! {

/// The key of the version assignment.
pub open spec fn pkgver_key() -> Seq<char> {
    seq!['p', 'k', 'g', 'v', 'e', 'r']
}

/// The key of the release assignment.
pub open spec fn pkgrel_key() -> Seq<char> {
    seq!['p', 'k', 'g', 'r', 'e', 'l']
}

/// Where a line-by-line reading of a PKGBUILD stands.
pub enum PkgbuildScan {
    /// Still reading, with the version and release assigned so far.
    Reading { ver: Option<Seq<char>>, rel: Option<Seq<char>> },
    /// Both were assigned; the reading stopped there.
    Complete { ver: Option<Seq<char>>, rel: Option<Seq<char>> },
    /// A value computed by the shell (`$` or `(`) was met; no version can be read.
    Dynamic,
    /// An assigned value is a single quote character, which the reader
    /// cannot strip as a pair of quotes.
    LoneQuote,
}

/// What follows the first `=` of the line `l`, trimmed.
pub open spec fn assigned_value(l: Seq<char>) -> Seq<char> {
    trim(l.skip(first_index(l, '=') + 1))
}

/// Whether `v` begins and ends with the same quote character, `'` or `"`.
pub open spec fn quoted(v: Seq<char>) -> bool {
    v.len() > 0 && ((v[0] == '\'' && v.last() == '\'') || (v[0] == '"' && v.last() == '"'))
}

/// `v` with its enclosing quotes removed.
pub open spec fn unquoted(v: Seq<char>) -> Seq<char> {
    if quoted(v) {
        v.subrange(1, v.len() - 1)
    } else {
        v
    }
}

/// Whether a value is computed by the shell rather than written out.
pub open spec fn is_dynamic(v: Seq<char>) -> bool {
    v.contains('$') || v.contains('(')
}

/// The reading goes on, or stops once both values are known.
pub open spec fn settle(ver: Option<Seq<char>>, rel: Option<Seq<char>>) -> PkgbuildScan {
    if ver is Some && rel is Some {
        PkgbuildScan::Complete { ver, rel }
    } else {
        PkgbuildScan::Reading { ver, rel }
    }
}

/// Whether the trimmed line `l` assigns to `key`.
pub open spec fn assigns(l: Seq<char>, key: Seq<char>) -> bool {
    starts_with(l, key) && l.contains('=')
}

/// One line read with the version `ver` and release `rel` known so far.
pub open spec fn read_line(
    ver: Option<Seq<char>>,
    rel: Option<Seq<char>>,
    line: Seq<char>,
) -> PkgbuildScan {
    let l = trim(line);
    let val = assigned_value(l);
    if l.len() > 0 && l[0] == '#' {
        PkgbuildScan::Reading { ver, rel }
    } else if assigns(l, pkgver_key()) || assigns(l, pkgrel_key()) {
        if quoted(val) && val.len() == 1 {
            PkgbuildScan::LoneQuote
        } else if is_dynamic(unquoted(val)) {
            PkgbuildScan::Dynamic
        } else if assigns(l, pkgver_key()) {
            settle(Some(unquoted(val)), rel)
        } else {
            settle(ver, Some(unquoted(val)))
        }
    } else {
        settle(ver, rel)
    }
}

/// The reading of the lines `ls`, first to last.
pub open spec fn scan_lines(ls: Seq<Seq<char>>) -> PkgbuildScan
    decreases ls.len(),
{
    if ls.len() == 0 {
        PkgbuildScan::Reading { ver: None, rel: None }
    } else {
        match scan_lines(ls.drop_last()) {
            PkgbuildScan::Reading { ver, rel } => read_line(ver, rel, ls.last()),
            done => done,
        }
    }
}

/// The reading of the PKGBUILD text `text`.
pub open spec fn scan_pkgbuild(text: Seq<char>) -> PkgbuildScan {
    scan_lines(split_lines(text))
}

/// `ver-rel`, or `ver` alone, or nothing without a version.
pub open spec fn joined_version(ver: Option<Seq<char>>, rel: Option<Seq<char>>) -> Option<
    Seq<char>,
> {
    match (ver, rel) {
        (Some(v), Some(r)) => Some(v + seq!['-'] + r),
        (Some(v), None) => Some(v),
        _ => None,
    }
}

/// The version that the PKGBUILD text `text` declares.
pub open spec fn pkgbuild_version(text: Seq<char>) -> Option<Seq<char>> {
    match scan_pkgbuild(text) {
        PkgbuildScan::Reading { ver, rel } => joined_version(ver, rel),
        PkgbuildScan::Complete { ver, rel } => joined_version(ver, rel),
        _ => None,
    }
}

proof fn lemma_scan_stops(ls: Seq<Seq<char>>, k: int, m: int)
    requires
        0 <= k <= m <= ls.len(),
        !(scan_lines(ls.take(k)) is Reading),
    ensures
        scan_lines(ls.take(m)) == scan_lines(ls.take(k)),
    decreases m - k,
{
    if m > k {
        lemma_scan_stops(ls, k, m - 1);
        assert(ls.take(m).drop_last() =~= ls.take(m - 1));
    }
}

/// Once the reading has stopped (both values known, or a value that cannot
/// be read), the lines that follow change nothing.
pub proof fn lemma_later_lines_ignored(before: Seq<Seq<char>>, after: Seq<Seq<char>>)
    requires
        !(scan_lines(before) is Reading),
    ensures
        scan_lines(before + after) == scan_lines(before),
{
    let ls = before + after;
    assert(ls.take(before.len() as int) =~= before);
    assert(ls.take(ls.len() as int) =~= ls);
    lemma_scan_stops(ls, before.len() as int, ls.len() as int);
}

/// While the reading goes on, the version and the release are not both known.
pub proof fn lemma_reading_lacks_one(ls: Seq<Seq<char>>)
    ensures
        scan_lines(ls) matches PkgbuildScan::Reading { ver, rel } ==> !(ver is Some && rel is Some),
    decreases ls.len(),
{
    if ls.len() > 0 {
        lemma_reading_lacks_one(ls.drop_last());
    }
}

/// Whether the line changes nothing in the reading: a comment, or a line
/// that assigns neither `pkgver` nor `pkgrel`.
pub open spec fn is_ignorable(line: Seq<char>) -> bool {
    let l = trim(line);
    (l.len() > 0 && l[0] == '#') || !(assigns(l, pkgver_key()) || assigns(l, pkgrel_key()))
}

/// A comment line, or any line that assigns neither `pkgver` nor `pkgrel`,
/// changes nothing that is read, wherever it stands.
pub proof fn lemma_ignorable_line(before: Seq<Seq<char>>, line: Seq<char>, after: Seq<Seq<char>>)
    requires
        is_ignorable(line),
    ensures
        scan_lines(before + seq![line] + after) == scan_lines(before + after),
    decreases after.len(),
{
    if after.len() == 0 {
        assert(before + seq![line] + after =~= before.push(line));
        assert(before + after =~= before);
        assert(before.push(line).drop_last() =~= before);
        lemma_reading_lacks_one(before);
    } else {
        lemma_ignorable_line(before, line, after.drop_last());
        assert((before + seq![line] + after).drop_last() =~= before + seq![line] + after.drop_last());
        assert((before + after).drop_last() =~= before + after.drop_last());
    }
}

/// In a PKGBUILD text, a comment line, or any line that assigns neither
/// `pkgver` nor `pkgrel`, changes nothing that is read, wherever it stands.
pub proof fn lemma_ignorable_text_line(before: Seq<char>, line: Seq<char>, after: Seq<char>)
    requires
        before.len() == 0 || before.last() == '\n',
        !line.contains('\n'),
        is_ignorable(line),
    ensures
        scan_pkgbuild(before + line + seq!['\n'] + after) == scan_pkgbuild(before + after),
        pkgbuild_version(before + line + seq!['\n'] + after) == pkgbuild_version(before + after),
{
    lemma_split_lines_around(before, line, after);
    lemma_ignorable_line(split_scan(before, '\n').0, line, split_lines(after));
}

/// Whether `x` is a plain value: no white space, quotes, `$` or `(`.
pub open spec fn is_plain_value(x: Seq<char>) -> bool {
    forall|i: int|
        0 <= i < x.len() ==> {
            &&& !is_white_space(#[trigger] x[i])
            &&& x[i] != '\'' && x[i] != '"' && x[i] != '$' && x[i] != '('
        }
}

/// Whether `q` is no quote, a single quote or a double quote.
pub open spec fn is_quote_choice(q: Seq<char>) -> bool {
    q == Seq::<char>::empty() || q == seq!['\''] || q == seq!['"']
}

proof fn lemma_trim_fixed(s: Seq<char>)
    requires
        s.len() > 0 ==> !is_white_space(s[0]) && !is_white_space(s.last()),
    ensures
        trim(s) == s,
{
}

/// The line `key=<q>x<q>`, read on its own.
proof fn lemma_assignment_line(key: Seq<char>, q: Seq<char>, x: Seq<char>)
    requires
        key == pkgver_key() || key == pkgrel_key(),
        is_quote_choice(q),
        is_plain_value(x),
    ensures
        ({
            let l = key + seq!['='] + q + x + q;
            &&& !l.contains('\n')
            &&& trim(l) == l
            &&& assigns(l, key)
            &&& assigned_value(l) == q + x + q
            &&& !(quoted(q + x + q) && (q + x + q).len() == 1)
            &&& unquoted(q + x + q) == x
            &&& !is_dynamic(x)
        }),
{
    let l = key + seq!['='] + q + x + q;
    let v = q + x + q;
    assert(l.len() == 7 + v.len());
    assert forall|i: int| 0 <= i < l.len() implies l[i] != '\n' by {
        if i >= 7 + q.len() && i < 7 + q.len() + x.len() {
            assert(l[i] == x[i - 7 - q.len()]);
        } else if i >= 7 {
            assert(l[i] == v[i - 7]);
        }
    }
    assert(l[0] == 'p');
    if v.len() > 0 {
        assert(l.last() == v.last());
        if q.len() > 0 {
            assert(v.last() == q[0]);
        } else {
            assert(v.last() == x[x.len() - 1]);
        }
    } else {
        assert(l.last() == '=');
    }
    lemma_trim_fixed(l);
    assert(l.take(6) =~= key);
    assert(l[6] == '=');
    assert(is_first_index(l, '=', 6));
    lemma_first_index(l, '=', 6);
    assert(l.skip(7) =~= v);
    if v.len() > 0 {
        if q.len() > 0 {
            assert(v[0] == q[0]);
            assert(v.last() == q[0]);
        } else {
            assert(v[0] == x[0]);
            assert(v.last() == x[x.len() - 1]);
        }
    }
    lemma_trim_fixed(v);
    if q.len() > 0 {
        assert(v[0] == q[0] && v.last() == q[0]);
        assert(quoted(v));
        assert(v.subrange(1, v.len() - 1) =~= x);
    } else {
        assert(v =~= x);
        if x.len() > 0 {
            assert(x[0] != '\'' && x[0] != '"');
        }
        assert(!quoted(v));
    }
    if x.contains('$') {
        let i = choose|i: int| 0 <= i < x.len() && x[i] == '$';
        assert(x[i] != '$');
    }
    if x.contains('(') {
        let i = choose|i: int| 0 <= i < x.len() && x[i] == '(';
        assert(x[i] != '(');
    }
}

/// Quoting does not change the version read: for plain values `x` and `r`,
/// the PKGBUILD `pkgver=x`, `pkgver='x'` or `pkgver="x"` followed by a line
/// `pkgrel=r` (written plain or quoted in the same ways) declares exactly
/// `x-r`, never with the quotes.
pub proof fn lemma_quotes_do_not_change_version(q: Seq<char>, x: Seq<char>, p: Seq<char>, r: Seq<char>)
    requires
        is_quote_choice(q),
        is_quote_choice(p),
        is_plain_value(x),
        is_plain_value(r),
    ensures
        pkgbuild_version(
            seq!['p', 'k', 'g', 'v', 'e', 'r', '='] + q + x + q + seq!['\n'] + seq![
                'p',
                'k',
                'g',
                'r',
                'e',
                'l',
                '=',
            ] + p + r + p,
        ) == Some(x + seq!['-'] + r),
{
    let l1 = pkgver_key() + seq!['='] + q + x + q;
    let l2 = pkgrel_key() + seq!['='] + p + r + p;
    lemma_assignment_line(pkgver_key(), q, x);
    lemma_assignment_line(pkgrel_key(), p, r);
    let text = seq!['p', 'k', 'g', 'v', 'e', 'r', '='] + q + x + q + seq!['\n'] + seq![
        'p',
        'k',
        'g',
        'r',
        'e',
        'l',
        '=',
    ] + p + r + p;
    assert(text =~= Seq::<char>::empty() + l1 + seq!['\n'] + l2);
    lemma_split_lines_around(Seq::<char>::empty(), l1, l2);
    lemma_split_scan_piece(l2, '\n');
    assert(split_scan(Seq::<char>::empty(), '\n').0 =~= Seq::<Seq<char>>::empty());
    let ls = split_lines(text);
    assert(ls =~= seq![l1, l2]);
    assert(!starts_with(l2, pkgver_key())) by {
        assert(l2.take(6)[3] != pkgver_key()[3]);
    }
    assert(ls.drop_last() =~= seq![l1]);
    assert(seq![l1].drop_last() =~= Seq::<Seq<char>>::empty());
    assert(l1[0] == 'p');
    assert(l2[0] == 'p');
    assert(seq![l1].last() == l1);
    assert(ls.last() == l2);
    assert(scan_lines(Seq::<Seq<char>>::empty()) == (PkgbuildScan::Reading { ver: None, rel: None }));
    assert(assigned_value(trim(l1)) == q + x + q);
    assert(read_line(None, None, l1) == (PkgbuildScan::Reading { ver: Some(x), rel: None }));
    assert(scan_lines(seq![l1]) == (PkgbuildScan::Reading { ver: Some(x), rel: None }));
    assert(read_line(Some(x), None, l2) == (PkgbuildScan::Complete { ver: Some(x), rel: Some(r) }));
    assert(scan_lines(ls) == (PkgbuildScan::Complete { ver: Some(x), rel: Some(r) }));
}

/// Bounds within a text, or none.
pub open spec fn piece(v: Seq<char>, b: Option<(usize, usize)>) -> Option<Seq<char>> {
    match b {
        Some(b) => Some(v.subrange(b.0 as int, b.1 as int)),
        None => None,
    }
}

/// Whether the bounds `b` lie within `v`.
pub open spec fn piece_fits(v: Seq<char>, b: Option<(usize, usize)>) -> bool {
    b matches Some(b) ==> b.0 <= b.1 <= v.len()
}

/// Executable state of the reading, with values held as bounds in the text.
enum Scan {
    Reading(Option<(usize, usize)>, Option<(usize, usize)>),
    Complete(Option<(usize, usize)>, Option<(usize, usize)>),
    Dynamic,
    LoneQuote,
}

spec fn scan_fits(v: Seq<char>, s: Scan) -> bool {
    match s {
        Scan::Reading(a, b) => piece_fits(v, a) && piece_fits(v, b),
        Scan::Complete(a, b) => piece_fits(v, a) && piece_fits(v, b),
        _ => true,
    }
}

spec fn scan_view(v: Seq<char>, s: Scan) -> PkgbuildScan {
    match s {
        Scan::Reading(a, b) => PkgbuildScan::Reading { ver: piece(v, a), rel: piece(v, b) },
        Scan::Complete(a, b) => PkgbuildScan::Complete { ver: piece(v, a), rel: piece(v, b) },
        Scan::Dynamic => PkgbuildScan::Dynamic,
        Scan::LoneQuote => PkgbuildScan::LoneQuote,
    }
}

fn settle_bounds(ver: Option<(usize, usize)>, rel: Option<(usize, usize)>) -> (r: Scan)
    ensures
        forall|v: Seq<char>| #[trigger] scan_view(v, r) == settle(piece(v, ver), piece(v, rel)),
        forall|v: Seq<char>|
            piece_fits(v, ver) && piece_fits(v, rel) ==> #[trigger] scan_fits(v, r),
{
    if ver.is_some() && rel.is_some() {
        Scan::Complete(ver, rel)
    } else {
        Scan::Reading(ver, rel)
    }
}

/// The line `v[lo..hi]` read with the version `ver` and release `rel`.
fn read_line_bounds(
    v: &Vec<char>,
    lo: usize,
    hi: usize,
    ver: Option<(usize, usize)>,
    rel: Option<(usize, usize)>,
) -> (r: Scan)
    requires
        lo <= hi <= v.len(),
        piece_fits(v@, ver),
        piece_fits(v@, rel),
    ensures
        scan_fits(v@, r),
        scan_view(v@, r) == read_line(piece(v@, ver), piece(v@, rel), v@.subrange(lo as int, hi as int)),
{
    let ghost line = v@.subrange(lo as int, hi as int);
    let (a, b) = trim_bounds(v, lo, hi);
    let ghost l = trim(line);
    assert(l == v@.subrange(a as int, b as int));
    if a < b && v[a] == '#' {
        return Scan::Reading(ver, rel);
    }
    let ver_key = vec!['p', 'k', 'g', 'v', 'e', 'r'];
    let rel_key = vec!['p', 'k', 'g', 'r', 'e', 'l'];
    assert(ver_key@ =~= pkgver_key());
    assert(rel_key@ =~= pkgrel_key());
    let is_ver = starts_with_at(v, a, b, &ver_key);
    let is_rel = starts_with_at(v, a, b, &rel_key);
    if !is_ver && !is_rel {
        return settle_bounds(ver, rel);
    }
    match find_char(v, a, b, '=') {
        None => {
            settle_bounds(ver, rel)
        },
        Some(k) => {
            proof {
                lemma_first_index(l, '=', k - a);
                assert(l.skip(k - a + 1) =~= v@.subrange(k + 1, b as int));
                assert(l[k - a] == '=');
            }
            let (c, d) = trim_bounds(v, k + 1, b);
            let ghost val = assigned_value(l);
            assert(val == v@.subrange(c as int, d as int));
            let q = c < d && ((v[c] == '\'' && v[d - 1] == '\'') || (v[c] == '"' && v[d - 1]
                == '"'));
            assert(q == quoted(val));
            if q && d - c == 1 {
                return Scan::LoneQuote;
            }
            let (uc, ud) = if q {
                (c + 1, d - 1)
            } else {
                (c, d)
            };
            assert(unquoted(val) =~= v@.subrange(uc as int, ud as int));
            if contains_char(v, uc, ud, '$') || contains_char(v, uc, ud, '(') {
                return Scan::Dynamic;
            }
            if is_ver {
                settle_bounds(Some((uc, ud)), rel)
            } else {
                settle_bounds(ver, Some((uc, ud)))
            }
        },
    }
}

/// The reading of the whole text `v`.
fn scan_text(v: &Vec<char>) -> (r: Scan)
    ensures
        scan_fits(v@, r),
        !(r is Reading) ==> scan_view(v@, r) == scan_pkgbuild(v@),
        r matches Scan::Reading(a, b) ==> scan_pkgbuild(v@) == (PkgbuildScan::Reading {
            ver: piece(v@, a),
            rel: piece(v@, b),
        }),
{
    let lines = line_bounds(v);
    let ghost ls = split_lines(v@);
    let mut state = Scan::Reading(None, None);
    let mut k: usize = 0;
    assert(ls.take(0) =~= Seq::<Seq<char>>::empty());
    while k < lines.len()
        invariant
            k <= lines.len(),
            crate::text::bounds_of(v@, lines@, ls),
            ls == split_lines(v@),
            state is Reading,
            scan_fits(v@, state),
            scan_view(v@, state) == scan_lines(ls.take(k as int)),
        decreases lines.len() - k,
    {
        let (lo, hi) = lines[k];
        let (ver, rel) = match state {
            Scan::Reading(a, b) => (a, b),
            _ => (None, None),
        };
        let next = read_line_bounds(v, lo, hi, ver, rel);
        assert(ls.take(k + 1).drop_last() =~= ls.take(k as int));
        assert(ls[k as int] == v@.subrange(lo as int, hi as int));
        assert(scan_view(v@, next) == scan_lines(ls.take(k + 1)));
        let stopped = match next {
            Scan::Reading(..) => false,
            _ => true,
        };
        if stopped {
            proof {
                lemma_scan_stops(ls, k + 1, ls.len() as int);
                assert(ls.take(ls.len() as int) =~= ls);
            }
            return next;
        }
        state = next;
        k = k + 1;
    }
    assert(ls.take(k as int) =~= ls);
    state
}

/// Whether a line of `build` assigns a lone quote character to `pkgver` or
/// `pkgrel` before the version is known, which the version reader cannot
/// strip as a pair of quotes.
pub fn pkgbuild_has_lone_quote(build: &str) -> (r: bool)
    ensures
        r == (scan_pkgbuild(build@) is LoneQuote),
{
    let v = str_chars(build);
    match scan_text(&v) {
        Scan::LoneQuote => true,
        _ => false,
    }
}

/// The version that the PKGBUILD text `build` declares: the last `pkgver`
/// written out before the reading stops, followed by `-` and the `pkgrel`
/// where one was found. Comment lines are skipped, values may be quoted, and
/// a value computed by the shell gives no version.
pub fn parse_pkgbuild_version(build: &str) -> (r: Option<String>)
    requires
        !(scan_pkgbuild(build@) is LoneQuote),
    ensures
        match r {
            Some(s) => pkgbuild_version(build@) == Some(s@),
            None => pkgbuild_version(build@) is None,
        },
{
    let v = str_chars(build);
    let (ver, rel) = match scan_text(&v) {
        Scan::Reading(a, b) => (a, b),
        Scan::Complete(a, b) => (a, b),
        _ => {
            return None;
        },
    };
    match (ver, rel) {
        (Some((a, b)), Some((c, d))) => {
            let mut s = string_of(&v, a, b);
            push_char(&mut s, '-');
            let r = string_of(&v, c, d);
            s.append(r.as_str());
            Some(s)
        },
        (Some((a, b)), None) => Some(string_of(&v, a, b)),
        _ => None,
    }
}

/// The outcome of a request for a PKGBUILD on the GitHub mirror.
pub enum PkgbuildState {
    /// The PKGBUILD text.
    Result(String),
    /// The mirror has no such package.
    NotFound,
    /// The mirror answered with another failure.
    OtherError,
}

/// The address of the raw PKGBUILD of the package `pkg` on the GitHub mirror.
pub fn pkgbuild_url(pkg: &str) -> (u: String)
    ensures
        u@ == GITHUB_AUR_MIRROR_RAW_BASE@ + "/"@ + pkg@ + "/PKGBUILD"@,
{
    let mut u = String::from_str(GITHUB_AUR_MIRROR_RAW_BASE);
    u.append("/");
    u.append(pkg);
    u.append("/PKGBUILD");
    u
}

/// Whether an HTTP status code reports success (`2xx`).
pub fn is_success_status(status: u16) -> (r: bool)
    ensures
        r == (200 <= status <= 299),
{
    200 <= status && status <= 299
}

/// The outcome of a PKGBUILD request answered with `status`; `body` is the
/// text of a successful answer.
pub fn pkgbuild_state(status: u16, body: String) -> (r: PkgbuildState)
    ensures
        200 <= status <= 299 ==> r == PkgbuildState::Result(body),
        !(200 <= status <= 299) && status == 404 ==> r is NotFound,
        !(200 <= status <= 299) && status != 404 ==> r is OtherError,
{
    if !is_success_status(status) {
        if status == 404 {
            return PkgbuildState::NotFound;
        }
        return PkgbuildState::OtherError;
    }
    PkgbuildState::Result(body)
}

/// The prefix of branch references in a `git ls-remote --heads` listing.
pub open spec fn heads_prefix() -> Seq<char> {
    seq!['r', 'e', 'f', 's', '/', 'h', 'e', 'a', 'd', 's', '/']
}

/// The branch that a reference names.
pub open spec fn branch_name(reference: Seq<char>) -> Seq<char> {
    if starts_with(reference, heads_prefix()) {
        reference.skip(heads_prefix().len() as int)
    } else {
        reference
    }
}

/// The branches named by the second word of each listing line that has one.
pub open spec fn branches_of_lines(ls: Seq<Seq<char>>) -> Seq<Seq<char>>
    decreases ls.len(),
{
    if ls.len() == 0 {
        seq![]
    } else {
        let before = branches_of_lines(ls.drop_last());
        let ws = words(ls.last());
        if ws.len() >= 2 {
            before.push(branch_name(ws[1]))
        } else {
            before
        }
    }
}

/// The branches of a `git ls-remote --heads` listing.
pub open spec fn mirror_branches(listing: Seq<char>) -> Seq<Seq<char>> {
    branches_of_lines(split_lines(listing))
}

/// The texts of the strings `v`.
pub open spec fn texts(v: Seq<String>) -> Seq<Seq<char>> {
    v.map_values(|s: String| s@)
}

/// The package branches of a `git ls-remote --heads` listing of the mirror:
/// for each line, its second word without the `refs/heads/` prefix.
pub fn parse_mirror_branches(listing: &str) -> (r: Vec<String>)
    ensures
        texts(r@) == mirror_branches(listing@),
{
    let v = str_chars(listing);
    let lines = line_bounds(&v);
    let ghost ls = split_lines(v@);
    let prefix = vec!['r', 'e', 'f', 's', '/', 'h', 'e', 'a', 'd', 's', '/'];
    assert(prefix@ =~= heads_prefix());
    let mut r: Vec<String> = Vec::new();
    let mut k: usize = 0;
    while k < lines.len()
        invariant
            v@ == listing@,
            ls == split_lines(v@),
            bounds_of(v@, lines@, ls),
            prefix@ == heads_prefix(),
            k <= lines.len(),
            texts(r@) == branches_of_lines(ls.take(k as int)),
        decreases lines.len() - k,
    {
        let (lo, hi) = lines[k];
        let ws = word_bounds(&v, lo, hi);
        assert(ls.take(k + 1).drop_last() =~= ls.take(k as int));
        assert(ls[k as int] == v@.subrange(lo as int, hi as int));
        if ws.len() >= 2 {
            let (a, b) = ws[1];
            let name = if starts_with_at(&v, a, b, &prefix) {
                assert(v@.subrange(a as int, b as int).skip(11) =~= v@.subrange(a + 11, b as int));
                string_of(&v, a + 11, b)
            } else {
                string_of(&v, a, b)
            };
            r.push(name);
            assert(texts(r@) =~= branches_of_lines(ls.take(k as int)).push(name@));
        }
        k = k + 1;
    }
    assert(ls.take(k as int) =~= ls);
    r
}

/// Whether the mirror listing `list` holds the package `pkg`.
pub fn github_package_exists(pkg: &str, list: &[String]) -> (r: bool)
    ensures
        r == exists|i: int| 0 <= i < list@.len() && (#[trigger] list@[i])@ == pkg@,
{
    let wanted = String::from_str(pkg);
    let mut i: usize = 0;
    while i < list.len()
        invariant
            wanted@ == pkg@,
            i <= list@.len(),
            forall|j: int| 0 <= j < i ==> (#[trigger] list@[j])@ != pkg@,
        decreases list@.len() - i,
    {
        if list[i] == wanted {
            assert(list@[i as int]@ == pkg@);
            return true;
        }
        i = i + 1;
    }
    false
}

/// The code points of `s`.
pub open spec fn code_points(s: Seq<char>) -> Seq<i64> {
    s.map_values(|c: char| (c as u32) as i64)
}

/// The order of strings: lexicographic by code points, which is the order of
/// their UTF-8 bytes.
pub open spec fn text_le(a: Seq<char>, b: Seq<char>) -> bool {
    lex_le(code_points(a), code_points(b))
}

/// Whether `a` comes first in dictionary order: `a` is a prefix of `b`, or at
/// the first position where they differ the character of `a` has the smaller
/// code point.
pub open spec fn dictionary_before(a: Seq<char>, b: Seq<char>) -> bool {
    ||| a.len() <= b.len() && forall|i: int| 0 <= i < a.len() ==> a[i] == b[i]
    ||| exists|k: int|
        0 <= k < a.len() && k < b.len() && (forall|i: int| 0 <= i < k ==> a[i] == b[i]) && (
        #[trigger] a[k] as u32) < (b[k] as u32)
}

/// A character is identified by its code point.
proof fn lemma_code_point_identifies(x: char, y: char)
    requires
        x as u32 == y as u32,
    ensures
        x == y,
{
}

/// The order of branch names is the full dictionary order of the names,
/// every character counting.
pub proof fn lemma_text_order(a: Seq<char>, b: Seq<char>)
    ensures
        text_le(a, b) <==> dictionary_before(a, b),
    decreases a.len(),
{
    let ca = code_points(a);
    let cb = code_points(b);
    if a.len() == 0 {
    } else if b.len() == 0 {
        if dictionary_before(a, b) {
            let k = choose|k: int|
                0 <= k < a.len() && k < b.len() && (forall|i: int| 0 <= i < k ==> a[i] == b[i])
                    && (#[trigger] a[k] as u32) < (b[k] as u32);
        }
    } else {
        assert(ca[0] == (a[0] as u32) as i64);
        assert(cb[0] == (b[0] as u32) as i64);
        if a[0] != b[0] {
            if (a[0] as u32) == (b[0] as u32) {
                lemma_code_point_identifies(a[0], b[0]);
            }
            assert(ca[0] != cb[0]);
            if (a[0] as u32) < (b[0] as u32) {
                assert(dictionary_before(a, b)) by {
                    assert(0 <= 0 < a.len() && 0 < b.len() && (forall|i: int| 0 <= i < 0 ==> a[i] == b[i]) && (a[0] as u32) < (b[0] as u32));
                }
            } else {
                if dictionary_before(a, b) {
                    if exists|k: int|
                        0 <= k < a.len() && k < b.len() && (forall|i: int| 0 <= i < k ==> a[i] == b[i])
                            && (#[trigger] a[k] as u32) < (b[k] as u32) {
                        let k = choose|k: int|
                            0 <= k < a.len() && k < b.len() && (forall|i: int| 0 <= i < k ==> a[i] == b[i])
                                && (#[trigger] a[k] as u32) < (b[k] as u32);
                        if k > 0 {
                            assert(a[0] == b[0]);
                        }
                    } else {
                        assert(a[0] == b[0]);
                    }
                }
            }
        } else {
            let a1 = a.drop_first();
            let b1 = b.drop_first();
            assert(ca.drop_first() =~= code_points(a1));
            assert(cb.drop_first() =~= code_points(b1));
            lemma_text_order(a1, b1);
            if dictionary_before(a1, b1) {
                if a1.len() <= b1.len() && forall|i: int| 0 <= i < a1.len() ==> a1[i] == b1[i] {
                    assert forall|i: int| 0 <= i < a.len() implies a[i] == b[i] by {
                        if i > 0 {
                            assert(a[i] == a1[i - 1]);
                            assert(b[i] == b1[i - 1]);
                        }
                    }
                } else {
                    let k = choose|k: int|
                        0 <= k < a1.len() && k < b1.len() && (forall|i: int| 0 <= i < k ==> a1[i] == b1[i])
                            && (#[trigger] a1[k] as u32) < (b1[k] as u32);
                    assert forall|i: int| 0 <= i < k + 1 implies a[i] == b[i] by {
                        if i > 0 {
                            assert(a[i] == a1[i - 1]);
                            assert(b[i] == b1[i - 1]);
                        }
                    }
                    assert(a[k + 1] == a1[k]);
                    assert(b[k + 1] == b1[k]);
                }
            }
            if dictionary_before(a, b) {
                if a.len() <= b.len() && forall|i: int| 0 <= i < a.len() ==> a[i] == b[i] {
                    assert forall|i: int| 0 <= i < a1.len() implies a1[i] == b1[i] by {
                        assert(a[i + 1] == b[i + 1]);
                    }
                } else {
                    let k = choose|k: int|
                        0 <= k < a.len() && k < b.len() && (forall|i: int| 0 <= i < k ==> a[i] == b[i])
                            && (#[trigger] a[k] as u32) < (b[k] as u32);
                    assert(k > 0);
                    assert forall|i: int| 0 <= i < k - 1 implies a1[i] == b1[i] by {
                        assert(a[i + 1] == b[i + 1]);
                    }
                    assert(a1[k - 1] == a[k]);
                    assert(b1[k - 1] == b[k]);
                }
            }
        }
    }
}

/// The branches among `bs` in which `term` occurs, in their order.
pub open spec fn branches_matching(bs: Seq<Seq<char>>, term: Seq<char>) -> Seq<Seq<char>>
    decreases bs.len(),
{
    if bs.len() == 0 {
        seq![]
    } else {
        let before = branches_matching(bs.drop_last(), term);
        if occurs_in(term, bs.last()) {
            before.push(bs.last())
        } else {
            before
        }
    }
}

/// The branches found are exactly the branches of the listing in which the
/// term occurs.
pub proof fn lemma_matching_branches(bs: Seq<Seq<char>>, term: Seq<char>)
    ensures
        forall|x: Seq<char>|
            #[trigger] branches_matching(bs, term).contains(x) <==> (bs.contains(x) && occurs_in(
                term,
                x,
            )),
    decreases bs.len(),
{
    if bs.len() > 0 {
        let before = bs.drop_last();
        lemma_matching_branches(before, term);
        let found = branches_matching(bs, term);
        let prev = branches_matching(before, term);
        assert forall|x: Seq<char>| #[trigger] found.contains(x) <==> (bs.contains(x) && occurs_in(term, x)) by {
            if found.contains(x) {
                let i = choose|i: int| 0 <= i < found.len() && found[i] == x;
                if i < prev.len() {
                    assert(prev[i] == x);
                    assert(prev.contains(x));
                    assert(before.contains(x));
                    let j = choose|j: int| 0 <= j < before.len() && before[j] == x;
                    assert(bs[j] == x);
                } else {
                    assert(bs[bs.len() - 1] == x);
                }
            }
            if bs.contains(x) && occurs_in(term, x) {
                let j = choose|j: int| 0 <= j < bs.len() && bs[j] == x;
                if j < bs.len() - 1 {
                    assert(before[j] == x);
                    assert(before.contains(x));
                    assert(prev.contains(x));
                    let i = choose|i: int| 0 <= i < prev.len() && prev[i] == x;
                    assert(found[i] == x);
                } else {
                    assert(found[found.len() - 1] == x);
                }
            }
        }
    }
}

fn code_points_of(s: &String) -> (r: Vec<i64>)
    ensures
        r@ == code_points(s@),
{
    let v = str_chars(s.as_str());
    let mut r: Vec<i64> = Vec::new();
    let mut i: usize = 0;
    while i < v.len()
        invariant
            i <= v.len(),
            v@ == s@,
            r@ == code_points(v@.take(i as int)),
        decreases v.len() - i,
    {
        r.push((v[i] as u32) as i64);
        assert(code_points(v@.take(i + 1)) =~= code_points(v@.take(i as int)).push(
            (v[i as int] as u32) as i64,
        ));
        i = i + 1;
    }
    assert(v@.take(i as int) =~= v@);
    r
}

/// The branches of the mirror listing `branches` in which `term` occurs, in
/// ascending order.
pub fn search_mirror(branches: &Vec<String>, term: &str) -> (r: Vec<String>)
    ensures
        is_rearrangement(branches_matching(texts(branches@), term@), texts(r@)),
        forall|i: int, j: int|
            0 <= i < j < r.len() ==> text_le(#[trigger] r@[i]@, #[trigger] r@[j]@),
        forall|i: int, j: int|
            0 <= i < j < r.len() ==> dictionary_before(#[trigger] r@[i]@, #[trigger] r@[j]@),
{
    let t = str_chars(term);
    let ghost bs = texts(branches@);
    let mut kept: Vec<usize> = Vec::new();
    let mut keys: Vec<Vec<i64>> = Vec::new();
    let mut i: usize = 0;
    while i < branches.len()
        invariant
            t@ == term@,
            bs == texts(branches@),
            i <= branches.len(),
            kept.len() == keys.len(),
            kept.len() == branches_matching(bs.take(i as int), term@).len(),
            forall|m: int|
                0 <= m < kept.len() ==> #[trigger] kept[m] < branches.len() && branches@[kept[m] as int]@
                    == branches_matching(bs.take(i as int), term@)[m],
            forall|m: int|
                0 <= m < keys.len() ==> (#[trigger] keys[m])@ == code_points(
                    branches_matching(bs.take(i as int), term@)[m],
                ),
        decreases branches.len() - i,
    {
        let b = str_chars(branches[i].as_str());
        assert(bs.take(i + 1).drop_last() =~= bs.take(i as int));
        if occurs(&t, &b) {
            kept.push(i);
            keys.push(code_points_of(&branches[i]));
        }
        i = i + 1;
    }
    assert(bs.take(i as int) =~= bs);
    let ghost f = branches_matching(bs, term@);
    let order = sort_indices(&keys);
    let mut r: Vec<String> = Vec::new();
    let mut k: usize = 0;
    while k < order.len()
        invariant
            order.len() == keys.len(),
            kept.len() == keys.len(),
            f.len() == keys.len(),
            distinct_in(order@, 0, keys.len() as int),
            forall|m: int|
                0 <= m < kept.len() ==> #[trigger] kept[m] < branches.len() && branches@[kept[m] as int]@
                    == f[m],
            k <= order.len(),
            r.len() == k,
            forall|m: int| 0 <= m < k ==> (#[trigger] r@[m])@ == f[order[m] as int],
        decreases order.len() - k,
    {
        let s = branches[kept[order[k]]].clone();
        r.push(s);
        k = k + 1;
    }
    proof {
        let p = order@.map_values(|x: usize| x as int);
        assert(is_permutation(p, f.len() as int));
        assert(forall|m: int| 0 <= m < r.len() ==> #[trigger] texts(r@)[m] == f[p[m]]);
        assert forall|i: int, j: int| 0 <= i < j < r.len() implies text_le(
            #[trigger] r@[i]@,
            #[trigger] r@[j]@,
        ) by {
            assert(key_before(keys@, order[i], order[j]));
            lemma_lex_total(keys[order[i] as int]@, keys[order[i] as int]@);
        }
        assert forall|i: int, j: int| 0 <= i < j < r.len() implies dictionary_before(
            #[trigger] r@[i]@,
            #[trigger] r@[j]@,
        ) by {
            lemma_text_order(r@[i]@, r@[j]@);
        }
    }
    r
}

} // verus!
