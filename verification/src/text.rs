use vstd::prelude::*;
use vstd::std_specs::iter::IteratorSpec;

verus! {

/// Whether `c` has the Unicode `White_Space` property, the set that
/// `char::is_whitespace`, `str::trim` and `str::split_whitespace` use.
pub open spec fn is_white_space(c: char) -> bool {
    let u = c as u32;
    ||| 0x09 <= u <= 0x0d
    ||| u == 0x20
    ||| u == 0x85
    ||| u == 0xa0
    ||| u == 0x1680
    ||| 0x2000 <= u <= 0x200a
    ||| u == 0x2028
    ||| u == 0x2029
    ||| u == 0x202f
    ||| u == 0x205f
    ||| u == 0x3000
}

/// Executable form of [`is_white_space`].
pub fn white_space(c: char) -> (r: bool)
    ensures
        r == is_white_space(c),
{
    let u = c as u32;
    (0x09 <= u && u <= 0x0d) || u == 0x20 || u == 0x85 || u == 0xa0 || u == 0x1680 || (0x2000
        <= u && u <= 0x200a) || u == 0x2028 || u == 0x2029 || u == 0x202f || u == 0x205f || u
        == 0x3000
}

/// The characters of `s`, in order.
pub fn str_chars(s: &str) -> (v: Vec<char>)
    ensures
        v@ == s@,
{
    broadcast use vstd::string::group_string_axioms;

    let mut v: Vec<char> = Vec::new();
    for c in it: s.chars()
        invariant
            it.seq() == s@,
            v@ == it.seq().take(it.index()),
    {
        v.push(c);
        assert(v@ =~= it.seq().take(it.index() + 1));
    }
    assert(v@ =~= s@);
    v
}

/// `String::push`: appends the character `c` to `s`. The contract claims that
/// the text of `s` grows by exactly `c`, as the documentation of `push` says.
#[verifier::external_body]
pub(crate) fn push_char(s: &mut String, c: char)
    ensures
        final(s)@ == old(s)@.push(c),
{
    s.push(c);
}

/// A new string holding `v[lo..hi]`.
pub fn string_of(v: &Vec<char>, lo: usize, hi: usize) -> (s: String)
    requires
        lo <= hi <= v.len(),
    ensures
        s@ == v@.subrange(lo as int, hi as int),
{
    let mut s = String::new();
    let mut i = lo;
    while i < hi
        invariant
            lo <= i <= hi <= v.len(),
            s@ == v@.subrange(lo as int, i as int),
        decreases hi - i,
    {
        push_char(&mut s, v[i]);
        assert(s@ =~= v@.subrange(lo as int, i + 1));
        i = i + 1;
    }
    s
}

/// `s` without its leading white space.
pub open spec fn trim_start(s: Seq<char>) -> Seq<char>
    decreases s.len(),
{
    if s.len() > 0 && is_white_space(s[0]) {
        trim_start(s.drop_first())
    } else {
        s
    }
}

/// `s` without its trailing white space.
pub open spec fn trim_end(s: Seq<char>) -> Seq<char>
    decreases s.len(),
{
    if s.len() > 0 && is_white_space(s.last()) {
        trim_end(s.drop_last())
    } else {
        s
    }
}

/// `s` without leading and trailing white space (`str::trim`).
pub open spec fn trim(s: Seq<char>) -> Seq<char> {
    trim_end(trim_start(s))
}

/// The bounds `(a, b)` of `trim(v[lo..hi])` inside `v`.
pub fn trim_bounds(v: &Vec<char>, lo: usize, hi: usize) -> (r: (usize, usize))
    requires
        lo <= hi <= v.len(),
    ensures
        lo <= r.0 <= r.1 <= hi,
        v@.subrange(r.0 as int, r.1 as int) == trim(v@.subrange(lo as int, hi as int)),
{
    let mut a = lo;
    while a < hi && white_space(v[a])
        invariant
            lo <= a <= hi <= v.len(),
            trim_start(v@.subrange(lo as int, hi as int)) == trim_start(
                v@.subrange(a as int, hi as int),
            ),
        decreases hi - a,
    {
        assert(v@.subrange(a as int, hi as int).drop_first() =~= v@.subrange(a + 1, hi as int));
        a = a + 1;
    }
    let mut b = hi;
    while b > a && white_space(v[b - 1])
        invariant
            lo <= a <= b <= hi <= v.len(),
            trim_end(v@.subrange(a as int, hi as int)) == trim_end(
                v@.subrange(a as int, b as int),
            ),
        decreases b - a,
    {
        assert(v@.subrange(a as int, b as int).drop_last() =~= v@.subrange(a as int, b - 1));
        b = b - 1;
    }
    (a, b)
}

/// Pieces of `s` between separators `sep`, as found by a scan from the
/// left: the pieces completed so far and the piece being read.
pub open spec fn split_scan(s: Seq<char>, sep: char) -> (Seq<Seq<char>>, Seq<char>)
    decreases s.len(),
{
    if s.len() == 0 {
        (seq![], seq![])
    } else {
        let (done, cur) = split_scan(s.drop_last(), sep);
        if s.last() == sep {
            (done.push(cur), seq![])
        } else {
            (done, cur.push(s.last()))
        }
    }
}

/// The pieces of `s` between `'\n'` separators. `str::lines` yields the same
/// pieces, but for a trailing empty piece and for a `'\r'` that ends a piece;
/// both are white space or empty, which every reader of lines here trims away.
pub open spec fn split_lines(s: Seq<char>) -> Seq<Seq<char>> {
    let (done, cur) = split_scan(s, '\n');
    done.push(cur)
}

/// Whether `r` lists, in order, the bounds within `v` of the pieces `pieces`.
pub open spec fn bounds_of(v: Seq<char>, r: Seq<(usize, usize)>, pieces: Seq<Seq<char>>) -> bool {
    &&& r.len() == pieces.len()
    &&& forall|k: int|
        0 <= k < r.len() ==> {
            &&& (#[trigger] r[k]).0 <= r[k].1 <= v.len()
            &&& v.subrange(r[k].0 as int, r[k].1 as int) == pieces[k]
        }
}

/// Reading `a` then `b`, where `a` ends at a separator, completes the pieces
/// of `a` and then reads `b` afresh.
pub proof fn lemma_split_scan_append(a: Seq<char>, b: Seq<char>, sep: char)
    requires
        split_scan(a, sep).1.len() == 0,
    ensures
        split_scan(a + b, sep) == (split_scan(a, sep).0 + split_scan(b, sep).0, split_scan(b, sep).1),
    decreases b.len(),
{
    if b.len() == 0 {
        assert(a + b =~= a);
        assert(split_scan(a, sep).0 + split_scan(b, sep).0 =~= split_scan(a, sep).0);
        assert(split_scan(a, sep).1 =~= Seq::<char>::empty());
    } else {
        lemma_split_scan_append(a, b.drop_last(), sep);
        assert((a + b).drop_last() =~= a + b.drop_last());
        assert((a + b).last() == b.last());
        let (d, c) = split_scan(b.drop_last(), sep);
        assert(split_scan(a, sep).0 + d.push(c) =~= (split_scan(a, sep).0 + d).push(c));
    }
}

/// A piece without separators is read whole.
pub proof fn lemma_split_scan_piece(c: Seq<char>, sep: char)
    requires
        !c.contains(sep),
    ensures
        split_scan(c, sep) == (Seq::<Seq<char>>::empty(), c),
    decreases c.len(),
{
    if c.len() > 0 {
        assert(!c.drop_last().contains(sep)) by {
            if c.drop_last().contains(sep) {
                let i = choose|i: int| 0 <= i < c.drop_last().len() && c.drop_last()[i] == sep;
                assert(c[i] == sep);
            }
        }
        lemma_split_scan_piece(c.drop_last(), sep);
        assert(c[c.len() - 1] != sep);
        assert(c.drop_last().push(c.last()) =~= c);
    }
}

/// The lines of `before`, then the line `line`, then the lines of `after`,
/// where `before` is empty or ends with a line break and `line` has none.
pub proof fn lemma_split_lines_around(before: Seq<char>, line: Seq<char>, after: Seq<char>)
    requires
        before.len() == 0 || before.last() == '\n',
        !line.contains('\n'),
    ensures
        split_lines(before + line + seq!['\n'] + after) == split_scan(before, '\n').0 + seq![line]
            + split_lines(after),
        split_lines(before + after) == split_scan(before, '\n').0 + split_lines(after),
{
    assert(split_scan(before, '\n').1.len() == 0) by {
        if before.len() > 0 {
            assert(before.drop_last().push(before.last()) =~= before);
        }
    }
    lemma_split_scan_piece(line, '\n');
    let lb = line + seq!['\n'];
    assert(lb.drop_last() =~= line);
    assert(split_scan(lb, '\n') == (seq![line], Seq::<char>::empty()));
    lemma_split_scan_append(before, lb, '\n');
    assert(before + line + seq!['\n'] + after =~= (before + lb) + after);
    lemma_split_scan_append(before + lb, after, '\n');
    lemma_split_scan_append(before, after, '\n');
    let d = split_scan(before, '\n').0;
    let (da, ca) = split_scan(after, '\n');
    assert((d + seq![line]) + da.push(ca) =~= d + seq![line] + da.push(ca));
    assert((d + da).push(ca) =~= d + da.push(ca));
}

/// The bounds of the lines of `v` (see [`split_lines`]).
pub fn line_bounds(v: &Vec<char>) -> (r: Vec<(usize, usize)>)
    ensures
        bounds_of(v@, r@, split_lines(v@)),
{
    let mut r: Vec<(usize, usize)> = Vec::new();
    let mut start: usize = 0;
    let mut i: usize = 0;
    while i < v.len()
        invariant
            start <= i <= v.len(),
            bounds_of(v@, r@, split_scan(v@.take(i as int), '\n').0),
            split_scan(v@.take(i as int), '\n').1 == v@.subrange(start as int, i as int),
        decreases v.len() - i,
    {
        assert(v@.take(i + 1).drop_last() =~= v@.take(i as int));
        if v[i] == '\n' {
            r.push((start, i));
            start = i + 1;
            assert(v@.subrange(start as int, i + 1) =~= seq![]);
        } else {
            assert(v@.subrange(start as int, i + 1) =~= v@.subrange(start as int, i as int).push(
                v[i as int],
            ));
        }
        i = i + 1;
    }
    assert(v@.take(i as int) =~= v@);
    r.push((start, i));
    r
}

/// Words of `s` as found by a scan from the left: the words completed so
/// far and the word being read.
pub open spec fn words_scan(s: Seq<char>) -> (Seq<Seq<char>>, Seq<char>)
    decreases s.len(),
{
    if s.len() == 0 {
        (seq![], seq![])
    } else {
        let (done, cur) = words_scan(s.drop_last());
        if is_white_space(s.last()) {
            if cur.len() > 0 {
                (done.push(cur), seq![])
            } else {
                (done, cur)
            }
        } else {
            (done, cur.push(s.last()))
        }
    }
}

/// The maximal runs of non-white-space characters of `s`
/// (`str::split_whitespace`).
pub open spec fn words(s: Seq<char>) -> Seq<Seq<char>> {
    let (done, cur) = words_scan(s);
    if cur.len() > 0 {
        done.push(cur)
    } else {
        done
    }
}

/// The bounds of the words of `v[lo..hi]` (see [`words`]).
pub fn word_bounds(v: &Vec<char>, lo: usize, hi: usize) -> (r: Vec<(usize, usize)>)
    requires
        lo <= hi <= v.len(),
    ensures
        bounds_of(v@, r@, words(v@.subrange(lo as int, hi as int))),
{
    let ghost s = v@.subrange(lo as int, hi as int);
    let mut r: Vec<(usize, usize)> = Vec::new();
    let mut start: usize = lo;
    let mut i: usize = lo;
    while i < hi
        invariant
            lo <= start <= i <= hi <= v.len(),
            s == v@.subrange(lo as int, hi as int),
            bounds_of(v@, r@, words_scan(s.take(i - lo)).0),
            words_scan(s.take(i - lo)).1 == v@.subrange(start as int, i as int),
        decreases hi - i,
    {
        assert(s.take(i - lo + 1).drop_last() =~= s.take(i - lo));
        assert(s.take(i - lo + 1).last() == v[i as int]);
        if white_space(v[i]) {
            if start < i {
                r.push((start, i));
            }
            start = i + 1;
            assert(v@.subrange(start as int, i + 1) =~= seq![]);
        } else {
            assert(v@.subrange(start as int, i + 1) =~= v@.subrange(start as int, i as int).push(
                v[i as int],
            ));
        }
        i = i + 1;
    }
    assert(s.take(i - lo) =~= s);
    if start < i {
        r.push((start, i));
    }
    r
}

/// Whether `s` begins with `p`.
pub open spec fn starts_with(s: Seq<char>, p: Seq<char>) -> bool {
    p.len() <= s.len() && s.take(p.len() as int) == p
}

/// Whether `s` ends with `p`.
pub open spec fn ends_with(s: Seq<char>, p: Seq<char>) -> bool {
    p.len() <= s.len() && s.skip(s.len() - p.len()) == p
}

/// Whether `t` occurs in `s` as a contiguous piece (`str::contains` with a
/// string pattern); the empty `t` occurs in every `s`.
pub open spec fn occurs_in(t: Seq<char>, s: Seq<char>) -> bool {
    exists|i: int| 0 <= i <= s.len() - t.len() && #[trigger] s.subrange(i, i + t.len()) == t
}

/// Whether `k` is the position of the first `c` in `s`.
pub open spec fn is_first_index(s: Seq<char>, c: char, k: int) -> bool {
    &&& 0 <= k < s.len()
    &&& s[k] == c
    &&& forall|j: int| 0 <= j < k ==> s[j] != c
}

/// The position of the first `c` in `s`, where `s` holds one.
pub open spec fn first_index(s: Seq<char>, c: char) -> int {
    choose|k: int| is_first_index(s, c, k)
}

/// The first position is unique, so `first_index` names it.
pub proof fn lemma_first_index(s: Seq<char>, c: char, k: int)
    requires
        is_first_index(s, c, k),
    ensures
        first_index(s, c) == k,
{
    let f = first_index(s, c);
    assert(is_first_index(s, c, f));
    if f < k {
        assert(s[f] != c);
    } else if k < f {
        assert(s[k] != c);
    }
}

/// Whether `v[lo..hi]` begins with `p`.
pub fn starts_with_at(v: &Vec<char>, lo: usize, hi: usize, p: &Vec<char>) -> (r: bool)
    requires
        lo <= hi <= v.len(),
    ensures
        r == starts_with(v@.subrange(lo as int, hi as int), p@),
{
    let ghost s = v@.subrange(lo as int, hi as int);
    if p.len() > hi - lo {
        return false;
    }
    let mut j: usize = 0;
    while j < p.len()
        invariant
            p.len() <= hi - lo,
            lo <= hi <= v.len(),
            s == v@.subrange(lo as int, hi as int),
            j <= p.len(),
            forall|k: int| 0 <= k < j ==> s[k] == p@[k],
        decreases p.len() - j,
    {
        if v[lo + j] != p[j] {
            assert(s.take(p.len() as int)[j as int] != p@[j as int]);
            return false;
        }
        j = j + 1;
    }
    assert(s.take(p.len() as int) =~= p@);
    true
}

/// Whether `v[lo..hi]` ends with `p`.
pub fn ends_with_at(v: &Vec<char>, lo: usize, hi: usize, p: &Vec<char>) -> (r: bool)
    requires
        lo <= hi <= v.len(),
    ensures
        r == ends_with(v@.subrange(lo as int, hi as int), p@),
{
    let ghost s = v@.subrange(lo as int, hi as int);
    if p.len() > hi - lo {
        return false;
    }
    let base = hi - p.len();
    let mut j: usize = 0;
    while j < p.len()
        invariant
            p.len() <= hi - lo,
            base == hi - p.len(),
            lo <= hi <= v.len(),
            s == v@.subrange(lo as int, hi as int),
            j <= p.len(),
            forall|k: int| 0 <= k < j ==> v@[base + k] == p@[k],
        decreases p.len() - j,
    {
        if v[base + j] != p[j] {
            assert(s.skip(s.len() - p.len())[j as int] != p@[j as int]);
            return false;
        }
        j = j + 1;
    }
    assert(s.skip(s.len() - p.len()) =~= p@);
    true
}

/// Whether `v[lo..hi]` holds `c`.
pub fn contains_char(v: &Vec<char>, lo: usize, hi: usize, c: char) -> (r: bool)
    requires
        lo <= hi <= v.len(),
    ensures
        r == v@.subrange(lo as int, hi as int).contains(c),
{
    match find_char(v, lo, hi, c) {
        Some(k) => {
            assert(v@.subrange(lo as int, hi as int)[k - lo] == c);
            true
        },
        None => false,
    }
}

/// The position in `v` of the first `c` of `v[lo..hi]`.
pub fn find_char(v: &Vec<char>, lo: usize, hi: usize, c: char) -> (r: Option<usize>)
    requires
        lo <= hi <= v.len(),
    ensures
        r matches Some(k) ==> lo <= k < hi && is_first_index(
            v@.subrange(lo as int, hi as int),
            c,
            k - lo,
        ),
        r is None ==> !v@.subrange(lo as int, hi as int).contains(c),
{
    let ghost s = v@.subrange(lo as int, hi as int);
    let mut i = lo;
    while i < hi
        invariant
            lo <= i <= hi <= v.len(),
            s == v@.subrange(lo as int, hi as int),
            forall|j: int| 0 <= j < i - lo ==> s[j] != c,
        decreases hi - i,
    {
        if v[i] == c {
            return Some(i);
        }
        i = i + 1;
    }
    None
}

/// Whether `t` occurs in `v` (see [`occurs_in`]).
pub fn occurs(t: &Vec<char>, v: &Vec<char>) -> (r: bool)
    ensures
        r == occurs_in(t@, v@),
{
    if t.len() > v.len() {
        return false;
    }
    let last = v.len() - t.len();
    let mut i: usize = 0;
    loop
        invariant
            last == v.len() - t.len(),
            i <= last,
            forall|j: int| 0 <= j < i ==> #[trigger] v@.subrange(j, j + t.len()) != t@,
        decreases last - i,
    {
        let mut k: usize = 0;
        let mut same = true;
        while k < t.len()
            invariant
                i <= last,
                last == v.len() - t.len(),
                k <= t.len(),
                same ==> forall|m: int| 0 <= m < k ==> v@[i + m] == t@[m],
                !same ==> v@.subrange(i as int, i + t.len()) != t@,
            decreases t.len() - k,
        {
            if v[i + k] != t[k] {
                same = false;
                assert(v@.subrange(i as int, i + t.len())[k as int] != t@[k as int]);
            }
            k = k + 1;
        }
        if same {
            assert(v@.subrange(i as int, i + t.len()) =~= t@);
            return true;
        }
        if i == last {
            return false;
        }
        i = i + 1;
    }
}

} // verus!
