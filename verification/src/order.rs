use vstd::prelude::*;

verus! {

/// Whether `p` lists each of `0..n` once.
pub open spec fn is_permutation(p: Seq<int>, n: int) -> bool {
    &&& p.len() == n
    &&& forall|k: int| 0 <= k < n ==> 0 <= #[trigger] p[k] < n
    &&& forall|i: int, j: int| 0 <= i < j < n ==> p[i] != p[j]
}

/// Whether `b` holds the items of `a`, each once, in some order.
pub open spec fn is_rearrangement<T>(a: Seq<T>, b: Seq<T>) -> bool {
    exists|p: Seq<int>|
        {
            &&& is_permutation(p, a.len() as int)
            &&& b.len() == a.len()
            &&& forall|k: int| 0 <= k < b.len() ==> #[trigger] b[k] == a[p[k]]
        }
}

/// Lexicographic order on sequences of integers: a proper prefix comes
/// first, and otherwise the first differing element decides.
pub open spec fn lex_le(a: Seq<i64>, b: Seq<i64>) -> bool
    decreases a.len(),
{
    if a.len() == 0 {
        true
    } else if b.len() == 0 {
        false
    } else if a[0] != b[0] {
        a[0] < b[0]
    } else {
        lex_le(a.drop_first(), b.drop_first())
    }
}

/// `lex_le` is total.
pub proof fn lemma_lex_total(a: Seq<i64>, b: Seq<i64>)
    ensures
        lex_le(a, b) || lex_le(b, a),
    decreases a.len(),
{
    if a.len() > 0 && b.len() > 0 && a[0] == b[0] {
        lemma_lex_total(a.drop_first(), b.drop_first());
    }
}

/// `lex_le` is antisymmetric.
pub proof fn lemma_lex_antisymmetric(a: Seq<i64>, b: Seq<i64>)
    requires
        lex_le(a, b),
        lex_le(b, a),
    ensures
        a == b,
    decreases a.len(),
{
    if a.len() > 0 {
        lemma_lex_antisymmetric(a.drop_first(), b.drop_first());
        assert(a =~= seq![a[0]] + a.drop_first());
        assert(b =~= seq![b[0]] + b.drop_first());
    }
}

/// `lex_le` is transitive.
pub proof fn lemma_lex_transitive(a: Seq<i64>, b: Seq<i64>, c: Seq<i64>)
    requires
        lex_le(a, b),
        lex_le(b, c),
    ensures
        lex_le(a, c),
    decreases a.len(),
{
    if a.len() > 0 && b.len() > 0 && c.len() > 0 && a[0] == b[0] && b[0] == c[0] {
        lemma_lex_transitive(a.drop_first(), b.drop_first(), c.drop_first());
    }
}

/// On one-element sequences `lex_le` is the order of the elements.
pub proof fn lemma_lex_single(x: i64, y: i64)
    ensures
        lex_le(seq![x], seq![y]) == (x <= y),
{
    reveal_with_fuel(lex_le, 2);
    assert(seq![x].drop_first() =~= Seq::<i64>::empty());
    assert(seq![y].drop_first() =~= Seq::<i64>::empty());
}

/// After an equal prefix of length `i`, the rest decides.
proof fn lemma_lex_skip(a: Seq<i64>, b: Seq<i64>, i: int)
    requires
        0 <= i <= a.len(),
        i <= b.len(),
        a.take(i) == b.take(i),
    ensures
        lex_le(a, b) == lex_le(a.skip(i), b.skip(i)),
    decreases i,
{
    if i == 0 {
        assert(a.skip(0) =~= a);
        assert(b.skip(0) =~= b);
    } else {
        assert(a[0] == a.take(i)[0]);
        assert(b[0] == b.take(i)[0]);
        assert(a.drop_first().take(i - 1) =~= a.take(i).drop_first());
        assert(b.drop_first().take(i - 1) =~= b.take(i).drop_first());
        lemma_lex_skip(a.drop_first(), b.drop_first(), i - 1);
        assert(a.drop_first().skip(i - 1) =~= a.skip(i));
        assert(b.drop_first().skip(i - 1) =~= b.skip(i));
    }
}

/// Compares two keys: whether `a` comes no later than `b`, and whether they are equal.
pub fn lex_compare(a: &Vec<i64>, b: &Vec<i64>) -> (r: (bool, bool))
    ensures
        r.0 == lex_le(a@, b@),
        r.1 == (a@ == b@),
{
    let mut i: usize = 0;
    while i < a.len() && i < b.len()
        invariant
            i <= a.len(),
            i <= b.len(),
            a@.take(i as int) == b@.take(i as int),
        decreases a.len() - i,
    {
        if a[i] != b[i] {
            proof {
                lemma_lex_skip(a@, b@, i as int);
                assert(a@.skip(i as int)[0] == a[i as int]);
                assert(b@.skip(i as int)[0] == b[i as int]);
            }
            return (a[i] < b[i], false);
        }
        assert(a@.take(i + 1) =~= a@.take(i as int).push(a[i as int]));
        assert(b@.take(i + 1) =~= b@.take(i as int).push(b[i as int]));
        i = i + 1;
    }
    proof {
        lemma_lex_skip(a@, b@, i as int);
    }
    if i == a.len() && i == b.len() {
        assert(a@ =~= a@.take(i as int));
        assert(b@ =~= b@.take(i as int));
        (true, true)
    } else if i == a.len() {
        assert(a@.skip(i as int).len() == 0);
        (true, false)
    } else {
        assert(b@.skip(i as int).len() == 0);
        (false, false)
    }
}

/// Whether the item at index `x` comes no later than the item at index `y`
/// when items are ordered by their keys and, among equal keys, by index.
pub open spec fn key_before(keys: Seq<Vec<i64>>, x: usize, y: usize) -> bool {
    if keys[x as int]@ == keys[y as int]@ {
        x <= y
    } else {
        lex_le(keys[x as int]@, keys[y as int]@)
    }
}

/// `key_before` is a total order on indices.
pub proof fn lemma_key_order(keys: Seq<Vec<i64>>)
    ensures
        forall|x: usize, y: usize| #[trigger] key_before(keys, x, y) || key_before(keys, y, x),
        forall|x: usize, y: usize|
            #[trigger] key_before(keys, x, y) && key_before(keys, y, x) ==> x == y,
        forall|x: usize, y: usize, z: usize|
            #[trigger] key_before(keys, x, y) && #[trigger] key_before(keys, y, z) ==> key_before(
                keys,
                x,
                z,
            ),
{
    assert forall|x: usize, y: usize| #[trigger]
        key_before(keys, x, y) || key_before(keys, y, x) by {
        lemma_lex_total(keys[x as int]@, keys[y as int]@);
    }
    assert forall|x: usize, y: usize| #[trigger]
        key_before(keys, x, y) && key_before(keys, y, x) implies x == y by {
        if keys[x as int]@ != keys[y as int]@ {
            lemma_lex_antisymmetric(keys[x as int]@, keys[y as int]@);
        }
    }
    assert forall|x: usize, y: usize, z: usize|
        #[trigger] key_before(keys, x, y) && #[trigger] key_before(keys, y, z) implies key_before(
        keys,
        x,
        z,
    ) by {
        let (kx, ky, kz) = (keys[x as int]@, keys[y as int]@, keys[z as int]@);
        if kx != ky && ky != kz {
            lemma_lex_transitive(kx, ky, kz);
            if kx == kz {
                lemma_lex_antisymmetric(kx, ky);
            }
        } else if kx != ky && ky == kz {
        } else if kx == ky && ky != kz {
        }
    }
}

/// Whether the indices `r` are distinct and lie in `lo..hi`.
pub open spec fn distinct_in(r: Seq<usize>, lo: int, hi: int) -> bool {
    &&& forall|k: int| 0 <= k < r.len() ==> lo <= #[trigger] r[k] < hi
    &&& forall|i: int, j: int| 0 <= i < j < r.len() ==> r[i] != r[j]
}

/// Whether the indices `r` are in `key_before` order.
pub open spec fn in_key_order(keys: Seq<Vec<i64>>, r: Seq<usize>) -> bool {
    forall|i: int, j: int| 0 <= i < j < r.len() ==> key_before(keys, #[trigger] r[i], #[trigger] r[j])
}

fn before(keys: &Vec<Vec<i64>>, x: usize, y: usize) -> (r: bool)
    requires
        x < keys.len(),
        y < keys.len(),
    ensures
        r == key_before(keys@, x, y),
{
    let (le, eq) = lex_compare(&keys[x], &keys[y]);
    if eq {
        x <= y
    } else {
        le
    }
}

fn merge(keys: &Vec<Vec<i64>>, a: &Vec<usize>, b: &Vec<usize>, lo: usize, mid: usize, hi: usize) -> (r: Vec<usize>)
    requires
        lo <= mid <= hi <= keys.len(),
        a.len() == mid - lo,
        b.len() == hi - mid,
        distinct_in(a@, lo as int, mid as int),
        distinct_in(b@, mid as int, hi as int),
        in_key_order(keys@, a@),
        in_key_order(keys@, b@),
    ensures
        r.len() == hi - lo,
        distinct_in(r@, lo as int, hi as int),
        in_key_order(keys@, r@),
{
    let mut r: Vec<usize> = Vec::new();
    let ghost mut pos: Seq<int> = Seq::empty();
    let mut i: usize = 0;
    let mut j: usize = 0;
    while i < a.len() || j < b.len()
        invariant
            lo <= mid <= hi <= keys.len(),
            a.len() == mid - lo,
            b.len() == hi - mid,
            distinct_in(a@, lo as int, mid as int),
            distinct_in(b@, mid as int, hi as int),
            in_key_order(keys@, a@),
            in_key_order(keys@, b@),
            i <= a.len(),
            j <= b.len(),
            r.len() == i + j,
            pos.len() == r.len(),
            distinct_in(r@, lo as int, hi as int),
            in_key_order(keys@, r@),
            forall|k: int|
                0 <= k < r.len() ==> (r[k] < mid ==> 0 <= #[trigger] pos[k] < i && a[pos[k]]
                    == r[k]) && (r[k] >= mid ==> 0 <= pos[k] < j && b[pos[k]] == r[k]),
            r.len() > 0 && i < a.len() ==> key_before(keys@, r@.last(), a[i as int]),
            r.len() > 0 && j < b.len() ==> key_before(keys@, r@.last(), b[j as int]),
        decreases a.len() + b.len() - i - j,
    {
        proof {
            lemma_key_order(keys@);
        }
        let take_a = j == b.len() || (i < a.len() && before(keys, a[i], b[j]));
        let ghost old_r = r@;
        let x = if take_a {
            a[i]
        } else {
            b[j]
        };
        proof {
            if take_a {
                assert forall|k: int| 0 <= k < old_r.len() implies old_r[k] != x by {
                    if old_r[k] < mid {
                        assert(a[pos[k]] == old_r[k]);
                    }
                }
                if j < b.len() {
                    assert(key_before(keys@, x, b[j as int]));
                }
            } else {
                assert forall|k: int| 0 <= k < old_r.len() implies old_r[k] != x by {
                    if old_r[k] >= mid {
                        assert(b[pos[k]] == old_r[k]);
                    }
                }
                if i < a.len() {
                    assert(key_before(keys@, a[i as int], b[j as int]) || key_before(
                        keys@,
                        b[j as int],
                        a[i as int],
                    ));
                }
            }
            assert forall|k: int| 0 <= k < old_r.len() implies key_before(keys@, old_r[k], x) by {
                if k < old_r.len() - 1 {
                    assert(key_before(keys@, old_r[k], old_r.last()));
                }
            }
        }
        r.push(x);
        if take_a {
            proof {
                pos = pos.push(i as int);
            }
            if i + 1 < a.len() {
                assert(key_before(keys@, a[i as int], a[i + 1]));
            }
            i = i + 1;
        } else {
            proof {
                pos = pos.push(j as int);
            }
            if j + 1 < b.len() {
                assert(key_before(keys@, b[j as int], b[j + 1]));
            }
            j = j + 1;
        }
    }
    r
}

/// The indices `0..keys.len()` in `key_before` order: by key, and among
/// equal keys by index.
pub fn sort_indices(keys: &Vec<Vec<i64>>) -> (r: Vec<usize>)
    ensures
        r.len() == keys.len(),
        distinct_in(r@, 0, keys.len() as int),
        in_key_order(keys@, r@),
{
    sort_range(keys, 0, keys.len())
}

fn sort_range(keys: &Vec<Vec<i64>>, lo: usize, hi: usize) -> (r: Vec<usize>)
    requires
        lo <= hi <= keys.len(),
    ensures
        r.len() == hi - lo,
        distinct_in(r@, lo as int, hi as int),
        in_key_order(keys@, r@),
    decreases hi - lo,
{
    if hi - lo == 0 {
        Vec::new()
    } else if hi - lo == 1 {
        let mut r = Vec::new();
        r.push(lo);
        r
    } else {
        let mid = lo + (hi - lo) / 2;
        let a = sort_range(keys, lo, mid);
        let b = sort_range(keys, mid, hi);
        merge(keys, &a, &b, lo, mid, hi)
    }
}

} // verus!
