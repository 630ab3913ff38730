use vstd::prelude::*;

use crate::order::{is_permutation, distinct_in, in_key_order, key_before, lemma_lex_single, sort_indices};
use crate::AUR_RPC;
use vstd::arithmetic::power::lemma_pow0;
use vstd::arithmetic::power2::{lemma_pow2_pos, lemma_pow2_unfold, pow2};

verus! {

/// A package as the AUR RPC interface describes it.
pub struct AurPkg {
    pub name: String,
    pub version: Option<String>,
    pub description: Option<String>,
    /// The popularity score, an IEEE-754 single-precision number held as its
    /// bit pattern (`f32::to_bits`).
    pub popularity: Option<u32>,
    pub maintainer: Option<String>,
    pub depends: Vec<String>,
    pub make_depends: Vec<String>,
}

/// The body of an AUR RPC reply.
pub struct RpcResponse {
    pub results: Vec<AurPkg>,
}

/// The address of the AUR RPC search for `term`.
pub fn search_url(term: &str) -> (u: String)
    ensures
        u@ == AUR_RPC@ + "type=search&arg="@ + term@,
{
    let mut u = String::from_str(AUR_RPC);
    u.append("type=search&arg=");
    u.append(term);
    u
}

/// The address of the AUR RPC information on the package `name`.
pub fn info_url(name: &str) -> (u: String)
    ensures
        u@ == AUR_RPC@ + "type=info&arg="@ + name@,
{
    let mut u = String::from_str(AUR_RPC);
    u.append("type=info&arg=");
    u.append(name);
    u
}

/// The bits of a missing popularity: those of `0.0`.
pub open spec fn popularity_bits(p: Option<u32>) -> u32 {
    match p {
        Some(b) => b,
        None => 0,
    }
}

/// Whether the popularity is a NaN, which has no place in the order of numbers.
pub open spec fn popularity_is_nan(p: Option<u32>) -> bool {
    popularity_bits(p) % 0x8000_0000 > 0x7f80_0000
}

/// The place of a popularity among numbers: for IEEE-754 numbers that are
/// not NaN, `a < b` exactly when the rank of `a` is below that of `b`; both
/// zeros rank 0, and a missing popularity counts as `0.0`.
pub open spec fn popularity_rank(p: Option<u32>) -> int {
    let bits = popularity_bits(p);
    let magnitude = bits % 0x8000_0000;
    if magnitude == 0 {
        0
    } else if bits >= 0x8000_0000 {
        -magnitude
    } else {
        magnitude as int
    }
}

/// The value of an IEEE-754 single-precision number of magnitude bits `mag`
/// (exponent and significand, sign left out), in units of `2^-149`, the
/// smallest positive number: `significand * 2^(exponent - 1)` with the
/// implicit leading bit for a non-zero exponent.
pub open spec fn magnitude_value(mag: int) -> int {
    let e = mag / 0x80_0000;
    let m = mag % 0x80_0000;
    if e == 0 {
        m
    } else {
        (0x80_0000 + m) * pow2((e - 1) as nat)
    }
}

/// The magnitude bits of a finite number lie below those of infinity.
pub open spec fn is_finite_magnitude(mag: int) -> bool {
    0 <= mag < 0x7f80_0000
}

/// The value of the finite single-precision number with bits `bits`, in
/// units of `2^-149`.
pub open spec fn float_value(bits: u32) -> int {
    let mag = bits % 0x8000_0000;
    if bits >= 0x8000_0000 {
        -magnitude_value(mag as int)
    } else {
        magnitude_value(mag as int)
    }
}

proof fn lemma_magnitude_step(a: int)
    requires
        0 <= a,
        is_finite_magnitude(a + 1),
    ensures
        magnitude_value(a) < magnitude_value(a + 1),
{
    let e = a / 0x80_0000;
    let m = a % 0x80_0000;
    if m < 0x7f_ffff {
        assert((a + 1) / 0x80_0000 == e);
        assert((a + 1) % 0x80_0000 == m + 1);
        if e > 0 {
            let p = pow2((e - 1) as nat);
            lemma_pow2_pos((e - 1) as nat);
            assert((0x80_0000 + m + 1) * p == (0x80_0000 + m) * p + p) by (nonlinear_arith);
        }
    } else {
        assert((a + 1) / 0x80_0000 == e + 1);
        assert((a + 1) % 0x80_0000 == 0);
        if e == 0 {
            lemma_pow0(2);
            assert(pow2(0) == 1);
        } else {
            lemma_pow2_unfold(e as nat);
            let p = pow2((e - 1) as nat);
            lemma_pow2_pos((e - 1) as nat);
            assert(pow2(e as nat) == 2 * p);
            assert(0x80_0000 * (2 * p) > (0x80_0000 + 0x7f_ffff) * p) by (nonlinear_arith)
                requires
                    p > 0,
            ;
        }
    }
}

proof fn lemma_magnitude_increasing(a: int, b: int)
    requires
        0 <= a < b,
        is_finite_magnitude(b),
    ensures
        magnitude_value(a) < magnitude_value(b),
    decreases b - a,
{
    lemma_magnitude_step(a);
    if a + 1 < b {
        lemma_magnitude_increasing(a + 1, b);
    }
}

/// The popularity rank follows the numeric value: for finite numbers `x`
/// and `y`, a smaller value has a smaller rank and equal values (such as
/// `-0.0` and `0.0`) have equal ranks; infinities rank beyond every finite
/// number; a missing popularity ranks as `0.0`.
pub proof fn lemma_rank_follows_value(x: u32, y: u32)
    requires
        is_finite_magnitude((x % 0x8000_0000) as int),
        is_finite_magnitude((y % 0x8000_0000) as int),
    ensures
        float_value(x) < float_value(y) ==> popularity_rank(Some(x)) < popularity_rank(Some(y)),
        float_value(x) == float_value(y) ==> popularity_rank(Some(x)) == popularity_rank(Some(y)),
        popularity_rank(Some(0x7f80_0000)) > popularity_rank(Some(x)),
        popularity_rank(Some(0xff80_0000)) < popularity_rank(Some(x)),
        popularity_rank(None) == popularity_rank(Some(0)),
        float_value(0) == 0,
{
    let mx = (x % 0x8000_0000) as int;
    let my = (y % 0x8000_0000) as int;
    assert(magnitude_value(0) == 0);
    if mx > 0 {
        lemma_magnitude_increasing(0, mx);
    }
    if my > 0 {
        lemma_magnitude_increasing(0, my);
    }
    if mx < my {
        lemma_magnitude_increasing(mx, my);
    } else if my < mx {
        lemma_magnitude_increasing(my, mx);
    }
}

fn rank_of(p: &Option<u32>) -> (r: i64)
    ensures
        r == popularity_rank(*p),
{
    let bits: u32 = match p {
        Some(b) => *b,
        None => 0,
    };
    let magnitude: u32 = bits % 0x8000_0000;
    if magnitude == 0 {
        0
    } else if bits >= 0x8000_0000 {
        -(magnitude as i64)
    } else {
        magnitude as i64
    }
}

/// Whether `sorted` is `pkgs` ordered by popularity, most popular first,
/// with packages of equal popularity in their order in `pkgs`.
pub open spec fn is_popularity_order(pkgs: Seq<AurPkg>, sorted: Seq<AurPkg>) -> bool {
    exists|p: Seq<int>|
        {
            &&& is_permutation(p, pkgs.len() as int)
            &&& sorted.len() == pkgs.len()
            &&& forall|k: int| 0 <= k < sorted.len() ==> #[trigger] sorted[k] == pkgs[p[k]]
            &&& forall|i: int, j: int|
                0 <= i < j < sorted.len() ==> {
                    ||| popularity_rank(sorted[i].popularity) > popularity_rank(
                        sorted[j].popularity,
                    )
                    ||| popularity_rank(sorted[i].popularity) == popularity_rank(
                        sorted[j].popularity,
                    ) && p[i] < p[j]
                }
        }
}

/// In search results ordered by popularity, a package never comes after one
/// whose popularity is a strictly smaller number (a missing popularity
/// counting as `0.0`).
pub proof fn lemma_more_popular_first(pkgs: Seq<AurPkg>, sorted: Seq<AurPkg>, i: int, j: int)
    requires
        is_popularity_order(pkgs, sorted),
        0 <= i < j < sorted.len(),
        is_finite_magnitude((popularity_bits(sorted[i].popularity) % 0x8000_0000) as int),
        is_finite_magnitude((popularity_bits(sorted[j].popularity) % 0x8000_0000) as int),
    ensures
        float_value(popularity_bits(sorted[j].popularity)) <= float_value(
            popularity_bits(sorted[i].popularity),
        ),
{
    let bi = popularity_bits(sorted[i].popularity);
    let bj = popularity_bits(sorted[j].popularity);
    assert(popularity_rank(Some(bi)) == popularity_rank(sorted[i].popularity));
    assert(popularity_rank(Some(bj)) == popularity_rank(sorted[j].popularity));
    let p = choose|p: Seq<int>|
        {
            &&& is_permutation(p, pkgs.len() as int)
            &&& sorted.len() == pkgs.len()
            &&& forall|k: int| 0 <= k < sorted.len() ==> #[trigger] sorted[k] == pkgs[p[k]]
            &&& forall|i: int, j: int|
                0 <= i < j < sorted.len() ==> {
                    ||| popularity_rank(sorted[i].popularity) > popularity_rank(
                        sorted[j].popularity,
                    )
                    ||| popularity_rank(sorted[i].popularity) == popularity_rank(
                        sorted[j].popularity,
                    ) && p[i] < p[j]
                }
        };
    assert(popularity_rank(sorted[i].popularity) >= popularity_rank(sorted[j].popularity));
    lemma_rank_follows_value(bi, bj);
}

/// Search results, most popular first; packages of equal popularity keep
/// their order, and a missing popularity counts as `0.0`. Two or more results
/// cannot be ordered where one has a NaN popularity.
pub fn sort_by_popularity(pkgs: Vec<AurPkg>) -> (sorted: Vec<AurPkg>)
    requires
        pkgs.len() < 2 || forall|k: int| 0 <= k < pkgs.len() ==> !popularity_is_nan(
            #[trigger] pkgs[k].popularity,
        ),
    ensures
        is_popularity_order(pkgs@, sorted@),
{
    let ghost orig = pkgs@;
    let n = pkgs.len();
    let mut keys: Vec<Vec<i64>> = Vec::new();
    let mut slots: Vec<Option<AurPkg>> = Vec::new();
    for pkg in it: pkgs.into_iter()
        invariant
            it.seq() == orig,
            keys.len() == it.index(),
            slots.len() == it.index(),
            forall|k: int| 0 <= k < keys.len() ==> (#[trigger] keys[k])@ == seq![(-popularity_rank(orig[k].popularity)) as i64],
            forall|k: int| 0 <= k < slots.len() ==> #[trigger] slots[k] == Some(orig[k]),
    {
        let rank = rank_of(&pkg.popularity);
        let mut key = Vec::new();
        key.push(-rank);
        keys.push(key);
        slots.push(Some(pkg));
    }
    let order = sort_indices(&keys);
    let mut sorted: Vec<AurPkg> = Vec::new();
    let mut k: usize = 0;
    while k < order.len()
        invariant
            n == orig.len(),
            order.len() == n,
            keys.len() == n,
            slots.len() == n,
            distinct_in(order@, 0, n as int),
            k <= n,
            sorted.len() == k,
            forall|m: int| 0 <= m < k ==> #[trigger] sorted[m] == orig[order[m] as int],
            forall|m: int| k <= m < n ==> slots[#[trigger] order[m] as int] == Some(orig[order[m] as int]),
        decreases n - k,
    {
        let idx = order[k];
        let item = slots[idx].take();
        proof {
            assert forall|m: int| k < m < n implies slots[#[trigger] order[m] as int] == Some(orig[order[m] as int]) by {
                assert(order[m] != order[k as int]);
            }
        }
        match item {
            Some(pkg) => {
                sorted.push(pkg);
            },
            None => {
                assert(false);
            },
        }
        k = k + 1;
    }
    let ghost p = order@.map_values(|x: usize| x as int);
    proof {
        assert forall|i: int, j: int| 0 <= i < j < n implies {
            ||| popularity_rank(sorted[i].popularity) > popularity_rank(sorted[j].popularity)
            ||| popularity_rank(sorted[i].popularity) == popularity_rank(sorted[j].popularity)
                && p[i] < p[j]
        } by {
            assert(key_before(keys@, order[i], order[j]));
            let ri = popularity_rank(orig[order[i] as int].popularity);
            let rj = popularity_rank(orig[order[j] as int].popularity);
            lemma_lex_single((-ri) as i64, (-rj) as i64);
            assert(keys[order[i] as int]@ == seq![(-ri) as i64]);
            assert(keys[order[j] as int]@ == seq![(-rj) as i64]);
            if ri == rj {
                assert(keys[order[i] as int]@ =~= keys[order[j] as int]@);
            } else {
                assert(keys[order[i] as int]@ != keys[order[j] as int]@) by {
                    assert(keys[order[i] as int]@[0] != keys[order[j] as int]@[0]);
                }
            }
        }
        assert(is_permutation(p, n as int));
    }
    sorted
}

/// The first of the packages that an information request returned, or the
/// message that no package `name` was found.
pub fn first_package(results: Vec<AurPkg>, name: &str) -> (r: Result<AurPkg, String>)
    ensures
        results.len() > 0 ==> r == Ok::<AurPkg, String>(results[0]),
        results.len() == 0 ==> (r matches Err(msg) && msg@ == "Package '"@ + name@ + "' not found"@),
{
    let mut results = results;
    if results.len() > 0 {
        Ok(results.remove(0))
    } else {
        let mut msg = String::from_str("Package '");
        msg.append(name);
        msg.append("' not found");
        Err(msg)
    }
}

} // verus!
