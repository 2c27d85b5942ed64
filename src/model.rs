//! The mathematical model: which subset an index names, population counts,
//! and the index sequences that each enumeration walks.
use vstd::arithmetic::power2::{lemma2_to64, lemma_pow2_pos, lemma_pow2_unfold, pow2};
use vstd::prelude::*;

verus! {

/// The elements of `v` picked out by the bits of `pos`, bit `i` standing
/// for `v[i]`, in the order of `v`. Bits at or above `v.len()` are ignored.
pub open spec fn subset_of<T>(v: Seq<T>, pos: nat) -> Seq<T>
    decreases v.len(),
{
    if v.len() == 0 {
        Seq::empty()
    } else {
        let rest = subset_of(v.drop_first(), pos / 2);
        if pos % 2 == 1 {
            seq![v[0]] + rest
        } else {
            rest
        }
    }
}

/// Number of set bits of `x`.
pub open spec fn popcount(x: nat) -> nat
    decreases x,
{
    if x == 0 {
        0
    } else {
        (x % 2) as nat + popcount(x / 2)
    }
}

/// The indices 1, 2, ..., m in ascending order.
pub open spec fn index_range(m: nat) -> Seq<nat> {
    Seq::new(m, |k: int| (k + 1) as nat)
}

/// Every index that names a non-empty subset of an `n`-element sequence,
/// ascending: 1 through 2^n - 1.
pub open spec fn all_positions(n: nat) -> Seq<nat> {
    index_range((pow2(n) - 1) as nat)
}

/// The indices of `all_positions(n)` with exactly `r` set bits, ascending.
pub open spec fn sized_positions(n: nat, r: nat) -> Seq<nat> {
    all_positions(n).filter(|p: nat| popcount(p) == r)
}

/// The subsets of `v` that the indices `ps` name, in the order of `ps`.
pub open spec fn decode_all<T>(v: Seq<T>, ps: Seq<nat>) -> Seq<Seq<T>> {
    ps.map_values(|p: nat| subset_of(v, p))
}

/// The contents of each vector of `vs`.
pub open spec fn views<T>(vs: Seq<Vec<T>>) -> Seq<Seq<T>> {
    vs.map_values(|w: Vec<T>| w@)
}

/// Indices as mathematical integers.
pub open spec fn as_nats(ps: Seq<u128>) -> Seq<nat> {
    ps.map_values(|p: u128| p as nat)
}

/// `f` takes any vector and answers alike for two vectors with the same
/// contents: a pure test of a subset.
pub open spec fn is_pure_predicate<T, F: Fn(&Vec<T>) -> bool>(f: F) -> bool {
    &&& forall|w: &Vec<T>| #[trigger] f.requires((w,))
    &&& forall|a: &Vec<T>, b: &Vec<T>, x: bool, y: bool|
        #![trigger f.ensures((a,), x), f.ensures((b,), y)]
        a@ == b@ && f.ensures((a,), x) && f.ensures((b,), y) ==> x == y
}

/// `f` answers `true` on a vector holding `s`.
pub open spec fn accepts<T, F: Fn(&Vec<T>) -> bool>(f: F, s: Seq<T>) -> bool {
    exists|w: &Vec<T>| w@ == s && #[trigger] f.ensures((w,), true)
}

/// The indices of `ps` whose subset of `v` `f` accepts, in the order of `ps`.
pub open spec fn qualifying_positions<T, F: Fn(&Vec<T>) -> bool>(
    v: Seq<T>,
    ps: Seq<nat>,
    f: F,
) -> Seq<nat> {
    ps.filter(|p: nat| accepts(f, subset_of(v, p)))
}

/// Number of ways to pick `r` of `n` items.
pub open spec fn binomial(n: nat, r: nat) -> nat
    decreases n,
{
    if r == 0 {
        1
    } else if n == 0 {
        0
    } else {
        binomial((n - 1) as nat, (r - 1) as nat) + binomial((n - 1) as nat, r)
    }
}

/// Each index of `s` is below the next.
pub open spec fn ascending(s: Seq<nat>) -> bool {
    forall|j: int, k: int| 0 <= j < k < s.len() ==> s[j] < s[k]
}

/// An index below 2^n has at most n set bits.
pub proof fn lemma_popcount_bound(x: nat, n: nat)
    requires
        x < pow2(n),
    ensures
        popcount(x) <= n,
    decreases n,
{
    if n > 0 {
        lemma_pow2_unfold(n);
        lemma_popcount_bound(x / 2, (n - 1) as nat);
    } else {
        lemma2_to64();
    }
}

/// The subset that `p` names has as many elements as `p` has set bits
/// among its low `v.len()` bits.
pub proof fn lemma_subset_len<T>(v: Seq<T>, p: nat)
    ensures
        subset_of(v, p).len() == popcount(p % pow2(v.len())),
    decreases v.len(),
{
    let n = v.len();
    if n == 0 {
        lemma2_to64();
    } else {
        lemma_subset_len(v.drop_first(), p / 2);
        lemma_pow2_unfold(n);
        lemma_pow2_pos((n - 1) as nat);
        vstd::arithmetic::div_mod::lemma_mod_breakdown(p as int, 2, pow2((n - 1) as nat) as int);
        let m = p % pow2(n);
        assert(m % 2 == p % 2);
        assert(m / 2 == (p / 2) % pow2((n - 1) as nat));
    }
}

/// What a pure predicate answered is whether it accepts the contents.
pub(crate) proof fn lemma_answer<T, F: Fn(&Vec<T>) -> bool>(f: F, w: &Vec<T>, b: bool)
    requires
        is_pure_predicate(f),
        f.ensures((w,), b),
    ensures
        b == accepts(f, w@),
{
    if !b {
        if accepts(f, w@) {
            let u = choose|u: &Vec<T>| u@ == w@ && #[trigger] f.ensures((u,), true);
            assert(f.ensures((u,), true) && f.ensures((w,), b));
        }
    }
}

} // verus!
