//! What holds across the enumerations: how many subsets of each size there
//! are, the order of the indices, and how the predicate and the size meet.
use crate::model::{
    accepts, all_positions, ascending, binomial, decode_all, index_range, lemma_subset_len,
    popcount, qualifying_positions, sized_positions, subset_of,
};
use vstd::arithmetic::power2::{lemma2_to64, lemma_pow2_pos, lemma_pow2_unfold, pow2};
use vstd::prelude::*;

verus! {

/// How many of 0, 1, ..., m - 1 have exactly `r` set bits.
spec fn count_below(m: nat, r: nat) -> nat
    decreases m,
{
    if m == 0 {
        0
    } else {
        count_below((m - 1) as nat, r) + if popcount((m - 1) as nat) == r {
            1nat
        } else {
            0nat
        }
    }
}

/// Counting the indices 1 ..= m with `r` set bits; index 0 has none.
proof fn lemma_range_count(m: nat, r: nat)
    ensures
        index_range(m).filter(|p: nat| popcount(p) == r).len() + (if r == 0 {
            1nat
        } else {
            0nat
        }) == count_below(m + 1, r),
    decreases m,
{
    if m == 0 {
        index_range(0).lemma_filter_len(|p: nat| popcount(p) == r);
        assert(count_below(1, r) == count_below(0, r) + if popcount(0) == r {
            1nat
        } else {
            0nat
        });
    } else {
        lemma_range_count((m - 1) as nat, r);
        assert(index_range(m) =~= index_range((m - 1) as nat).push(m));
        index_range((m - 1) as nat).lemma_filter_push(m, |p: nat| popcount(p) == r);
    }
}

/// The numbers below 2k are 2j and 2j + 1 for each j below k: the first has
/// as many set bits as j, the second one more.
proof fn lemma_count_double(k: nat, r: nat)
    ensures
        count_below(2 * k, r) == count_below(k, r) + if r > 0 {
            count_below(k, (r - 1) as nat)
        } else {
            0nat
        },
    decreases k,
{
    if k > 0 {
        let j = (k - 1) as nat;
        lemma_count_double(j, r);
        assert(popcount(2 * j + 1) == 1 + popcount(j));
        if j > 0 {
            assert(popcount(2 * j) == popcount(j));
        }
        assert(count_below(2 * j + 1, r) == count_below(2 * j, r) + if popcount(2 * j) == r {
            1nat
        } else {
            0nat
        });
        assert(count_below(2 * j + 2, r) == count_below(2 * j + 1, r) + if popcount(2 * j + 1)
            == r {
            1nat
        } else {
            0nat
        });
        assert(2 * k == 2 * j + 2);
    }
}

/// Below 2^n, exactly C(n, r) numbers have `r` set bits.
proof fn lemma_count_binomial(n: nat, r: nat)
    ensures
        count_below(pow2(n), r) == binomial(n, r),
    decreases n,
{
    if n == 0 {
        lemma2_to64();
        assert(count_below(1, r) == count_below(0, r) + if popcount(0) == r {
            1nat
        } else {
            0nat
        });
    } else {
        let h = (n - 1) as nat;
        lemma_pow2_unfold(n);
        lemma_count_double(pow2(h), r);
        lemma_count_binomial(h, r);
        if r > 0 {
            lemma_count_binomial(h, (r - 1) as nat);
        }
    }
}

/// No way to pick more items than there are.
proof fn lemma_binomial_zero(n: nat, r: nat)
    requires
        r > n,
    ensures
        binomial(n, r) == 0,
    decreases n,
{
    if n > 0 {
        lemma_binomial_zero((n - 1) as nat, (r - 1) as nat);
        lemma_binomial_zero((n - 1) as nat, r);
    }
}

/// Number of indices that fixed-size enumeration yields: C(n, r), but none
/// for `r == 0`, as the empty subset is never named.
pub proof fn lemma_sized_len(n: nat, r: nat)
    ensures
        sized_positions(n, r).len() == if r == 0 {
            0
        } else {
            binomial(n, r)
        },
{
    lemma_pow2_pos(n);
    lemma_range_count((pow2(n) - 1) as nat, r);
    lemma_count_binomial(n, r);
}

/// For 1 <= r <= n, fixed-size enumeration of an n-element sequence names
/// exactly C(n, r) subsets, each of r elements.
pub proof fn lemma_fixed_size_count<T>(v: Seq<T>, r: nat)
    requires
        1 <= r <= v.len(),
    ensures
        sized_positions(v.len(), r).len() == binomial(v.len(), r),
        forall|k: int|
            0 <= k < sized_positions(v.len(), r).len() ==> #[trigger] subset_of(
                v,
                sized_positions(v.len(), r)[k],
            ).len() == r,
{
    lemma_sized_len(v.len(), r);
    lemma_sized_round_trip(v, r);
}

/// Asking for more elements than the sequence has gives no subset.
pub proof fn lemma_oversized_empty(n: nat, r: nat)
    requires
        r > n,
    ensures
        sized_positions(n, r).len() == 0,
{
    lemma_sized_len(n, r);
    lemma_binomial_zero(n, r);
}

/// Every index of `all_positions(n)` lies in 1 .. 2^n - 1.
proof fn lemma_all_positions_bounds(n: nat, p: nat)
    requires
        all_positions(n).contains(p),
    ensures
        1 <= p < pow2(n),
{
    let i = choose|i: int| 0 <= i < all_positions(n).len() && all_positions(n)[i] == p;
    lemma_pow2_pos(n);
}

/// Each index that fixed-size enumeration yields has `r` set bits, and the subset it names has `r` elements.
pub proof fn lemma_sized_round_trip<T>(v: Seq<T>, r: nat)
    ensures
        forall|k: int|
            0 <= k < sized_positions(v.len(), r).len() ==> popcount(
                #[trigger] sized_positions(v.len(), r)[k],
            ) == r && subset_of(v, sized_positions(v.len(), r)[k]).len() == r,
{
    let n = v.len();
    let size = |p: nat| popcount(p) == r;
    let sized = sized_positions(n, r);
    assert forall|k: int| 0 <= k < sized.len() implies popcount(#[trigger] sized[k]) == r
        && subset_of(v, sized[k]).len() == r by {
        all_positions(n).lemma_filter_pred(size, k);
        assert(sized.contains(sized[k]));
        all_positions(n).lemma_filter_contains_rev(size, sized[k]);
        lemma_all_positions_bounds(n, sized[k]);
        lemma_subset_len(v, sized[k]);
        vstd::arithmetic::div_mod::lemma_small_mod(sized[k], pow2(n));
    }
}

/// Each index that fixed-size enumeration with a predicate yields has `r`
/// set bits, and the subset it names has `r` elements.
pub proof fn lemma_qualifying_round_trip<T, F: Fn(&Vec<T>) -> bool>(v: Seq<T>, r: nat, f: F)
    ensures
        forall|k: int|
            0 <= k < qualifying_positions(v, sized_positions(v.len(), r), f).len() ==> popcount(
                #[trigger] qualifying_positions(v, sized_positions(v.len(), r), f)[k],
            ) == r && subset_of(v, qualifying_positions(v, sized_positions(v.len(), r), f)[k]).len()
                == r,
{
    let sized = sized_positions(v.len(), r);
    let q = qualifying_positions(v, sized, f);
    let acc = |p: nat| accepts(f, subset_of(v, p));
    lemma_sized_round_trip(v, r);
    assert forall|k: int| 0 <= k < q.len() implies popcount(#[trigger] q[k]) == r && subset_of(
        v,
        q[k],
    ).len() == r by {
        assert(q.contains(q[k]));
        sized.lemma_filter_contains_rev(acc, q[k]);
        let j = choose|j: int| 0 <= j < sized.len() && sized[j] == q[k];
        assert(popcount(sized[j]) == r);
    }
}

/// Filtering keeps an ascending sequence ascending, and keeps only its own
/// elements.
proof fn lemma_filter_ascending(s: Seq<nat>, pred: spec_fn(nat) -> bool)
    requires
        ascending(s),
    ensures
        ascending(s.filter(pred)),
        forall|i: int| 0 <= i < s.filter(pred).len() ==> s.contains(#[trigger] s.filter(pred)[i]),
    decreases s.len(),
{
    reveal(Seq::filter);
    if s.len() > 0 {
        let t = s.drop_last();
        lemma_filter_ascending(t, pred);
        let ft = t.filter(pred);
        assert forall|i: int| 0 <= i < ft.len() implies ft[i] < s.last() by {
            assert(t.contains(ft[i]));
        }
        assert forall|i: int| 0 <= i < ft.len() implies s.contains(#[trigger] ft[i]) by {
            let j = choose|j: int| 0 <= j < t.len() && t[j] == ft[i];
            assert(s[j] == ft[i]);
        }
        assert(s[s.len() - 1] == s.last());
    }
}

/// The indices that every enumeration yields, with or without a size and a
/// predicate, come in strictly increasing order.
pub proof fn lemma_positions_ascending<T, F: Fn(&Vec<T>) -> bool>(v: Seq<T>, r: nat, f: F)
    ensures
        ascending(all_positions(v.len())),
        ascending(sized_positions(v.len(), r)),
        ascending(qualifying_positions(v, all_positions(v.len()), f)),
        ascending(qualifying_positions(v, sized_positions(v.len(), r), f)),
{
    let n = v.len();
    let acc = |p: nat| accepts(f, subset_of(v, p));
    lemma_filter_ascending(all_positions(n), |p: nat| popcount(p) == r);
    lemma_filter_ascending(all_positions(n), acc);
    lemma_filter_ascending(sized_positions(n, r), acc);
}

/// Filtering indices by a test of what they map to, then mapping, is mapping
/// then filtering.
proof fn lemma_filter_map_commute<T>(
    s: Seq<nat>,
    g: spec_fn(nat) -> Seq<T>,
    q: spec_fn(Seq<T>) -> bool,
)
    ensures
        s.filter(|p: nat| q(g(p))).map_values(g) == s.map_values(g).filter(q),
    decreases s.len(),
{
    let both = |p: nat| q(g(p));
    if s.len() == 0 {
        reveal(Seq::filter);
        assert(s.filter(both).map_values(g) =~= s.map_values(g).filter(q));
    } else {
        let t = s.drop_last();
        lemma_filter_map_commute(t, g, q);
        assert(s =~= t.push(s.last()));
        assert(s.map_values(g) =~= t.map_values(g).push(g(s.last())));
        t.lemma_filter_push(s.last(), both);
        t.map_values(g).lemma_filter_push(g(s.last()), q);
        if q(g(s.last())) {
            let kept = t.filter(both);
            assert(kept.push(s.last()).map_values(g) =~= kept.map_values(g).push(g(s.last())));
        }
    }
}

/// Decoding the indices that fixed-size enumeration with a predicate yields
/// gives, position by position, the fixed-size subsets that the predicate
/// accepts.
pub proof fn lemma_qualifying_matches_filter<T, F: Fn(&Vec<T>) -> bool>(v: Seq<T>, r: nat, f: F)
    ensures
        decode_all(v, qualifying_positions(v, sized_positions(v.len(), r), f)) == decode_all(
            v,
            sized_positions(v.len(), r),
        ).filter(|s: Seq<T>| accepts(f, s)),
{
    let g = |p: nat| subset_of(v, p);
    let q = |s: Seq<T>| accepts(f, s);
    lemma_filter_map_commute(sized_positions(v.len(), r), g, q);
    assert((|p: nat| q(g(p))) =~= (|p: nat| accepts(f, subset_of(v, p))));
}

} // verus!
