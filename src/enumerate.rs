//! The enumerations: each walks the indices 1 through 2^n - 1 in order.
use crate::laws::{lemma_sized_len, lemma_sized_round_trip};
use crate::model::{
    accepts, all_positions, as_nats, binomial, decode_all, index_range, is_pure_predicate,
    lemma_answer, lemma_popcount_bound, lemma_subset_len, popcount, qualifying_positions,
    sized_positions, subset_of, views,
};
use vstd::arithmetic::power2::{
    lemma2_to64, lemma_pow2_adds, lemma_pow2_pos, lemma_pow2_strictly_increases, lemma_pow2_unfold,
    pow2,
};
use vstd::prelude::*;

verus! {

/// One past the largest value of `u128`.
proof fn lemma_pow2_128()
    ensures
        pow2(128) == 0x1_0000_0000_0000_0000_0000_0000_0000_0000nat,
{
    lemma2_to64();
    lemma_pow2_adds(64, 64);
}

/// 2^n for n below 128.
fn position_bound(n: usize) -> (end: u128)
    requires
        n < 128,
    ensures
        end == pow2(n as nat),
{
    let mut end: u128 = 1;
    let mut i: usize = 0;
    proof {
        lemma2_to64();
        lemma_pow2_128();
    }
    while i < n
        invariant
            i <= n < 128,
            end == pow2(i as nat),
            pow2(128) == 0x1_0000_0000_0000_0000_0000_0000_0000_0000nat,
        decreases n - i,
    {
        proof {
            lemma_pow2_unfold((i + 1) as nat);
            lemma_pow2_strictly_increases((i + 1) as nat, 128);
        }
        end = end * 2;
        i = i + 1;
    }
    end
}

/// Number of set bits of `x`.
fn population_count(x: u128) -> (c: u32)
    ensures
        c == popcount(x as nat),
{
    let mut rest: u128 = x;
    let mut c: u32 = 0;
    proof {
        lemma_pow2_128();
        lemma_popcount_bound(x as nat, 128);
    }
    while rest > 0
        invariant
            c + popcount(rest as nat) == popcount(x as nat),
            popcount(x as nat) <= 128,
        decreases rest,
    {
        c = c + (rest % 2) as u32;
        rest = rest / 2;
    }
    c
}

/// The subset of `v` that the bits of `pos` name, in the order of `v`.
pub fn get_subset<T: Copy>(v: &Vec<T>, pos: u128) -> (subset: Vec<T>)
    ensures
        subset@ == subset_of(v@, pos as nat),
        subset@.len() == popcount(pos as nat % pow2(v@.len())),
{
    proof {
        lemma_subset_len(v@, pos as nat);
    }
    let mut subset: Vec<T> = Vec::new();
    let mut rest: u128 = pos;
    let mut i: usize = 0;
    assert(v@.subrange(0, v@.len() as int) =~= v@);
    assert(subset@ + subset_of(v@, pos as nat) =~= subset_of(v@, pos as nat));
    while i < v.len()
        invariant
            i <= v@.len(),
            subset@ + subset_of(v@.subrange(i as int, v@.len() as int), rest as nat)
                == subset_of(v@, pos as nat),
        decreases v@.len() - i,
    {
        let ghost tail = v@.subrange(i as int, v@.len() as int);
        assert(tail.drop_first() =~= v@.subrange(i + 1, v@.len() as int));
        let ghost before = subset@;
        if rest % 2 == 1 {
            subset.push(v[i]);
            assert(subset@ == before + seq![v@[i as int]]);
        }
        proof {
            let next = v@.subrange(i + 1, v@.len() as int);
            assert(subset@ + subset_of(next, (rest / 2) as nat) =~= before + subset_of(
                tail,
                rest as nat,
            ));
        }
        rest = rest / 2;
        i = i + 1;
    }
    assert(v@.subrange(i as int, v@.len() as int) =~= Seq::<T>::empty());
    assert(subset@ =~= subset_of(v@, pos as nat));
    subset
}

/// Every non-empty subset of `v`, in ascending order of the index naming it.
pub fn all<T: Copy>(v: &Vec<T>) -> (subsets: Vec<Vec<T>>)
    requires
        v@.len() < 128,
    ensures
        views(subsets@) == decode_all(v@, all_positions(v@.len())),
        subsets@.len() == pow2(v@.len()) - 1,
{
    let mut subsets: Vec<Vec<T>> = Vec::new();
    let end: u128 = position_bound(v.len());
    let mut pos: u128 = 1;
    proof {
        lemma_pow2_pos(v@.len());
    }
    while pos < end
        invariant
            1 <= pos <= end,
            end == pow2(v@.len()),
            views(subsets@) == decode_all(v@, index_range((pos - 1) as nat)),
        decreases end - pos,
    {
        let subset = get_subset(v, pos);
        proof {
            assert(index_range(pos as nat) =~= index_range((pos - 1) as nat).push(pos as nat));
        }
        let ghost before = subsets@;
        subsets.push(subset);
        assert(views(subsets@) =~= views(before).push(subset@));
        let ghost done = index_range((pos - 1) as nat);
        assert(decode_all(v@, done.push(pos as nat)) =~= decode_all(v@, done).push(
            subset_of(v@, pos as nat),
        ));
        pos = pos + 1;
    }
    subsets
}

pub fn all_qualifying<T: Copy, F: Fn(&Vec<T>) -> bool>(
    v: &Vec<T>,
    qualifies: F,
) -> (subsets: Vec<Vec<T>>)
    requires
        v@.len() < 128,
        is_pure_predicate(qualifies),
    ensures
        views(subsets@) == decode_all(
            v@,
            qualifying_positions(v@, all_positions(v@.len()), qualifies),
        ),
{
    let mut subsets: Vec<Vec<T>> = Vec::new();
    let end: u128 = position_bound(v.len());
    let mut pos: u128 = 1;
    proof {
        lemma_pow2_pos(v@.len());
    }
    while pos < end
        invariant
            1 <= pos <= end,
            end == pow2(v@.len()),
            is_pure_predicate(qualifies),
            views(subsets@) == decode_all(
                v@,
                qualifying_positions(v@, index_range((pos - 1) as nat), qualifies),
            ),
        decreases end - pos,
    {
        let subset = get_subset(v, pos);
        let ghost before = subsets@;
        let ghost done = qualifying_positions(v@, index_range((pos - 1) as nat), qualifies);
        proof {
            assert(index_range(pos as nat) =~= index_range((pos - 1) as nat).push(pos as nat));
            index_range((pos - 1) as nat).lemma_filter_push(
                pos as nat,
                |p: nat| accepts(qualifies, subset_of(v@, p)),
            );
        }
        let keep = qualifies(&subset);
        proof {
            lemma_answer(qualifies, &subset, keep);
        }
        if keep {
            subsets.push(subset);
            assert(views(subsets@) =~= views(before).push(subset@));
            assert(decode_all(v@, done.push(pos as nat)) =~= decode_all(v@, done).push(
                subset_of(v@, pos as nat),
            ));
        }
        pos = pos + 1;
    }
    subsets
}

/// The indices, ascending, of the non-empty subsets of `v` that `qualifies`
/// accepts. Index `p` is the `p`-th subset that `all` gives, counting from 1.
pub fn all_qualifying_positions<T: Copy, F: Fn(&Vec<T>) -> bool>(
    v: &Vec<T>,
    qualifies: F,
) -> (positions: Vec<u128>)
    requires
        v@.len() < 128,
        is_pure_predicate(qualifies),
    ensures
        as_nats(positions@) == qualifying_positions(v@, all_positions(v@.len()), qualifies),
{
    let mut positions: Vec<u128> = Vec::new();
    let end: u128 = position_bound(v.len());
    let mut pos: u128 = 1;
    proof {
        lemma_pow2_pos(v@.len());
    }
    while pos < end
        invariant
            1 <= pos <= end,
            end == pow2(v@.len()),
            is_pure_predicate(qualifies),
            as_nats(positions@) == qualifying_positions(
                v@,
                index_range((pos - 1) as nat),
                qualifies,
            ),
        decreases end - pos,
    {
        let subset = get_subset(v, pos);
        let ghost before = positions@;
        proof {
            assert(index_range(pos as nat) =~= index_range((pos - 1) as nat).push(pos as nat));
            index_range((pos - 1) as nat).lemma_filter_push(
                pos as nat,
                |p: nat| accepts(qualifies, subset_of(v@, p)),
            );
        }
        let keep = qualifies(&subset);
        proof {
            lemma_answer(qualifies, &subset, keep);
        }
        if keep {
            positions.push(pos);
            assert(as_nats(positions@) =~= as_nats(before).push(pos as nat));
        }
        pos = pos + 1;
    }
    positions
}

/// The subsets of `v` with exactly `r` elements, in ascending order of the
/// index naming them. Equal elements of `v` are not merged.
pub fn combinations<T: Copy>(v: &Vec<T>, r: u32) -> (subsets: Vec<Vec<T>>)
    requires
        v@.len() < 128,
    ensures
        views(subsets@) == decode_all(v@, sized_positions(v@.len(), r as nat)),
        subsets@.len() == if r == 0 {
            0
        } else {
            binomial(v@.len(), r as nat)
        },
        forall|k: int| 0 <= k < subsets@.len() ==> (#[trigger] subsets@[k])@.len() == r,
{
    let mut subsets: Vec<Vec<T>> = Vec::new();
    let end: u128 = position_bound(v.len());
    let mut pos: u128 = 1;
    proof {
        lemma_pow2_pos(v@.len());
    }
    while pos < end
        invariant
            1 <= pos <= end,
            end == pow2(v@.len()),
            views(subsets@) == decode_all(
                v@,
                index_range((pos - 1) as nat).filter(|p: nat| popcount(p) == r),
            ),
        decreases end - pos,
    {
        let ghost before = subsets@;
        let ghost done = index_range((pos - 1) as nat).filter(|p: nat| popcount(p) == r);
        proof {
            assert(index_range(pos as nat) =~= index_range((pos - 1) as nat).push(pos as nat));
            index_range((pos - 1) as nat).lemma_filter_push(pos as nat, |p: nat| popcount(p) == r);
        }
        if population_count(pos) == r {
            let subset = get_subset(v, pos);
            subsets.push(subset);
            assert(views(subsets@) =~= views(before).push(subset@));
            assert(decode_all(v@, done.push(pos as nat)) =~= decode_all(v@, done).push(
                subset_of(v@, pos as nat),
            ));
        }
        pos = pos + 1;
    }
    proof {
        let sized = sized_positions(v@.len(), r as nat);
        lemma_sized_len(v@.len(), r as nat);
        lemma_sized_round_trip(v@, r as nat);
        assert(views(subsets@).len() == subsets@.len());
        assert forall|k: int| 0 <= k < subsets@.len() implies (#[trigger] subsets@[k])@.len()
            == r by {
            assert(views(subsets@)[k] == subsets@[k]@);
            assert(decode_all(v@, sized)[k] == subset_of(v@, sized[k]));
        }
    }
    subsets
}

/// The indices, ascending, of the subsets of `v` with exactly `r` elements.
/// Index `p` is the `p`-th subset that `all` gives, counting from 1.
pub fn combinations_positions<T: Copy>(v: &Vec<T>, r: u32) -> (positions: Vec<u128>)
    requires
        v@.len() < 128,
    ensures
        as_nats(positions@) == sized_positions(v@.len(), r as nat),
        positions@.len() == if r == 0 {
            0
        } else {
            binomial(v@.len(), r as nat)
        },
{
    let mut positions: Vec<u128> = Vec::new();
    let end: u128 = position_bound(v.len());
    let mut pos: u128 = 1;
    proof {
        lemma_pow2_pos(v@.len());
    }
    while pos < end
        invariant
            1 <= pos <= end,
            end == pow2(v@.len()),
            as_nats(positions@) == index_range((pos - 1) as nat).filter(|p: nat| popcount(p) == r),
        decreases end - pos,
    {
        let ghost before = positions@;
        proof {
            assert(index_range(pos as nat) =~= index_range((pos - 1) as nat).push(pos as nat));
            index_range((pos - 1) as nat).lemma_filter_push(pos as nat, |p: nat| popcount(p) == r);
        }
        if population_count(pos) == r {
            positions.push(pos);
            assert(as_nats(positions@) =~= as_nats(before).push(pos as nat));
        }
        pos = pos + 1;
    }
    proof {
        lemma_sized_len(v@.len(), r as nat);
        assert(as_nats(positions@).len() == positions@.len());
    }
    positions
}

/// The indices, ascending, of the subsets of `v` with exactly `r` elements
/// that `qualifies` accepts. Index `p` is the `p`-th subset that `all`
/// gives, counting from 1.
pub fn combinations_qualifying_positions<T: Copy, F: Fn(&Vec<T>) -> bool>(
    v: &Vec<T>,
    r: u32,
    qualifies: F,
) -> (positions: Vec<u128>)
    requires
        v@.len() < 128,
        is_pure_predicate(qualifies),
    ensures
        as_nats(positions@) == qualifying_positions(
            v@,
            sized_positions(v@.len(), r as nat),
            qualifies,
        ),
{
    let mut positions: Vec<u128> = Vec::new();
    let end: u128 = position_bound(v.len());
    let mut pos: u128 = 1;
    proof {
        lemma_pow2_pos(v@.len());
    }
    while pos < end
        invariant
            1 <= pos <= end,
            end == pow2(v@.len()),
            is_pure_predicate(qualifies),
            as_nats(positions@) == qualifying_positions(
                v@,
                index_range((pos - 1) as nat).filter(|p: nat| popcount(p) == r),
                qualifies,
            ),
        decreases end - pos,
    {
        let ghost before = positions@;
        let ghost sized = index_range((pos - 1) as nat).filter(|p: nat| popcount(p) == r);
        proof {
            assert(index_range(pos as nat) =~= index_range((pos - 1) as nat).push(pos as nat));
            index_range((pos - 1) as nat).lemma_filter_push(pos as nat, |p: nat| popcount(p) == r);
            sized.lemma_filter_push(pos as nat, |p: nat| accepts(qualifies, subset_of(v@, p)));
        }
        if population_count(pos) == r {
            let subset = get_subset(v, pos);
            let keep = qualifies(&subset);
            proof {
                lemma_answer(qualifies, &subset, keep);
            }
            if keep {
                positions.push(pos);
                assert(as_nats(positions@) =~= as_nats(before).push(pos as nat));
            }
        }
        pos = pos + 1;
    }
    positions
}

} // verus!
