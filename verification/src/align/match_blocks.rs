//! Pairing the blocks of two traces.
use vstd::prelude::*;
use vstd::multiset::Multiset;
use std::ops::Range;
use crate::align::nw;
use crate::scalar::Scalar;
use crate::sort::{self, arrange, sort_order, Falling};
use crate::trace::KernelEvent;

verus! {

/// The names of the kernels in a range of positions; none where the range does
/// not lie in the list.
pub open spec fn range_names<T>(kernels: Seq<KernelEvent<T>>, range: Range<usize>) -> Seq<
    Seq<char>,
> {
    if range.start <= range.end <= kernels.len() {
        nw::names_of(kernels.subrange(range.start as int, range.end as int))
    } else {
        Seq::empty()
    }
}

/// How many texts two lists have in common, each as often as it stands in both.
pub open spec fn common_count(a: Seq<Seq<char>>, b: Seq<Seq<char>>) -> nat {
    a.to_multiset().intersection_with(b.to_multiset()).len()
}

/// The share of names that two blocks have in common, as bags, by the longer one;
/// one where both are empty.
pub open spec fn similarity<T, C: Scalar>(
    ref_range: Range<usize>,
    other_range: Range<usize>,
    ref_kernels: Seq<KernelEvent<T>>,
    other_kernels: Seq<KernelEvent<T>>,
) -> C {
    let a = range_names(ref_kernels, ref_range);
    let b = range_names(other_kernels, other_range);
    let most = if a.len() > b.len() {
        a.len()
    } else {
        b.len()
    };
    if most == 0 {
        C::whole_spec(1)
    } else {
        C::whole_spec(common_count(a, b) as u64).over_spec(C::whole_spec(most as u64))
    }
}

/// Every pair of a block of the one trace with a block of the other, in the
/// order of the first, then of the second.
pub open spec fn all_pairs(n: nat, m: nat) -> Seq<(usize, usize)> {
    Seq::new(n * m, |k: int| ((k / m as int) as usize, (k % m as int) as usize))
}

/// The blocks that are already paired on the one side.
pub open spec fn has_left(pairs: Seq<(usize, usize)>, i: usize) -> bool {
    exists|k: int| 0 <= k < pairs.len() && (#[trigger] pairs[k]).0 == i
}

/// The blocks that are already paired on the other side.
pub open spec fn has_right(pairs: Seq<(usize, usize)>, j: usize) -> bool {
    exists|k: int| 0 <= k < pairs.len() && (#[trigger] pairs[k]).1 == j
}

/// What is left of a list of pairs, taken in order, when no block is to be
/// paired twice.
pub open spec fn greedy(pairs: Seq<(usize, usize)>) -> Seq<(usize, usize)>
    decreases pairs.len(),
{
    if pairs.len() == 0 {
        Seq::empty()
    } else {
        let taken = greedy(pairs.drop_last());
        if has_left(taken, pairs.last().0) || has_right(taken, pairs.last().1) {
            taken
        } else {
            taken.push(pairs.last())
        }
    }
}

/// The scores of all pairs, as sort keys: the most similar first.
pub open spec fn pair_keys<T, C: Scalar>(
    ref_blocks: Seq<(T, T, Range<usize>)>,
    other_blocks: Seq<(T, T, Range<usize>)>,
    ref_kernels: Seq<KernelEvent<T>>,
    other_kernels: Seq<KernelEvent<T>>,
) -> Seq<Falling<C>> {
    all_pairs(ref_blocks.len(), other_blocks.len()).map_values(
        |p: (usize, usize)|
            Falling(
                similarity::<T, C>(
                    ref_blocks[p.0 as int].2,
                    other_blocks[p.1 as int].2,
                    ref_kernels,
                    other_kernels,
                ),
            ),
    )
}

/// Pairs in the order of their first blocks.
pub open spec fn by_left(pairs: Seq<(usize, usize)>) -> Seq<(usize, usize)> {
    sort::picked(pairs, sort::sorted_order(pairs.map_values(|p: (usize, usize)| p.0)))
}

/// The pairs of matching blocks: as many blocks on both sides are paired in
/// order; otherwise the most similar pairs are taken first, no block twice.
pub open spec fn block_pairs<T, C: Scalar>(
    ref_blocks: Seq<(T, T, Range<usize>)>,
    other_blocks: Seq<(T, T, Range<usize>)>,
    ref_kernels: Seq<KernelEvent<T>>,
    other_kernels: Seq<KernelEvent<T>>,
) -> Seq<(usize, usize)> {
    if ref_blocks.len() == 0 || other_blocks.len() == 0 {
        Seq::empty()
    } else if ref_blocks.len() == other_blocks.len() {
        Seq::new(ref_blocks.len(), |i: int| (i as usize, i as usize))
    } else {
        by_left(
            greedy(
                sort::picked(
                    all_pairs(ref_blocks.len(), other_blocks.len()),
                    sort::sorted_order(
                        pair_keys::<T, C>(ref_blocks, other_blocks, ref_kernels, other_kernels),
                    ),
                ),
            ),
        )
    }
}

/// The names of the kernels in a range of positions.
fn names_in<T: Scalar>(kernels: &[KernelEvent<T>], range: &Range<usize>) -> (r: Vec<String>)
    ensures
        crate::text::texts(r@) == range_names(kernels@, *range),
{
    let mut out: Vec<String> = Vec::new();
    if !(range.start <= range.end && range.end <= kernels.len()) {
        assert(crate::text::texts(out@) == Seq::<Seq<char>>::empty());
        return out;
    }
    let ghost goal = range_names(kernels@, *range);
    let mut i: usize = range.start;
    while i < range.end
        invariant
            range.start <= i <= range.end <= kernels@.len(),
            goal == range_names(kernels@, *range),
            crate::text::texts(out@) == goal.take(i - range.start),
        decreases range.end - i,
    {
        let ghost before = out@;
        out.push(kernels[i].name.clone());
        assert(crate::text::texts(out@) == crate::text::texts(before).push(
            kernels@[i as int].name@,
        ));
        i += 1;
        assert(crate::text::texts(out@) == goal.take(i - range.start));
    }
    assert(goal.take(goal.len() as int) == goal);
    out
}

/// Taking one more text into a bag adds it to what two bags have in common exactly
/// where the other bag has more of it.
proof fn lemma_common_grows(a: Multiset<Seq<char>>, b: Multiset<Seq<char>>, x: Seq<char>)
    ensures
        a.insert(x).intersection_with(b) == if a.count(x) < b.count(x) {
            a.intersection_with(b).insert(x)
        } else {
            a.intersection_with(b)
        },
{
    broadcast use vstd::multiset::group_multiset_axioms;

    let goal = if a.count(x) < b.count(x) {
        a.intersection_with(b).insert(x)
    } else {
        a.intersection_with(b)
    };
    assert forall|v: Seq<char>| #[trigger]
        a.insert(x).intersection_with(b).count(v) == goal.count(v) by {
        vstd::multiset::lemma_intersection_count(a.insert(x), b, v);
        vstd::multiset::lemma_intersection_count(a, b, v);
    }
    assert(a.insert(x).intersection_with(b) =~= goal);
}

/// Where a text stands in a list of texts.
fn find_text(list: &Vec<String>, s: &String) -> (r: Option<usize>)
    ensures
        match r {
            Some(p) => p < list@.len() && list@[p as int]@ == s@,
            None => !crate::text::texts(list@).contains(s@),
        },
{
    let ghost all = crate::text::texts(list@);
    let mut i: usize = 0;
    while i < list.len()
        invariant
            i <= list@.len(),
            all == crate::text::texts(list@),
            forall|j: int| 0 <= j < i ==> #[trigger] all[j] != s@,
        decreases list@.len() - i,
    {
        assert(all[i as int] == list@[i as int]@);
        if list[i] == *s {
            return Some(i);
        }
        i += 1;
    }
    None
}

/// How many texts two lists have in common, each as often as it stands in both.
fn count_common(a: &Vec<String>, b: Vec<String>) -> (r: usize)
    ensures
        r == common_count(crate::text::texts(a@), crate::text::texts(b@)),
        r <= a@.len(),
{
    let ghost ta = crate::text::texts(a@);
    let ghost all = crate::text::texts(b@).to_multiset();
    let mut left = b;
    let mut common: usize = 0;
    let mut i: usize = 0;
    proof {
        broadcast use vstd::multiset::group_multiset_axioms;

        assert(ta.take(0) == Seq::<Seq<char>>::empty());
        assert(ta.take(0).to_multiset() =~= Multiset::<Seq<char>>::empty()) by {
            ta.take(0).to_multiset_ensures();
        }
        assert forall|v: Seq<char>| #[trigger]
            Multiset::<Seq<char>>::empty().intersection_with(all).count(v) == 0 by {
            vstd::multiset::lemma_intersection_count(Multiset::empty(), all, v);
        }
        assert(Multiset::<Seq<char>>::empty().intersection_with(all) =~= Multiset::empty());
    }
    while i < a.len()
        invariant
            i <= a@.len(),
            ta == crate::text::texts(a@),
            common == ta.take(i as int).to_multiset().intersection_with(all).len(),
            common <= i,
            forall|v: Seq<char>|
                (#[trigger] crate::text::texts(left@).to_multiset().count(v)) == if all.count(v)
                    > ta.take(i as int).to_multiset().count(v) {
                    all.count(v) - ta.take(i as int).to_multiset().count(v)
                } else {
                    0
                },
        decreases a@.len() - i,
    {
        let ghost seen = ta.take(i as int);
        let ghost rest = crate::text::texts(left@);
        let ghost x = a@[i as int]@;
        proof {
            assert(ta.take(i + 1) == seen.push(x));
            seen.to_multiset_ensures();
            rest.to_multiset_ensures();
            lemma_common_grows(seen.to_multiset(), all, x);
            assert(rest.to_multiset().count(x) == if all.count(x) > seen.to_multiset().count(x) {
                all.count(x) - seen.to_multiset().count(x)
            } else {
                0
            });
        }
        match find_text(&left, &a[i]) {
            Some(p) => {
                proof {
                    broadcast use vstd::multiset::group_multiset_axioms;

                    assert(rest[p as int] == x);
                    assert(rest.contains(x));
                }
                left.remove(p);
                proof {
                    broadcast use vstd::multiset::group_multiset_axioms;

                    assert(crate::text::texts(left@) == rest.remove(p as int));
                    assert(crate::text::texts(left@).to_multiset() == rest.to_multiset().remove(
                        x,
                    ));
                }
                common += 1;
            },
            None => {
                proof {
                    broadcast use vstd::multiset::group_multiset_axioms;

                    assert(rest.to_multiset().count(x) == 0);
                }
            },
        }
        i += 1;
        proof {
            broadcast use vstd::multiset::group_multiset_axioms;

            assert(ta.take(i as int).to_multiset() == seen.to_multiset().insert(x));
        }
    }
    assert(ta.take(a@.len() as int) == ta);
    common
}

/// The share of names that two blocks have in common, as bags.
fn block_similarity<T: Scalar, C: Scalar>(
    ref_range: &Range<usize>,
    other_range: &Range<usize>,
    ref_kernels: &[KernelEvent<T>],
    other_kernels: &[KernelEvent<T>],
) -> (r: C)
    ensures
        r == similarity::<T, C>(*ref_range, *other_range, ref_kernels@, other_kernels@),
{
    let a = names_in(ref_kernels, ref_range);
    let b = names_in(other_kernels, other_range);
    let most: usize = if a.len() > b.len() {
        a.len()
    } else {
        b.len()
    };
    proof {
        assert(a@.len() == range_names(ref_kernels@, *ref_range).len());
        assert(b@.len() == range_names(other_kernels@, *other_range).len());
    }
    if most == 0 {
        return C::whole(1);
    }
    C::whole(count_common(&a, b) as u64).over(C::whole(most as u64))
}

/// Takes pairs in order, as long as no block is paired twice.
fn take_greedily(pairs: &Vec<(usize, usize)>, n: usize, m: usize) -> (r: Vec<(usize, usize)>)
    requires
        forall|k: int| 0 <= k < pairs@.len() ==> (#[trigger] pairs@[k]).0 < n && pairs@[k].1 < m,
    ensures
        r@ == greedy(pairs@),
{
    let mut used_left: Vec<bool> = Vec::new();
    let mut i: usize = 0;
    while i < n
        invariant
            i <= n,
            used_left@.len() == i,
            forall|k: int| 0 <= k < i ==> !#[trigger] used_left@[k],
        decreases n - i,
    {
        used_left.push(false);
        i += 1;
    }
    let mut used_right: Vec<bool> = Vec::new();
    let mut j: usize = 0;
    while j < m
        invariant
            j <= m,
            used_right@.len() == j,
            forall|k: int| 0 <= k < j ==> !#[trigger] used_right@[k],
        decreases m - j,
    {
        used_right.push(false);
        j += 1;
    }
    let mut out: Vec<(usize, usize)> = Vec::new();
    let mut k: usize = 0;
    while k < pairs.len()
        invariant
            k <= pairs@.len(),
            forall|k: int|
                0 <= k < pairs@.len() ==> (#[trigger] pairs@[k]).0 < n && pairs@[k].1 < m,
            used_left@.len() == n,
            used_right@.len() == m,
            out@ == greedy(pairs@.take(k as int)),
            forall|x: usize| x < n ==> #[trigger] used_left@[x as int] == has_left(out@, x),
            forall|y: usize| y < m ==> #[trigger] used_right@[y as int] == has_right(out@, y),
        decreases pairs@.len() - k,
    {
        assert(pairs@.take(k + 1).drop_last() == pairs@.take(k as int));
        assert(pairs@.take(k + 1).last() == pairs@[k as int]);
        let (ri, oi) = pairs[k];
        if !used_left[ri] && !used_right[oi] {
            let ghost before = out@;
            out.push((ri, oi));
            used_left.set(ri, true);
            used_right.set(oi, true);
            proof {
                assert(out@[before.len() as int] == (ri, oi));
                assert forall|x: usize| x < n implies #[trigger] used_left@[x as int] == has_left(
                    out@,
                    x,
                ) by {
                    if has_left(before, x) {
                        let q = choose|q: int| 0 <= q < before.len() && (#[trigger] before[q]).0 == x;
                        assert(out@[q].0 == x);
                    }
                    if has_left(out@, x) && x != ri {
                        let q = choose|q: int| 0 <= q < out@.len() && (#[trigger] out@[q]).0 == x;
                        assert(before[q].0 == x);
                    }
                }
                assert forall|y: usize| y < m implies #[trigger] used_right@[y as int] == has_right(
                    out@,
                    y,
                ) by {
                    if has_right(before, y) {
                        let q = choose|q: int| 0 <= q < before.len() && (#[trigger] before[q]).1 == y;
                        assert(out@[q].1 == y);
                    }
                    if has_right(out@, y) && y != oi {
                        let q = choose|q: int| 0 <= q < out@.len() && (#[trigger] out@[q]).1 == y;
                        assert(before[q].1 == y);
                    }
                }
            }
        }
        k += 1;
    }
    assert(pairs@.take(pairs@.len() as int) == pairs@);
    out
}

/// Sorts pairs by their first blocks.
fn sort_by_left(pairs: Vec<(usize, usize)>) -> (r: Vec<(usize, usize)>)
    ensures
        r@ == by_left(pairs@),
{
    let mut keys: Vec<usize> = Vec::new();
    let mut i: usize = 0;
    while i < pairs.len()
        invariant
            i <= pairs@.len(),
            keys@ == pairs@.map_values(|p: (usize, usize)| p.0).take(i as int),
        decreases pairs@.len() - i,
    {
        keys.push(pairs[i].0);
        i += 1;
        assert(keys@ == pairs@.map_values(|p: (usize, usize)| p.0).take(i as int));
    }
    assert(keys@ == pairs@.map_values(|p: (usize, usize)| p.0));
    let order = sort_order(&keys);
    arrange(pairs, &order)
}

/// Greedily pairs reference blocks with other-trace blocks. Equal counts are
/// paired by index. Unequal counts are scored by the overlap of their names, and
/// the highest non-conflicting pairs are picked (ties broken by index order).
pub fn match_blocks<T: Scalar, C: Scalar>(
    ref_blocks: &[(T, T, Range<usize>)],
    other_blocks: &[(T, T, Range<usize>)],
    ref_kernels: &[KernelEvent<T>],
    other_kernels: &[KernelEvent<T>],
) -> (r: Vec<(usize, usize)>)
    ensures
        r@ == block_pairs::<T, C>(ref_blocks@, other_blocks@, ref_kernels@, other_kernels@),
        forall|k: int|
            0 <= k < r@.len() ==> (#[trigger] r@[k]).0 < ref_blocks@.len() && r@[k].1
                < other_blocks@.len(),
{
    let n: usize = ref_blocks.len();
    let m: usize = other_blocks.len();
    let mut pairs: Vec<(usize, usize)> = Vec::new();
    if n == 0 || m == 0 {
        return pairs;
    }
    if n == m {
        let mut i: usize = 0;
        while i < n
            invariant
                i <= n,
                pairs@ == Seq::new(i as nat, |i: int| (i as usize, i as usize)),
            decreases n - i,
        {
            pairs.push((i, i));
            i += 1;
            assert(pairs@ == Seq::new(i as nat, |i: int| (i as usize, i as usize)));
        }
        return pairs;
    }
    let ghost goal = all_pairs(n as nat, m as nat);
    let ghost goal_keys = pair_keys::<T, C>(
        ref_blocks@,
        other_blocks@,
        ref_kernels@,
        other_kernels@,
    );
    let mut keys: Vec<Falling<C>> = Vec::new();
    let mut ri: usize = 0;
    while ri < n
        invariant
            ri <= n == ref_blocks@.len(),
            m == other_blocks@.len(),
            m > 0,
            goal == all_pairs(n as nat, m as nat),
            goal_keys == pair_keys::<T, C>(
                ref_blocks@,
                other_blocks@,
                ref_kernels@,
                other_kernels@,
            ),
            goal.len() == n * m == goal_keys.len(),
            ri * m <= n * m,
            pairs@ == goal.take(ri * m),
            keys@ == goal_keys.take(ri * m),
        decreases n - ri,
    {
        let mut oi: usize = 0;
        proof {
            assert(ri * m + m <= n * m) by (nonlinear_arith)
                requires
                    ri < n,
                    m > 0,
            ;
        }
        while oi < m
            invariant
                ri < n == ref_blocks@.len(),
                oi <= m == other_blocks@.len(),
                m > 0,
                ri * m + m <= n * m,
                goal == all_pairs(n as nat, m as nat),
                goal_keys == pair_keys::<T, C>(
                    ref_blocks@,
                    other_blocks@,
                    ref_kernels@,
                    other_kernels@,
                ),
                goal.len() == n * m == goal_keys.len(),
                pairs@ == goal.take(ri * m + oi),
                keys@ == goal_keys.take(ri * m + oi),
            decreases m - oi,
        {
            let score: C = block_similarity(
                &ref_blocks[ri].2,
                &other_blocks[oi].2,
                ref_kernels,
                other_kernels,
            );
            let ghost k = ri * m + oi;
            proof {
                assert(k / m as int == ri && k % m as int == oi) by {
                    vstd::arithmetic::div_mod::lemma_fundamental_div_mod_converse(
                        k,
                        m as int,
                        ri as int,
                        oi as int,
                    );
                }
                assert(goal[k] == (ri, oi));
                assert(goal_keys[k] == Falling(score));
            }
            pairs.push((ri, oi));
            keys.push(Falling(score));
            oi += 1;
            assert(pairs@ == goal.take(ri * m + oi));
            assert(keys@ == goal_keys.take(ri * m + oi));
        }
        proof {
            assert(ri * m + m == (ri + 1) * m) by (nonlinear_arith);
        }
        ri += 1;
    }
    assert(pairs@ == goal);
    assert(keys@ == goal_keys);
    let order = sort_order(&keys);
    let sorted = arrange(pairs, &order);
    proof {
        assert forall|k: int| 0 <= k < sorted@.len() implies (#[trigger] sorted@[k]).0 < n
            && sorted@[k].1 < m by {
            let q = order@[k] as int;
            assert(sorted@[k] == goal[q]);
            lemma_quotient_in_range(q, n as int, m as int);
        }
    }
    let r = sort_by_left(take_greedily(&sorted, n, m));
    proof {
        assert(sorted@.len() == sorted.len());
        let goal = block_pairs::<T, C>(ref_blocks@, other_blocks@, ref_kernels@, other_kernels@);
        assert(r@ == goal);
        pairs_point_at_blocks::<T, C>(ref_blocks@, other_blocks@, ref_kernels@, other_kernels@);
        assert forall|k: int| 0 <= k < r@.len() implies (#[trigger] r@[k]).0 < n && r@[k].1 < m by {
            assert(r@[k] == goal[k]);
        }
    }
    r
}

proof fn lemma_quotient_in_range(q: int, n: int, m: int)
    requires
        0 <= q < n * m,
        m > 0,
    ensures
        0 <= q / m < n,
        0 <= q % m < m,
{
    vstd::arithmetic::div_mod::lemma_mod_bound(q, m);
    vstd::arithmetic::div_mod::lemma_fundamental_div_mod(q, m);
    let d = q / m;
    let r = q % m;
    assert(0 <= d < n) by (nonlinear_arith)
        requires
            0 <= q < n * m,
            m > 0,
            q == m * d + r,
            0 <= r < m,
    ;
}

pub(crate) proof fn lemma_greedy(pairs: Seq<(usize, usize)>)
    ensures
        forall|i: int| 0 <= i < greedy(pairs).len() ==> pairs.contains(#[trigger] greedy(pairs)[i]),
        forall|i: int, j: int|
            0 <= i < j < greedy(pairs).len() ==> greedy(pairs)[i].0 != greedy(pairs)[j].0
                && greedy(pairs)[i].1 != greedy(pairs)[j].1,
    decreases pairs.len(),
{
    if pairs.len() > 0 {
        let rest = pairs.drop_last();
        lemma_greedy(rest);
        let taken = greedy(rest);
        let all = greedy(pairs);
        assert forall|i: int| 0 <= i < all.len() implies pairs.contains(#[trigger] all[i]) by {
            if i < taken.len() {
                assert(all[i] == taken[i]);
                let q = choose|q: int| 0 <= q < rest.len() && rest[q] == taken[i];
                assert(pairs[q] == all[i]);
            } else {
                assert(pairs[pairs.len() - 1] == all[i]);
            }
        }
        assert forall|i: int, j: int| 0 <= i < j < all.len() implies all[i].0 != all[j].0
            && all[i].1 != all[j].1 by {
            if j == taken.len() {
                assert(taken[i].0 != pairs.last().0);
                assert(taken[i].1 != pairs.last().1);
            }
        }
    }
}

/// No block of either trace is paired twice.
pub proof fn no_block_is_paired_twice(pairs: Seq<(usize, usize)>, i: int, j: int)
    requires
        0 <= i < j < greedy(pairs).len(),
    ensures
        greedy(pairs)[i].0 != greedy(pairs)[j].0,
        greedy(pairs)[i].1 != greedy(pairs)[j].1,
{
    lemma_greedy(pairs);
}

/// Pairs point at blocks that exist.
pub proof fn pairs_point_at_blocks<T, C: Scalar>(
    ref_blocks: Seq<(T, T, Range<usize>)>,
    other_blocks: Seq<(T, T, Range<usize>)>,
    ref_kernels: Seq<KernelEvent<T>>,
    other_kernels: Seq<KernelEvent<T>>,
)
    requires
        ref_blocks.len() * other_blocks.len() <= usize::MAX,
        ref_blocks.len() <= usize::MAX,
    ensures
        forall|k: int|
            0 <= k < block_pairs::<T, C>(
                ref_blocks,
                other_blocks,
                ref_kernels,
                other_kernels,
            ).len() ==> {
                let p = #[trigger] block_pairs::<T, C>(
                    ref_blocks,
                    other_blocks,
                    ref_kernels,
                    other_kernels,
                )[k];
                p.0 < ref_blocks.len() && p.1 < other_blocks.len()
            },
{
    let n = ref_blocks.len();
    let m = other_blocks.len();
    if n > 0 && m > 0 && n != m {
        let all = all_pairs(n, m);
        let keys = pair_keys::<T, C>(ref_blocks, other_blocks, ref_kernels, other_kernels);
        let order = sort::sorted_order(keys);
        let sorted = sort::picked(all, order);
        let taken = greedy(sorted);
        let left = taken.map_values(|p: (usize, usize)| p.0);
        let order2 = sort::sorted_order(left);
        let r = by_left(taken);
        sort::sorting_rearranges(keys);
        lemma_greedy(sorted);
        lemma_greedy_len(sorted);
        sort::sorting_rearranges(left);
        assert forall|k: int| 0 <= k < r.len() implies (#[trigger] r[k]).0 < n && r[k].1 < m by {
            let t = order2[k] as int;
            assert(r[k] == taken[t]);
            assert(sorted.contains(taken[t]));
            let s = choose|s: int| 0 <= s < sorted.len() && sorted[s] == taken[t];
            let q = order[s] as int;
            assert(sorted[s] == all[q]);
            lemma_quotient_in_range(q, n as int, m as int);
            assert(m <= n * m) by (nonlinear_arith)
                requires
                    n > 0,
                    m > 0,
            ;
        }
    }
}

pub(crate) proof fn lemma_greedy_len(pairs: Seq<(usize, usize)>)
    ensures
        greedy(pairs).len() <= pairs.len(),
    decreases pairs.len(),
{
    if pairs.len() > 0 {
        lemma_greedy_len(pairs.drop_last());
    }
}

} // verus!
