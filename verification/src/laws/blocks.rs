//! How traces are cut into blocks, and which blocks are paired.
use vstd::prelude::*;
use std::ops::Range;
use crate::align::{self, match_blocks};
use crate::lane;
use crate::laws::loading::lemma_orderly;
use crate::laws::sequences::ascends;
use crate::scalar::{self, Scalar};
use crate::sort::{self, Falling, Rising, SortKey};
use crate::trace::KernelEvent;

verus! {

/// Whether a list of positions holds exactly the kernels of one trace, each once, in the
/// order of their starts.
pub open spec fn is_timeline<T: Scalar>(
    kernels: Seq<KernelEvent<T>>,
    trace_id: usize,
    line: Seq<usize>,
) -> bool {
    &&& forall|i: int|
        0 <= i < line.len() ==> (#[trigger] line[i]) < kernels.len() && kernels[line[i] as int].trace_id
            == trace_id
    &&& forall|k: int|
        0 <= k < kernels.len() && (#[trigger] kernels[k]).trace_id == trace_id ==> line.contains(
            k as usize,
        )
    &&& forall|i: int, j: int| 0 <= i < j < line.len() ==> line[i] != line[j]
    &&& forall|i: int, j: int|
        #![trigger line[i], line[j]]
        0 <= i < j < line.len() ==> kernels[line[i] as int].ts.at_most_spec(
            kernels[line[j] as int].ts,
        )
}

proof fn lemma_trace_members<T>(kernels: Seq<KernelEvent<T>>, trace_id: usize)
    requires
        kernels.len() <= usize::MAX,
    ensures
        align::trace_members(kernels, trace_id).len() <= kernels.len(),
        forall|i: int|
            0 <= i < align::trace_members(kernels, trace_id).len() ==> (
            #[trigger] align::trace_members(kernels, trace_id)[i]) < kernels.len()
                && kernels[align::trace_members(kernels, trace_id)[i] as int].trace_id == trace_id,
        forall|k: int|
            0 <= k < kernels.len() && (#[trigger] kernels[k]).trace_id == trace_id
                ==> align::trace_members(kernels, trace_id).contains(k as usize),
        forall|i: int, j: int|
            0 <= i < j < align::trace_members(kernels, trace_id).len() ==> align::trace_members(
                kernels,
                trace_id,
            )[i] < align::trace_members(kernels, trace_id)[j],
    decreases kernels.len(),
{
    let all = align::trace_members(kernels, trace_id);
    if kernels.len() > 0 {
        let rest = kernels.drop_last();
        let before = align::trace_members(rest, trace_id);
        lemma_trace_members(rest, trace_id);
        let last = (kernels.len() - 1) as usize;
        assert forall|k: int|
            0 <= k < kernels.len() && (#[trigger] kernels[k]).trace_id == trace_id implies all.contains(
            k as usize,
        ) by {
            if k < rest.len() {
                assert(rest[k].trace_id == trace_id);
                assert(before.contains(k as usize));
                let p = choose|p: int| 0 <= p < before.len() && before[p] == k as usize;
                assert(all[p] == k as usize);
            } else {
                assert(all[all.len() - 1] == last);
            }
        }
        assert forall|i: int| 0 <= i < all.len() implies (#[trigger] all[i]) < kernels.len()
            && kernels[all[i] as int].trace_id == trace_id by {
            if i < before.len() {
                assert(all[i] == before[i]);
                assert(kernels[all[i] as int] == rest[before[i] as int]);
            }
        }
    }
}

/// The blocks of a trace are made of its kernels, in the order of their starts.
pub proof fn timelines_hold_the_kernels_of_a_trace_in_order<T: Scalar>(
    kernels: Seq<KernelEvent<T>>,
    trace_id: usize,
)
    requires
        scalar::ordered_totally::<T>(),
        kernels.len() <= usize::MAX,
    ensures
        is_timeline(kernels, trace_id, align::timeline(kernels, trace_id)),
{
    let at = align::trace_members(kernels, trace_id);
    let keys = lane::start_keys::<T, KernelEvent<T>>(kernels, at);
    let order = sort::sorted_order(keys);
    let line = align::timeline(kernels, trace_id);
    lemma_trace_members(kernels, trace_id);
    lemma_orderly(keys);
    sort::sorting_rearranges(keys);
    sort::sorting_is_stable(keys);
    assert forall|k: int|
        0 <= k < kernels.len() && (#[trigger] kernels[k]).trace_id == trace_id implies line.contains(
        k as usize,
    ) by {
        assert(at.contains(k as usize));
        let p = choose|p: int| 0 <= p < at.len() && at[p] == k as usize;
        assert(order.contains(p as usize));
        let q = choose|q: int| 0 <= q < order.len() && order[q] == p as usize;
        assert(line[q] == k as usize);
    }
    assert forall|i: int| 0 <= i < line.len() implies (#[trigger] line[i]) < kernels.len()
        && kernels[line[i] as int].trace_id == trace_id by {
        assert(order[i] < at.len());
        assert(line[i] == at[order[i] as int]);
    }
    assert forall|i: int, j: int| 0 <= i < j < line.len() implies line[i] != line[j] by {
        let p = order[i] as int;
        let q = order[j] as int;
        assert(p != q && p < at.len() && q < at.len());
        assert(line[i] == at[p] && line[j] == at[q]);
        assert(p < q ==> at[p] < at[q]);
        assert(q < p ==> at[q] < at[p]);
    }
    assert forall|i: int, j: int|
        #![trigger line[i], line[j]]
        0 <= i < j < line.len() implies kernels[line[i] as int].ts.at_most_spec(
        kernels[line[j] as int].ts,
    ) by {
        assert(sort::precedes(keys, order[i], order[j]));
        assert(line[i] == at[order[i] as int] && line[j] == at[order[j] as int]);
        assert(keys[order[i] as int].0 == kernels[line[i] as int].ts);
        assert(keys[order[j] as int].0 == kernels[line[j] as int].ts);
        assert(!keys[order[j] as int].before_spec(&keys[order[i] as int]));
        assert(!keys[order[j] as int].0.less_spec(keys[order[i] as int].0));
    }
}

/// How long nothing runs before kernel `k` of a timeline: from the end of the one before it
/// to its start, or not at all.
pub open spec fn idle_before<T: Scalar>(
    kernels: Seq<KernelEvent<T>>,
    line: Seq<usize>,
    k: int,
) -> T {
    let end = kernels[line[k - 1] as int].ts.plus_spec(kernels[line[k - 1] as int].dur);
    let start = kernels[line[k] as int].ts;
    if start.at_most_spec(end) {
        T::whole_spec(0)
    } else {
        start.minus_spec(end)
    }
}

/// How long nothing runs before each kernel of a timeline but the first.
pub open spec fn idle_times<T: Scalar>(kernels: Seq<KernelEvent<T>>, line: Seq<usize>) -> Seq<T> {
    Seq::new((line.len() - 1) as nat, |i: int| idle_before(kernels, line, i + 1))
}

/// The names of the kernels of a timeline.
pub open spec fn names_along<T>(kernels: Seq<KernelEvent<T>>, line: Seq<usize>) -> Seq<Seq<char>> {
    Seq::new(line.len(), |i: int| kernels[line[i] as int].name@)
}

/// Whether a number is in the middle of others: half of them lie on either side of it when
/// they are put in order.
pub open spec fn is_middle<T: Scalar>(m: T, numbers: Seq<T>, sorted: Seq<T>) -> bool {
    let n = numbers.len() as int;
    &&& sorted.to_multiset() == numbers.to_multiset()
    &&& sorted.len() == n
    &&& ascends(sorted)
    &&& n % 2 == 1 ==> m == sorted[n / 2]
    &&& n % 2 == 0 ==> m == sorted[n / 2 - 1].plus_spec(sorted[n / 2]).over_spec(T::whole_spec(2))
}

/// The middle of some numbers is the middle one when they are put in order, or halfway
/// between the two middle ones.
pub proof fn the_middle_is_in_the_middle<T: Scalar>(numbers: Seq<T>) -> (sorted: Seq<T>)
    requires
        scalar::ordered_totally::<T>(),
        0 < numbers.len() <= usize::MAX,
    ensures
        is_middle(align::middle(numbers), numbers, sorted),
{
    let keys = numbers.map_values(|x: T| Rising(x));
    let order = sort::sorted_order(keys);
    let sorted = align::rising(numbers);
    lemma_orderly(keys);
    sort::sorting_rearranges(keys);
    sort::sorting_is_stable(keys);
    sort::picking_keeps_the_items(numbers, order);
    assert forall|i: int, j: int|
        #![trigger sorted[i], sorted[j]]
        0 <= i < j < sorted.len() implies sorted[i].at_most_spec(sorted[j]) by {
        assert(sort::precedes(keys, order[i], order[j]));
        assert(keys[order[i] as int].0 == sorted[i]);
        assert(keys[order[j] as int].0 == sorted[j]);
        assert(!keys[order[j] as int].before_spec(&keys[order[i] as int]));
        assert(!keys[order[j] as int].0.less_spec(keys[order[i] as int].0));
    }
    sorted
}

/// Whether blocks are the stretches of a timeline between cuts, from its first kernel to
/// its last.
pub open spec fn cut_at<T: Scalar>(
    kernels: Seq<KernelEvent<T>>,
    line: Seq<usize>,
    cuts: Seq<int>,
    blocks: Seq<(T, T, Range<usize>)>,
) -> bool {
    &&& cuts.len() == blocks.len() + 1
    &&& cuts[0] == 0
    &&& cuts.last() == line.len()
    &&& forall|b: int, c: int|
        #![trigger cuts[b], cuts[c]]
        0 <= b < c < cuts.len() ==> cuts[b] < cuts[c]
    &&& forall|b: int|
        0 <= b < blocks.len() ==> {
            let first = line[cuts[b]] as int;
            let last = line[cuts[b + 1] - 1] as int;
            &&& (#[trigger] blocks[b]).0 == kernels[first].ts
            &&& blocks[b].1 == kernels[last].ts.plus_spec(kernels[last].dur)
            &&& blocks[b].2.start == first
            &&& blocks[b].2.end == last + 1
        }
}

/// Whether nothing runs before kernel `k` of a timeline for longer than a limit.
pub open spec fn pauses_at<T: Scalar>(
    kernels: Seq<KernelEvent<T>>,
    line: Seq<usize>,
    limit: T,
    k: int,
) -> bool {
    limit.less_spec(idle_before(kernels, line, k))
}

/// Whether some names repeat every `p` names, to the end.
pub open spec fn has_period(names: Seq<Seq<char>>, p: int) -> bool {
    &&& 0 < p
    &&& names.len() as int % p == 0
    &&& forall|i: int| 0 <= i < names.len() - p ==> #[trigger] names[i] == names[i + p]
}

proof fn lemma_splits<T: Scalar>(gaps: Seq<T>, threshold: T, n: int)
    requires
        0 <= n <= gaps.len() < usize::MAX,
    ensures
        ({
            let s = align::split_points(gaps, threshold, n);
            &&& forall|i: int| 0 <= i < s.len() ==> 0 < #[trigger] s[i] <= n
            &&& forall|i: int, j: int| 0 <= i < j < s.len() ==> s[i] < s[j]
            &&& forall|k: int|
                1 <= k <= n ==> (s.contains(k as usize) <==> threshold.less_spec(
                    #[trigger] gaps[k - 1],
                ))
        }),
    decreases n,
{
    if n > 0 {
        lemma_splits(gaps, threshold, n - 1);
        let before = align::split_points(gaps, threshold, n - 1);
        let s = align::split_points(gaps, threshold, n);
        assert forall|k: int| 1 <= k <= n implies (s.contains(k as usize) <==> threshold.less_spec(
            #[trigger] gaps[k - 1],
        )) by {
            if threshold.less_spec(gaps[n - 1]) {
                assert(s == before.push(n as usize));
                if k == n {
                    assert(s[s.len() - 1] == n as usize);
                } else {
                    if before.contains(k as usize) {
                        let p = choose|p: int| 0 <= p < before.len() && before[p] == k as usize;
                        assert(s[p] == k as usize);
                    }
                    if s.contains(k as usize) {
                        let p = choose|p: int| 0 <= p < s.len() && s[p] == k as usize;
                        assert(before[p] == k as usize);
                    }
                }
            } else {
                assert(s == before);
                if k == n {
                    if s.contains(k as usize) {
                        let p = choose|p: int| 0 <= p < s.len() && s[p] == k as usize;
                        assert(before[p] <= n - 1);
                    }
                }
            }
        }
    }
}

proof fn lemma_between<T: Scalar>(
    kernels: Seq<KernelEvent<T>>,
    line: Seq<usize>,
    bounds: Seq<usize>,
    n: int,
)
    requires
        0 <= n <= bounds.len(),
    ensures
        ({
            let r = align::blocks_between(kernels, line, bounds, n);
            &&& r.len() == n
            &&& forall|b: int|
                0 <= b < n ==> #[trigger] r[b] == align::block_of(
                    kernels,
                    line,
                    if b == 0 {
                        0
                    } else {
                        bounds[b - 1] as int
                    },
                    bounds[b] as int,
                )
        }),
    decreases n,
{
    if n > 0 {
        lemma_between(kernels, line, bounds, n - 1);
    }
}

proof fn lemma_shortest(names: Seq<Seq<char>>, p: int)
    requires
        1 <= p,
    ensures
        match align::shortest_period(names, p) {
            Some(q) => p <= q && 2 * q <= names.len() && align::repeats_every(names, q) && forall|
                x: int,
            |
                p <= x < q ==> !#[trigger] align::repeats_every(names, x),
            None => forall|x: int|
                p <= x && 2 * x <= names.len() ==> !#[trigger] align::repeats_every(names, x),
        },
    decreases names.len() - p,
{
    if p <= names.len() / 2 && !align::repeats_every(names, p) {
        lemma_shortest(names, p + 1);
    }
}

proof fn lemma_period(names: Seq<Seq<char>>, p: int)
    requires
        0 < p,
    ensures
        align::repeats_every(names, p) == has_period(names, p),
{
    if align::repeats_every(names, p) {
        assert forall|i: int| 0 <= i < names.len() - p implies #[trigger] names[i] == names[i
            + p] by {
            assert(names[i + p] == names[(i + p) % p]);
            vstd::arithmetic::div_mod::lemma_mod_add_multiples_vanish(i, p);
            if i >= p {
                assert(names[i] == names[i % p]);
            } else {
                vstd::arithmetic::div_mod::lemma_small_mod(i as nat, p as nat);
            }
        }
    }
    if has_period(names, p) {
        assert forall|i: int| p <= i < names.len() implies #[trigger] names[i] == names[i % p] by {
            lemma_reduce(names, p, i);
        }
    }
}

proof fn lemma_reduce(names: Seq<Seq<char>>, p: int, i: int)
    requires
        has_period(names, p),
        0 <= i < names.len(),
    ensures
        names[i] == names[i % p],
    decreases i,
{
    if i < p {
        vstd::arithmetic::div_mod::lemma_small_mod(i as nat, p as nat);
    } else {
        lemma_reduce(names, p, i - p);
        assert(names[i - p] == names[(i - p) + p]);
        vstd::arithmetic::div_mod::lemma_mod_add_multiples_vanish(i - p, p);
    }
}

/// Whether a limit is ten times the middle idle time of a timeline.
pub open spec fn is_limit<T: Scalar>(
    kernels: Seq<KernelEvent<T>>,
    line: Seq<usize>,
    limit: T,
) -> bool {
    exists|m: T, sorted: Seq<T>| #[trigger]
        is_middle(m, idle_times(kernels, line), sorted) && limit == m.times_spec(T::whole_spec(10))
}

/// Whether a timeline pauses at all for longer than a limit.
pub open spec fn pauses<T: Scalar>(
    kernels: Seq<KernelEvent<T>>,
    line: Seq<usize>,
    limit: T,
) -> bool {
    exists|k: int| 0 < k < line.len() && #[trigger] pauses_at(kernels, line, limit, k)
}

/// Whether `p` is the shortest period, two of which fit, with which names repeat.
pub open spec fn is_shortest_period(names: Seq<Seq<char>>, p: int) -> bool {
    &&& 0 < p
    &&& 2 * p <= names.len()
    &&& has_period(names, p)
    &&& forall|q: int| 0 < q < p ==> !#[trigger] has_period(names, q)
}

/// A trace is cut into blocks that follow each other and leave no kernel out. It is cut
/// exactly where nothing runs for more than ten times the middle idle time. Where it never
/// is idle that long, it is cut into repetitions of the shortest block of names of which it
/// is made, if that is two or more; else it is a single block.
pub proof fn blocks_are_cut_at_long_pauses_or_repetitions<T: Scalar>(
    kernels: Seq<KernelEvent<T>>,
    line: Seq<usize>,
    p: int,
) -> (r: (Seq<int>, T))
    requires
        scalar::counts_like_reals::<T>(),
        0 < line.len() < usize::MAX,
        kernels.len() < usize::MAX,
        forall|i: int| 0 <= i < line.len() ==> (#[trigger] line[i]) < kernels.len(),
    ensures
        cut_at(kernels, line, r.0, align::blocks_of_line(kernels, line)),
        line.len() > 1 ==> is_limit(kernels, line, r.1),
        line.len() == 1 ==> r.0.len() == 2,
        line.len() > 1 && pauses(kernels, line, r.1) ==> forall|k: int|
            0 < k < line.len() ==> (r.0.contains(k) <==> #[trigger] pauses_at(
                kernels,
                line,
                r.1,
                k,
            )),
        line.len() > 1 && !pauses(kernels, line, r.1) && is_shortest_period(
            names_along(kernels, line),
            p,
        ) ==> forall|b: int| 0 <= b < r.0.len() ==> #[trigger] r.0[b] == b * p,
        line.len() > 1 && !pauses(kernels, line, r.1) && (forall|q: int|
            0 < q && 2 * q <= line.len() ==> !#[trigger] has_period(names_along(kernels, line), q))
            ==> r.0.len() == 2,
{
    let n = line.len() as int;
    let blocks = align::blocks_of_line(kernels, line);
    if n == 1 {
        let cuts = seq![0int, 1];
        assert(cut_at(kernels, line, cuts, blocks));
        (cuts, T::whole_spec(0))
    } else {
        let gaps = align::idle_gaps(kernels, line);
        lemma_idle_gaps(kernels, line);
        let limit = align::gap_threshold(gaps);
        let sorted = the_middle_is_in_the_middle(gaps);
        assert(is_middle(align::middle(gaps), idle_times(kernels, line), sorted));
        assert(is_limit(kernels, line, limit));
        let splits = align::split_points(gaps, limit, n - 1);
        lemma_splits(gaps, limit, n - 1);
        assert forall|k: int| 0 < k < n implies (splits.contains(k as usize)
            <==> #[trigger] pauses_at(kernels, line, limit, k)) by {
            assert(gaps[k - 1] == idle_before(kernels, line, k));
        }
        if splits.len() > 0 {
            let cuts = lemma_cut_at_pauses(kernels, line, limit, splits);
            assert(splits.contains(splits[0]));
            assert(pauses_at(kernels, line, limit, splits[0] as int));
            (cuts, limit)
        } else {
            assert(!pauses(kernels, line, limit)) by {
                if pauses(kernels, line, limit) {
                    let k = choose|k: int|
                        0 < k < line.len() && #[trigger] pauses_at(kernels, line, limit, k);
                    assert(splits.contains(k as usize));
                }
            }
            (lemma_cut_at_repetitions(kernels, line, p), limit)
        }
    }
}

proof fn lemma_idle_gaps<T: Scalar>(kernels: Seq<KernelEvent<T>>, line: Seq<usize>)
    requires
        scalar::counts_like_reals::<T>(),
        line.len() > 1,
    ensures
        align::idle_gaps(kernels, line) == idle_times(kernels, line),
{
    let gaps = align::idle_gaps(kernels, line);
    assert forall|i: int| 0 <= i < line.len() - 1 implies #[trigger] gaps[i] == idle_before(
        kernels,
        line,
        i + 1,
    ) by {
        let end = kernels[line[i] as int].end_spec();
        let start = kernels[line[i + 1] as int].ts;
        assert(end.minus_spec(end) == T::whole_spec(0));
        assert(start.at_most_spec(end) ==> start.minus_spec(end).at_most_spec(
            end.minus_spec(end),
        ));
        assert(end.at_most_spec(start) ==> end.minus_spec(end).at_most_spec(
            start.minus_spec(end),
        ));
    }
    assert(gaps =~= idle_times(kernels, line));
}

proof fn lemma_cut_at_pauses<T: Scalar>(
    kernels: Seq<KernelEvent<T>>,
    line: Seq<usize>,
    limit: T,
    splits: Seq<usize>,
) -> (cuts: Seq<int>)
    requires
        1 < line.len() < usize::MAX,
        kernels.len() < usize::MAX,
        forall|i: int| 0 <= i < line.len() ==> (#[trigger] line[i]) < kernels.len(),
        splits.len() > 0,
        forall|i: int| 0 <= i < splits.len() ==> 0 < #[trigger] splits[i] < line.len(),
        forall|i: int, j: int| 0 <= i < j < splits.len() ==> splits[i] < splits[j],
        forall|k: int|
            0 < k < line.len() ==> (splits.contains(k as usize) <==> #[trigger] pauses_at(
                kernels,
                line,
                limit,
                k,
            )),
    ensures
        ({
            let bounds = splits.push(line.len() as usize);
            cut_at(
                kernels,
                line,
                cuts,
                align::blocks_between(kernels, line, bounds, bounds.len() as int),
            )
        }),
        forall|k: int|
            0 < k < line.len() ==> (cuts.contains(k) <==> #[trigger] pauses_at(
                kernels,
                line,
                limit,
                k,
            )),
{
    let n = line.len() as int;
    let bounds = splits.push(n as usize);
    let blocks = align::blocks_between(kernels, line, bounds, bounds.len() as int);
    lemma_between(kernels, line, bounds, bounds.len() as int);
    let cuts = Seq::new(
        bounds.len() + 1,
        |i: int|
            if i == 0 {
                0
            } else {
                bounds[i - 1] as int
            },
    );
    assert forall|b: int, c: int|
        #![trigger cuts[b], cuts[c]]
        0 <= b < c < cuts.len() implies cuts[b] < cuts[c] by {
        if c - 1 < splits.len() {
            assert(0 < splits[c - 1]);
            if b > 0 {
                assert(splits[b - 1] < splits[c - 1]);
            }
        } else if b > 0 {
            assert(splits[b - 1] < n);
        }
    }
    assert forall|b: int| 0 <= b < blocks.len() implies {
        let first = line[cuts[b]] as int;
        let last = line[cuts[b + 1] - 1] as int;
        &&& (#[trigger] blocks[b]).0 == kernels[first].ts
        &&& blocks[b].1 == kernels[last].ts.plus_spec(kernels[last].dur)
        &&& blocks[b].2.start == first
        &&& blocks[b].2.end == last + 1
    } by {
        assert(cuts[b] < cuts[b + 1]);
        assert(cuts[b + 1] <= n) by {
            if b + 1 < cuts.len() - 1 {
                assert(splits[b] < n);
            }
        }
        assert(line[cuts[b + 1] - 1] < kernels.len());
    }
    assert(cut_at(kernels, line, cuts, blocks));
    assert forall|k: int| 0 < k < n implies (cuts.contains(k) <==> #[trigger] pauses_at(
        kernels,
        line,
        limit,
        k,
    )) by {
        if splits.contains(k as usize) {
            let p = choose|p: int| 0 <= p < splits.len() && splits[p] == k as usize;
            assert(cuts[p + 1] == k);
        }
        if cuts.contains(k) {
            let p = choose|p: int| 0 <= p < cuts.len() && cuts[p] == k;
            assert(splits[p - 1] == k as usize);
        }
    }
    cuts
}

proof fn lemma_cut_at_repetitions<T: Scalar>(
    kernels: Seq<KernelEvent<T>>,
    line: Seq<usize>,
    x: int,
) -> (cuts: Seq<int>)
    requires
        1 < line.len() < usize::MAX,
        kernels.len() < usize::MAX,
        forall|i: int| 0 <= i < line.len() ==> (#[trigger] line[i]) < kernels.len(),
    ensures
        cut_at(
            kernels,
            line,
            cuts,
            match align::shortest_period(align::line_names(kernels, line), 1) {
                Some(p) => align::tiled_blocks(kernels, line, p, (line.len() as int / p) as nat),
                None => seq![align::block_of(kernels, line, 0, line.len() as int)],
            },
        ),
        is_shortest_period(names_along(kernels, line), x) ==> forall|b: int|
            0 <= b < cuts.len() ==> #[trigger] cuts[b] == b * x,
        (forall|q: int|
            0 < q && 2 * q <= line.len() ==> !#[trigger] has_period(names_along(kernels, line), q))
            ==> cuts.len() == 2,
{
    let n = line.len() as int;
    let names = align::line_names(kernels, line);
    assert(names =~= names_along(kernels, line));
    lemma_shortest(names, 1);
    assert forall|p: int| 0 < p implies #[trigger] align::repeats_every(names, p) == has_period(
        names,
        p,
    ) by {
        lemma_period(names, p);
    }
    match align::shortest_period(names, 1) {
        Some(p) => {
            vstd::arithmetic::div_mod::lemma_fundamental_div_mod(n, p);
            let m = n / p;
            assert(m * p == n) by (nonlinear_arith)
                requires
                    n == p * m + n % p,
                    n % p == 0,
            ;
            assert(m >= 2) by (nonlinear_arith)
                requires
                    m * p == n,
                    2 * p <= n,
                    0 < p,
            ;
            let blocks = align::tiled_blocks(kernels, line, p, m as nat);
            let cuts = Seq::new((m + 1) as nat, |b: int| b * p);
            assert(cuts[0] == 0) by (nonlinear_arith)
                requires
                    cuts[0] == 0 * p,
            ;
            assert forall|b: int, c: int|
                #![trigger cuts[b], cuts[c]]
                0 <= b < c < cuts.len() implies cuts[b] < cuts[c] by {
                assert(b * p < c * p) by (nonlinear_arith)
                    requires
                        b < c,
                        0 < p,
                ;
            }
            assert forall|b: int| 0 <= b < blocks.len() implies {
                let first = line[cuts[b]] as int;
                let last = line[cuts[b + 1] - 1] as int;
                &&& (#[trigger] blocks[b]).0 == kernels[first].ts
                &&& blocks[b].1 == kernels[last].ts.plus_spec(kernels[last].dur)
                &&& blocks[b].2.start == first
                &&& blocks[b].2.end == last + 1
            } by {
                assert((b + 1) * p == b * p + p) by (nonlinear_arith);
                assert(cuts[b + 1] == b * p + p);
                assert(cuts[b] < cuts[b + 1]);
                assert(cuts[b + 1] <= cuts[m]);
                assert(0 <= b * p) by (nonlinear_arith)
                    requires
                        0 <= b,
                        0 < p,
                ;
                assert(line[cuts[b + 1] - 1] < kernels.len());
            }
            assert(cut_at(kernels, line, cuts, blocks));
            assert(has_period(names, p));
            if is_shortest_period(names, x) {
                assert(align::repeats_every(names, x));
                assert(x == p);
            }
            cuts
        },
        None => {
            let cuts = seq![0int, n];
            assert(line[n - 1] < kernels.len());
            if is_shortest_period(names, x) {
                assert(align::repeats_every(names, x));
                assert(false);
            }
            cuts
        },
    }
}

/// How similar two blocks are, by the names of their kernels.
pub open spec fn similar<T, C: Scalar>(
    ref_blocks: Seq<(T, T, Range<usize>)>,
    other_blocks: Seq<(T, T, Range<usize>)>,
    ref_kernels: Seq<KernelEvent<T>>,
    other_kernels: Seq<KernelEvent<T>>,
    i: usize,
    j: usize,
) -> C {
    match_blocks::similarity::<T, C>(
        ref_blocks[i as int].2,
        other_blocks[j as int].2,
        ref_kernels,
        other_kernels,
    )
}

spec fn blocked(pairs: Seq<(usize, usize)>, upto: int, pair: (usize, usize)) -> bool {
    exists|k: int|
        0 <= k <= upto && k < pairs.len() && match_blocks::greedy(pairs).contains(
            #[trigger] pairs[k],
        ) && (pairs[k].0 == pair.0 || pairs[k].1 == pair.1)
}

proof fn lemma_greedy_grows(pairs: Seq<(usize, usize)>, n: int)
    requires
        0 <= n <= pairs.len(),
    ensures
        forall|p: (usize, usize)| #[trigger]
            match_blocks::greedy(pairs.take(n)).contains(p) ==> match_blocks::greedy(
                pairs,
            ).contains(p),
    decreases pairs.len() - n,
{
    if n < pairs.len() {
        lemma_greedy_grows(pairs, n + 1);
        let small = match_blocks::greedy(pairs.take(n));
        let large = match_blocks::greedy(pairs.take(n + 1));
        assert(pairs.take(n + 1).drop_last() == pairs.take(n));
        assert forall|p: (usize, usize)| #[trigger] small.contains(p) implies large.contains(p) by {
            let k = choose|k: int| 0 <= k < small.len() && small[k] == p;
            assert(large[k] == p);
        }
    } else {
        assert(pairs.take(n) == pairs);
    }
}

proof fn lemma_greedy_takes_or_blocks(pairs: Seq<(usize, usize)>, at: int)
    requires
        0 <= at < pairs.len(),
    ensures
        match_blocks::greedy(pairs).contains(pairs[at]) || blocked(pairs, at, pairs[at]),
{
    let upto = pairs.take(at + 1);
    assert(upto.drop_last() == pairs.take(at));
    let taken = match_blocks::greedy(pairs.take(at));
    lemma_greedy_grows(pairs, at + 1);
    lemma_greedy_grows(pairs, at);
    match_blocks::lemma_greedy(pairs.take(at));
    let own = match_blocks::greedy(upto);
    if match_blocks::has_left(taken, pairs[at].0) || match_blocks::has_right(taken, pairs[at].1) {
        let k = if match_blocks::has_left(taken, pairs[at].0) {
            choose|k: int| 0 <= k < taken.len() && (#[trigger] taken[k]).0 == pairs[at].0
        } else {
            choose|k: int| 0 <= k < taken.len() && (#[trigger] taken[k]).1 == pairs[at].1
        };
        assert(taken.contains(taken[k]));
        assert(pairs.take(at).contains(taken[k]));
        let q = choose|q: int| 0 <= q < pairs.take(at).len() && pairs.take(at)[q] == taken[k];
        assert(pairs[q] == taken[k]);
        assert(match_blocks::greedy(pairs).contains(pairs[q]));
    } else {
        assert(own[own.len() - 1] == pairs[at]);
        assert(own.contains(pairs[at]));
    }
}

/// As many blocks on both sides are paired one by one. Otherwise the most similar blocks
/// are paired first: no block is paired twice, the pairs come in the order of the first
/// trace, and two blocks that are not a pair have given way to a pair of one of them that is
/// at least as similar.
pub proof fn the_most_similar_blocks_are_paired<T, C: Scalar>(
    ref_blocks: Seq<(T, T, Range<usize>)>,
    other_blocks: Seq<(T, T, Range<usize>)>,
    ref_kernels: Seq<KernelEvent<T>>,
    other_kernels: Seq<KernelEvent<T>>,
    i: usize,
    j: usize,
)
    requires
        scalar::ordered_totally::<C>(),
        i < ref_blocks.len() <= usize::MAX,
        j < other_blocks.len() <= usize::MAX,
        ref_blocks.len() * other_blocks.len() <= usize::MAX,
    ensures
        ({
            let pairs = match_blocks::block_pairs::<T, C>(
                ref_blocks,
                other_blocks,
                ref_kernels,
                other_kernels,
            );
            let sim = |x: usize, y: usize|
                similar::<T, C>(ref_blocks, other_blocks, ref_kernels, other_kernels, x, y);
            &&& ref_blocks.len() == other_blocks.len() ==> (pairs.contains((i, j)) <==> i == j)
            &&& forall|a: int, b: int|
                #![trigger pairs[a], pairs[b]]
                0 <= a < b < pairs.len() ==> pairs[a].0 < pairs[b].0 && pairs[a].1 != pairs[b].1
            &&& ref_blocks.len() != other_blocks.len() ==> pairs.contains((i, j)) || exists|k: int|
                0 <= k < pairs.len() && ((#[trigger] pairs[k]).0 == i || pairs[k].1 == j) && sim(
                    i,
                    j,
                ).at_most_spec(sim(pairs[k].0, pairs[k].1))
        }),
{
    let n = ref_blocks.len();
    let m = other_blocks.len();
    let pairs = match_blocks::block_pairs::<T, C>(
        ref_blocks,
        other_blocks,
        ref_kernels,
        other_kernels,
    );
    if n == m {
        if i == j {
            assert(pairs[i as int] == (i, j));
        }
        if pairs.contains((i, j)) {
            let k = choose|k: int| 0 <= k < pairs.len() && pairs[k] == (i, j);
            assert(pairs[k] == (k as usize, k as usize));
        }
    } else {
        let all = match_blocks::all_pairs(n, m);
        let keys = match_blocks::pair_keys::<T, C>(
            ref_blocks,
            other_blocks,
            ref_kernels,
            other_kernels,
        );
        let order = sort::sorted_order(keys);
        let sorted = sort::picked(all, order);
        let taken = match_blocks::greedy(sorted);
        let lefts = taken.map_values(|p: (usize, usize)| p.0);
        let order2 = sort::sorted_order(lefts);
        assert(n * m == all.len());
        assert(keys.len() == all.len());
        sort::sorting_rearranges(keys);
        lemma_falling_orderly(keys);
        sort::sorting_is_stable(keys);
        match_blocks::lemma_greedy(sorted);
        match_blocks::lemma_greedy_len(sorted);
        sort::sorting_rearranges(lefts);
        lemma_numbers_orderly(lefts);
        sort::sorting_is_stable(lefts);
        let at = i as int * m as int + j as int;
        lemma_place(i as int, j as int, n as int, m as int);
        assert(all[at] == (i, j));
        assert(order.contains(at as usize));
        let s = choose|s: int| 0 <= s < order.len() && order[s] == at as usize;
        assert(sorted[s] == (i, j));
        lemma_greedy_takes_or_blocks(sorted, s);
        assert forall|p: (usize, usize)| #[trigger] taken.contains(p) implies pairs.contains(p) by {
            let k = choose|k: int| 0 <= k < taken.len() && taken[k] == p;
            assert(order2.contains(k as usize));
            let q = choose|q: int| 0 <= q < order2.len() && order2[q] == k as usize;
            assert(pairs[q] == p);
        }
        if !taken.contains((i, j)) {
            assert(blocked(sorted, s, (i, j)));
            let k = choose|k: int|
                0 <= k <= s && k < sorted.len() && match_blocks::greedy(sorted).contains(
                    #[trigger] sorted[k],
                ) && (sorted[k].0 == i || sorted[k].1 == j);
            assert(taken.contains(sorted[k]));
            assert(pairs.contains(sorted[k]));
            let q = choose|q: int| 0 <= q < pairs.len() && pairs[q] == sorted[k];
            assert(pairs[q].0 == i || pairs[q].1 == j);
            if k < s {
                assert(sort::precedes(keys, order[k], order[s]));
            }
            assert(!keys[order[s] as int].before_spec(&keys[order[k] as int])) by {
                if k < s {
                    assert(sort::precedes(keys, order[k], order[s]));
                } else {
                    assert(!keys[order[s] as int].before_spec(&keys[order[s] as int])) by {
                        let x = keys[order[s] as int].0;
                        assert(x.at_most_spec(x));
                        assert(x.less_spec(x) == !x.at_most_spec(x));
                    }
                }
            }
            let x = keys[order[k] as int].0;
            let y = keys[order[s] as int].0;
            assert(!x.less_spec(y));
            assert(y.at_most_spec(x));
            assert(all[order[k] as int] == sorted[k]);
        }
        assert forall|a: int, b: int|
            #![trigger pairs[a], pairs[b]]
            0 <= a < b < pairs.len() implies pairs[a].0 < pairs[b].0 && pairs[a].1
            != pairs[b].1 by {
            assert(sort::precedes(lefts, order2[a], order2[b]));
            let p = order2[a] as int;
            let q = order2[b] as int;
            assert(p != q);
            assert(lefts[p] == taken[p].0 && lefts[q] == taken[q].0);
            if p < q {
                assert(taken[p].0 != taken[q].0 && taken[p].1 != taken[q].1);
            } else {
                assert(taken[q].0 != taken[p].0 && taken[q].1 != taken[p].1);
            }
        }
    }
}

proof fn lemma_place(i: int, j: int, n: int, m: int)
    requires
        0 <= i < n,
        0 <= j < m,
    ensures
        0 <= i * m + j < n * m,
        (i * m + j) / m == i,
        (i * m + j) % m == j,
{
    vstd::arithmetic::div_mod::lemma_fundamental_div_mod_converse(i * m + j, m, i, j);
    assert(0 <= i * m + j < n * m) by (nonlinear_arith)
        requires
            0 <= i < n,
            0 <= j < m,
    ;
}

proof fn lemma_falling_orderly<C: Scalar>(keys: Seq<Falling<C>>)
    requires
        scalar::ordered_totally::<C>(),
    ensures
        sort::orderly(keys),
{
    assert forall|i: int, j: int|
        0 <= i < keys.len() && 0 <= j < keys.len() && #[trigger] keys[i].before_spec(
            &keys[j],
        ) implies !keys[j].before_spec(&keys[i]) by {
        assert(keys[j].0.less_spec(keys[i].0));
        assert(keys[j].0.at_most_spec(keys[i].0));
    }
    assert forall|i: int, j: int, k: int|
        #![trigger keys[j].before_spec(&keys[i]), keys[k].before_spec(&keys[j])]
        0 <= i < keys.len() && 0 <= j < keys.len() && 0 <= k < keys.len() && !keys[j].before_spec(
            &keys[i],
        ) && !keys[k].before_spec(&keys[j]) implies !keys[k].before_spec(&keys[i]) by {
        assert(!keys[i].0.less_spec(keys[j].0));
        assert(!keys[j].0.less_spec(keys[k].0));
        assert(keys[j].0.at_most_spec(keys[i].0));
        assert(keys[k].0.at_most_spec(keys[j].0));
        assert(keys[k].0.at_most_spec(keys[i].0));
    }
}

proof fn lemma_numbers_orderly(keys: Seq<usize>)
    ensures
        sort::orderly(keys),
{
}

/// The names of the kernels in a range of positions.
pub open spec fn names_in<T>(kernels: Seq<KernelEvent<T>>, range: Range<usize>) -> Seq<Seq<char>> {
    Seq::new((range.end - range.start) as nat, |i: int| kernels[range.start + i].name@)
}

/// Blocks with the same names are as similar as can be, blocks with no name in common are
/// not similar at all, and it does not matter which of two blocks comes first.
pub proof fn similarity_counts_common_names<T, C: Scalar>(
    a: Range<usize>,
    b: Range<usize>,
    ks: Seq<KernelEvent<T>>,
    ls: Seq<KernelEvent<T>>,
)
    requires
        scalar::counts_like_reals::<C>(),
        a.start < a.end <= ks.len(),
        b.start < b.end <= ls.len(),
        ks.len() <= u64::MAX,
        ls.len() <= u64::MAX,
    ensures
        match_blocks::similarity::<T, C>(a, b, ks, ls) == match_blocks::similarity::<T, C>(
            b,
            a,
            ls,
            ks,
        ),
        ({
            let x = names_in(ks, a);
            let y = names_in(ls, b);
            &&& x.to_multiset() == y.to_multiset() ==> match_blocks::similarity::<T, C>(
                a,
                b,
                ks,
                ls,
            ) == C::whole_spec(1)
            &&& (forall|s: Seq<char>| #[trigger] x.contains(s) ==> !y.contains(s))
                ==> match_blocks::similarity::<T, C>(a, b, ks, ls) == C::whole_spec(0)
        }),
{
    broadcast use {vstd::multiset::group_multiset_axioms, vstd::multiset::lemma_intersection_count, vstd::seq_lib::group_to_multiset_ensures};

    let x = names_in(ks, a);
    let y = names_in(ls, b);
    assert(match_blocks::range_names(ks, a) =~= x);
    assert(match_blocks::range_names(ls, b) =~= y);
    let p = x.to_multiset();
    let q = y.to_multiset();
    assert(p.intersection_with(q) =~= q.intersection_with(p));
    if p == q {
        assert(p.intersection_with(q) =~= p);
        assert(x.len() == p.len());
        assert(y.len() == q.len());
    }
    if forall|s: Seq<char>| #[trigger] x.contains(s) ==> !y.contains(s) {
        let none = vstd::multiset::Multiset::<Seq<char>>::empty();
        assert forall|s: Seq<char>| #[trigger] p.intersection_with(q).count(s) == none.count(
            s,
        ) by {
            if x.contains(s) {
                assert(!y.contains(s));
                assert(q.count(s) == 0);
            } else {
                assert(p.count(s) == 0);
            }
        }
        assert(p.intersection_with(q) =~= none);
        assert(none.len() == 0);
    }
}

} // verus!
