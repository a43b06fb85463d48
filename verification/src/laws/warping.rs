//! Where the events of warped traces are drawn.
use vstd::prelude::*;
use crate::align::{pipeline, warp, AlignedBlock, AlignmentState, TimeSegment, TraceTimeMap};
use crate::laws::loading::lemma_orderly;
use crate::scalar::{self, Scalar};
use crate::sort::{self, Rising, SortKey};
use crate::trace::{AnnotationEvent, KernelEvent};

verus! {

/// Whether a factor taken out is put back by it.
pub open spec fn factors_cancel<T: Scalar>() -> bool {
    forall|x: T, d: T| d != T::whole_spec(0) ==> d.times_spec(#[trigger] x.over_spec(d)) == x
}

/// Whether segments come in the order of their raw starts.
pub open spec fn starts_ascend<T: Scalar>(segments: Seq<TimeSegment<T>>) -> bool {
    forall|i: int, j: int|
        #![trigger segments[i], segments[j]]
        0 <= i < j < segments.len() ==> segments[i].raw_start.at_most_spec(segments[j].raw_start)
}

/// Whether a time belongs to segment `k`: it lies behind the start of that segment and
/// before that of the next; what lies before all segments belongs to the first.
pub open spec fn belongs<T: Scalar>(segments: Seq<TimeSegment<T>>, t: T, k: int) -> bool {
    &&& 0 <= k < segments.len()
    &&& k > 0 ==> segments[k].raw_start.at_most_spec(t)
    &&& k + 1 < segments.len() ==> t.less_spec(segments[k + 1].raw_start)
}

proof fn lemma_started<T: Scalar>(segments: Seq<TimeSegment<T>>, t: T, k: int, i: int)
    requires
        scalar::ordered_totally::<T>(),
        starts_ascend(segments),
        belongs(segments, t, k),
        segments[k].raw_start.at_most_spec(t),
        0 <= i <= k + 1,
    ensures
        warp::started_by(segments, t, i) == k + 1,
    decreases segments.len() - i,
{
    if i <= k {
        assert(i < k ==> segments[i].raw_start.at_most_spec(segments[k].raw_start));
        assert(segments[i].raw_start.at_most_spec(t));
        lemma_started(segments, t, k, i + 1);
    } else if k + 1 < segments.len() {
        assert(t.less_spec(segments[k + 1].raw_start));
        assert(!segments[i].raw_start.at_most_spec(t));
    }
}

/// A time is drawn as far into the stretch of its segment on the screen as it lies in the
/// segment itself: starts are drawn at starts, ends at ends, and what is in between in
/// proportion. Nothing is drawn before zero, and without segments nothing moves.
pub proof fn times_keep_their_place_in_their_segment<T: Scalar>(
    maps: Seq<TraceTimeMap<T>>,
    trace_id: usize,
    t: T,
    k: int,
)
    requires
        scalar::counts_like_reals::<T>(),
        factors_cancel::<T>(),
        trace_id < maps.len() ==> starts_ascend(maps[trace_id as int].segments@),
    ensures
        trace_id >= maps.len() || maps[trace_id as int].segments@.len() == 0 ==> warp::mapped_ts(
            maps,
            trace_id,
            t,
        ) == t,
        trace_id < maps.len() && belongs(maps[trace_id as int].segments@, t, k) ==> {
            let seg = maps[trace_id as int].segments@[k];
            let drawn = warp::mapped_ts(maps, trace_id, t);
            let raw = seg.raw_end.minus_spec(seg.raw_start);
            let shown = seg.display_end.minus_spec(seg.display_start);
            &&& T::whole_spec(0).at_most_spec(drawn)
            &&& t == seg.raw_start && T::whole_spec(0).at_most_spec(seg.display_start) ==> drawn
                == seg.display_start
            &&& T::ratio_spec(1, 1_000_000_000).less_spec(raw) && t == seg.raw_end
                && T::whole_spec(0).at_most_spec(seg.display_end) ==> drawn == seg.display_end
            &&& T::ratio_spec(1, 1_000_000_000).less_spec(raw) ==> {
                let exact = seg.display_start.plus_spec(
                    t.minus_spec(seg.raw_start).times_spec(shown.over_spec(raw)),
                );
                drawn == if T::whole_spec(0).at_most_spec(exact) {
                    exact
                } else {
                    T::whole_spec(0)
                }
            }
        },
{
    if trace_id < maps.len() && belongs(maps[trace_id as int].segments@, t, k) {
        let segments = maps[trace_id as int].segments@;
        let seg = segments[k];
        if seg.raw_start.at_most_spec(t) {
            lemma_started(segments, t, k, 0);
        } else {
            assert(k == 0);
            assert(warp::started_by(segments, t, 0) == 0);
        }
        let drawn = warp::along(seg, t);
        assert(warp::mapped_ts(maps, trace_id, t) == drawn);
        let least = T::ratio_spec(1, 1_000_000_000);
        let raw = seg.raw_end.minus_spec(seg.raw_start);
        let shown = seg.display_end.minus_spec(seg.display_start);
        let raw_span = raw.larger_spec(least);
        assert(least.less_spec(raw) ==> raw_span == raw);
        let ratio = shown.over_spec(raw_span);
        let exact = seg.display_start.plus_spec(t.minus_spec(seg.raw_start).times_spec(ratio));
        let zero = T::whole_spec(0);
        assert(drawn == exact.larger_spec(zero));
        assert(zero.at_most_spec(exact) ==> drawn == exact);
        assert(zero.at_most_spec(zero));
        if t == seg.raw_start {
            assert(t.minus_spec(seg.raw_start) == zero);
            assert(zero.times_spec(ratio) == zero);
            assert(exact == seg.display_start);
        }
        if t == seg.raw_end && least.less_spec(raw) {
            assert(zero.at_most_spec(least));
            assert(raw != zero) by {
                if raw == zero {
                    assert(least.less_spec(raw) == !raw.at_most_spec(least));
                }
            }
            assert(raw.times_spec(shown.over_spec(raw)) == shown);
            assert(exact == seg.display_start.plus_spec(shown));
            assert(exact == seg.display_end);
        }
    }
}

proof fn lemma_segments_of<T, C>(blocks: Seq<AlignedBlock<T, C>>, trace_id: usize)
    ensures
        warp::segments_of(blocks, trace_id).len() <= blocks.len(),
        forall|b: int|
            0 <= b < blocks.len() && warp::segment_in(#[trigger] blocks[b], trace_id) is Some
                ==> warp::segments_of(blocks, trace_id).contains(
                warp::segment_in(blocks[b], trace_id)->0,
            ),
        forall|k: int|
            0 <= k < warp::segments_of(blocks, trace_id).len() ==> exists|b: int|
                0 <= b < blocks.len() && warp::segment_in(#[trigger] blocks[b], trace_id) == Some(
                    #[trigger] warp::segments_of(blocks, trace_id)[k],
                ),
    decreases blocks.len(),
{
    if blocks.len() > 0 {
        let rest = blocks.drop_last();
        lemma_segments_of(rest, trace_id);
        let before = warp::segments_of(rest, trace_id);
        let all = warp::segments_of(blocks, trace_id);
        assert forall|b: int|
            0 <= b < blocks.len() && warp::segment_in(#[trigger] blocks[b], trace_id)
                is Some implies all.contains(warp::segment_in(blocks[b], trace_id)->0) by {
            if b < rest.len() {
                assert(rest[b] == blocks[b]);
                let s = warp::segment_in(blocks[b], trace_id)->0;
                assert(before.contains(s));
                let q = choose|q: int| 0 <= q < before.len() && before[q] == s;
                assert(all[q] == s);
            } else {
                assert(all[all.len() - 1] == warp::segment_in(blocks[b], trace_id)->0);
            }
        }
        assert forall|k: int| 0 <= k < all.len() implies exists|b: int|
            0 <= b < blocks.len() && warp::segment_in(#[trigger] blocks[b], trace_id) == Some(
                #[trigger] all[k],
            ) by {
            if k < before.len() {
                assert(all[k] == before[k]);
                let b = choose|b: int|
                    0 <= b < rest.len() && warp::segment_in(#[trigger] rest[b], trace_id) == Some(
                        before[k],
                    );
                assert(blocks[b] == rest[b]);
            } else {
                assert(warp::segment_in(blocks[blocks.len() - 1], trace_id) == Some(all[k]));
            }
        }
    }
}

/// Every block that is paired with one of the first trace has a segment from its own times
/// to the times of that one, and there are no other segments; they come in the order of
/// their starts.
pub proof fn paired_blocks_are_the_segments<T: Scalar, C>(
    blocks: Seq<AlignedBlock<T, C>>,
    trace_id: usize,
    b: int,
)
    requires
        scalar::ordered_totally::<T>(),
        blocks.len() <= usize::MAX,
        0 <= b < blocks.len(),
    ensures
        ({
            let segments = warp::by_raw_start(warp::segments_of(blocks, trace_id));
            &&& starts_ascend(segments)
            &&& trace_id < blocks[b].per_trace@.len() && blocks[b].per_trace@[trace_id as int]
                is Some ==> exists|k: int|
                0 <= k < segments.len() && #[trigger] stands_for(segments[k], blocks[b], trace_id)
            &&& forall|k: int|
                0 <= k < segments.len() ==> stands_for_one(#[trigger] segments[k], blocks, trace_id)
        }),
{
    let found = warp::segments_of(blocks, trace_id);
    let keys = found.map_values(|s: TimeSegment<T>| Rising(s.raw_start));
    let order = sort::sorted_order(keys);
    let segments = warp::by_raw_start(found);
    lemma_segments_of(blocks, trace_id);
    lemma_orderly(keys);
    sort::sorting_rearranges(keys);
    sort::sorting_is_stable(keys);
    assert forall|i: int, j: int|
        #![trigger segments[i], segments[j]]
        0 <= i < j < segments.len() implies segments[i].raw_start.at_most_spec(
        segments[j].raw_start,
    ) by {
        assert(sort::precedes(keys, order[i], order[j]));
        assert(!keys[order[j] as int].before_spec(&keys[order[i] as int]));
        assert(keys[order[i] as int].0 == segments[i].raw_start);
        assert(keys[order[j] as int].0 == segments[j].raw_start);
        assert(!keys[order[j] as int].0.less_spec(keys[order[i] as int].0));
    }
    if trace_id < blocks[b].per_trace@.len() && blocks[b].per_trace@[trace_id as int] is Some {
        let s = warp::segment_in(blocks[b], trace_id)->0;
        assert(found.contains(s));
        let p = choose|p: int| 0 <= p < found.len() && found[p] == s;
        assert(order.contains(p as usize));
        let q = choose|q: int| 0 <= q < order.len() && order[q] == p as usize;
        assert(segments[q] == s);
        assert(stands_for(segments[q], blocks[b], trace_id));
    }
    assert forall|k: int| 0 <= k < segments.len() implies stands_for_one(
        #[trigger] segments[k],
        blocks,
        trace_id,
    ) by {
        let p = order[k] as int;
        assert(segments[k] == found[p]);
        let c = choose|c: int|
            0 <= c < blocks.len() && warp::segment_in(#[trigger] blocks[c], trace_id) == Some(
                found[p],
            );
        assert(stands_for(segments[k], blocks[c], trace_id));
    }
}

/// Whether a segment leads from the times of a block of one trace to the times of the block
/// of the first trace that it is paired with.
pub open spec fn stands_for<T, C>(
    seg: TimeSegment<T>,
    block: AlignedBlock<T, C>,
    trace_id: usize,
) -> bool {
    &&& trace_id < block.per_trace@.len()
    &&& block.per_trace@[trace_id as int] matches Some(own) && seg.raw_start == own.raw_start
        && seg.raw_end == own.raw_end
    &&& seg.display_start == block.display_start
    &&& seg.display_end == block.display_end
}

/// Whether a segment stands for one of some blocks.
pub open spec fn stands_for_one<T, C>(
    seg: TimeSegment<T>,
    blocks: Seq<AlignedBlock<T, C>>,
    trace_id: usize,
) -> bool {
    exists|c: int| 0 <= c < blocks.len() && #[trigger] stands_for(seg, blocks[c], trace_id)
}

/// A kernel that starts a paired block is drawn where the block of the first trace starts
/// that it is paired with.
pub proof fn paired_blocks_are_drawn_at_the_same_place<T: Scalar, C: Scalar>(
    state: AlignmentState<T, C>,
    kernels: Seq<KernelEvent<T>>,
    annotations: Seq<AnnotationEvent<T>>,
    trace_count: usize,
    b: int,
    i: int,
)
    requires
        scalar::counts_like_reals::<T>(),
        factors_cancel::<T>(),
        state.is_warped(kernels, annotations, trace_count),
        0 <= b < state.blocks@.len() <= usize::MAX,
        0 <= i < kernels.len(),
        kernels[i].trace_id < trace_count,
        state.blocks@[b].per_trace@[kernels[i].trace_id as int] matches Some(own)
            && own.raw_start == kernels[i].ts,
        forall|c: int|
            0 <= c < state.blocks@.len() && c != b ==> (
            (#[trigger] state.blocks@[c]).per_trace@[kernels[i].trace_id as int] matches Some(other)
                ==> other.raw_start != kernels[i].ts),
        T::whole_spec(0).at_most_spec(state.blocks@[b].display_start),
    ensures
        state.display_kernel_times@[kernels[i].trace_id as int]@[
            state.kernel_local_idx@[i] as int
        ].display_start == state.blocks@[b].display_start,
{
    let t = kernels[i].trace_id;
    let maps = state.time_maps@;
    let segments = maps[t as int].segments@;
    let ts = kernels[i].ts;
    let block = state.blocks@[b];
    assert(block.per_trace@.len() == trace_count);
    warp::local_indices_find_their_kernels(maps, kernels, i, kernels.len() as int);
    assert(state.display_kernel_times@[t as int]@ == warp::kernel_displays(
        maps,
        kernels,
        t,
        kernels.len() as int,
    ));
    paired_blocks_are_the_segments(state.blocks@, t, b);
    assert(segments == warp::by_raw_start(warp::segments_of(state.blocks@, t)));
    let k0 = choose|k: int|
        0 <= k < segments.len() && #[trigger] stands_for(segments[k], block, t);
    // The last segment that starts at the kernel; all of those stand for the same block.
    let k = lemma_last_at(segments, ts, k0);
    assert(stands_for_one(segments[k], state.blocks@, t));
    let c = choose|c: int|
        0 <= c < state.blocks@.len() && #[trigger] stands_for(segments[k], state.blocks@[c], t);
    assert(stands_for(segments[k], state.blocks@[c], t));
    assert(c == b);
    times_keep_their_place_in_their_segment(maps, t, ts, k);
}

proof fn lemma_last_at<T: Scalar>(segments: Seq<TimeSegment<T>>, ts: T, from: int) -> (k: int)
    requires
        scalar::ordered_totally::<T>(),
        starts_ascend(segments),
        0 <= from < segments.len(),
        segments[from].raw_start == ts,
    ensures
        from <= k < segments.len(),
        segments[k].raw_start == ts,
        belongs(segments, ts, k),
    decreases segments.len() - from,
{
    assert(ts.at_most_spec(ts));
    if from + 1 < segments.len() && segments[from + 1].raw_start == ts {
        lemma_last_at(segments, ts, from + 1)
    } else {
        if from + 1 < segments.len() {
            assert(segments[from].raw_start.at_most_spec(segments[from + 1].raw_start));
            assert(ts.less_spec(segments[from + 1].raw_start)) by {
                let u = segments[from + 1].raw_start;
                assert(ts.less_spec(u) == !u.at_most_spec(ts));
            }
        }
        from
    }
}

proof fn lemma_annotation_counts<T: Scalar>(
    maps: Seq<TraceTimeMap<T>>,
    annotations: Seq<AnnotationEvent<T>>,
    t: usize,
    k: int,
)
    requires
        0 <= k <= annotations.len(),
    ensures
        warp::annotation_displays(maps, annotations, t, k).len() == warp::count_by::<
            T,
            AnnotationEvent<T>,
        >(annotations, maps.len(), t, k),
    decreases k,
{
    if k > 0 {
        lemma_annotation_counts(maps, annotations, t, k - 1);
    }
}

proof fn lemma_annotation_found<T: Scalar>(
    maps: Seq<TraceTimeMap<T>>,
    annotations: Seq<AnnotationEvent<T>>,
    i: int,
    k: int,
)
    requires
        0 <= i < k <= annotations.len(),
    ensures
        ({
            let t = warp::map_of::<T, AnnotationEvent<T>>(annotations[i], maps.len());
            let local = warp::count_by::<T, AnnotationEvent<T>>(annotations, maps.len(), t, i);
            let all = warp::annotation_displays(maps, annotations, t, k);
            0 <= local < all.len() && all[local] == warp::annotation_display(maps, annotations[i])
        }),
    decreases k,
{
    let t = warp::map_of::<T, AnnotationEvent<T>>(annotations[i], maps.len());
    lemma_annotation_counts(maps, annotations, t, i);
    if i < k - 1 {
        lemma_annotation_found(maps, annotations, i, k - 1);
    }
}

/// A warped event is drawn from where its start is taken to where its end is taken, by the
/// map of its own trace.
pub proof fn warped_events_run_from_start_to_end<T: Scalar, C: Scalar>(
    state: AlignmentState<T, C>,
    kernels: Seq<KernelEvent<T>>,
    annotations: Seq<AnnotationEvent<T>>,
    trace_count: usize,
    i: int,
)
    requires
        state.is_warped(kernels, annotations, trace_count),
    ensures
        0 <= i < kernels.len() && kernels[i].trace_id < trace_count ==> {
            let t = kernels[i].trace_id;
            let drawn = state.display_kernel_times@[t as int]@[state.kernel_local_idx@[i] as int];
            &&& drawn.display_start == warp::mapped_ts(state.time_maps@, t, kernels[i].ts)
            &&& drawn.display_end == warp::mapped_ts(
                state.time_maps@,
                t,
                kernels[i].ts.plus_spec(kernels[i].dur),
            )
        },
        0 <= i < annotations.len() && annotations[i].trace_id < trace_count ==> {
            let t = annotations[i].trace_id;
            let drawn = state.display_annotation_times@[t as int]@[
                state.annotation_local_idx@[i] as int
            ];
            &&& drawn.display_start == warp::mapped_ts(state.time_maps@, t, annotations[i].ts)
            &&& drawn.display_end == warp::mapped_ts(
                state.time_maps@,
                t,
                annotations[i].ts.plus_spec(annotations[i].dur),
            )
        },
{
    let maps = state.time_maps@;
    if 0 <= i < kernels.len() && kernels[i].trace_id < trace_count {
        let t = kernels[i].trace_id;
        assert(state.display_kernel_times@[t as int]@ == warp::kernel_displays(
            maps,
            kernels,
            t,
            kernels.len() as int,
        ));
        warp::local_indices_find_their_kernels(maps, kernels, i, kernels.len() as int);
    }
    if 0 <= i < annotations.len() && annotations[i].trace_id < trace_count {
        let t = annotations[i].trace_id;
        assert(state.display_annotation_times@[t as int]@ == warp::annotation_displays(
            maps,
            annotations,
            t,
            annotations.len() as int,
        ));
        lemma_annotation_found(maps, annotations, i, annotations.len() as int);
    }
}

proof fn lemma_partner(pairs: Seq<(usize, usize)>, id: usize)
    ensures
        match pipeline::partner(pairs, id) {
            Some(o) => pairs.contains((id, o)),
            None => forall|o: usize| !#[trigger] pairs.contains((id, o)),
        },
    decreases pairs.len(),
{
    if pairs.len() > 0 {
        let rest = pairs.drop_last();
        lemma_partner(rest, id);
        if pairs.last().0 == id {
            assert(pairs[pairs.len() - 1] == (id, pairs.last().1));
        } else {
            match pipeline::partner(rest, id) {
                Some(o) => {
                    let k = choose|k: int| 0 <= k < rest.len() && rest[k] == (id, o);
                    assert(pairs[k] == (id, o));
                },
                None => {
                    assert forall|o: usize| !#[trigger] pairs.contains((id, o)) by {
                        if pairs.contains((id, o)) {
                            let k = choose|k: int| 0 <= k < pairs.len() && pairs[k] == (id, o);
                            assert(rest[k] == (id, o));
                            assert(rest.contains((id, o)));
                        }
                    }
                },
            }
        }
    }
}

/// Beside each block of the first trace stands the block that it is paired with, with the
/// times and the kernels of that block, and none where it is not paired.
pub proof fn blocks_stand_beside_their_partners<T: Scalar, C: Scalar>(
    state: AlignmentState<T, C>,
    kernels: Seq<KernelEvent<T>>,
    annotations: Seq<AnnotationEvent<T>>,
    trace_count: usize,
    b: int,
    t: int,
)
    requires
        state.is_warped(kernels, annotations, trace_count),
        0 <= b < state.blocks@.len() <= usize::MAX,
        0 <= t < trace_count,
    ensures
        ({
            let own = pipeline::trace_blocks(kernels, 0)[b];
            let there = pipeline::trace_blocks(kernels, t as usize);
            let pairs = pipeline::trace_pairs::<T, C>(kernels, t as usize);
            let block = state.blocks@[b];
            &&& state.blocks@.len() == pipeline::trace_blocks(kernels, 0).len()
            &&& block.display_start == own.0 && block.display_end == own.1
            &&& t == 0 ==> (block.per_trace@[0] matches Some(x) && x.raw_start == own.0 && x.raw_end
                == own.1 && x.kernel_indices == own.2 && x.confidence == C::whole_spec(1))
            &&& t > 0 ==> match block.per_trace@[t] {
                Some(x) => exists|o: usize| #[trigger]
                    pairs.contains((b as usize, o)) && x.raw_start == there[o as int].0 && x.raw_end
                        == there[o as int].1 && x.kernel_indices == there[o as int].2,
                None => forall|o: usize| !#[trigger] pairs.contains((b as usize, o)),
            }
        }),
{
    let pairs = pipeline::trace_pairs::<T, C>(kernels, t as usize);
    lemma_partner(pairs, b as usize);
    let block = state.blocks@[b];
    assert(block.per_trace@[t] == pipeline::block_beside::<T, C>(kernels, b, t as usize));
}

} // verus!
