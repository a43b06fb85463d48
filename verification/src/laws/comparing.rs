//! Comparing two traces: which kernels are marked, and what is drawn where.
use vstd::prelude::*;
use crate::app::alignment::{self, Alignment};
use crate::diff;
use crate::lane::{self, AlignMode, KernelDiff};
use crate::layout;
use crate::scalar::{self, Scalar};
use crate::sort;
use crate::timemap;
use crate::trace::{AnnotationEvent, KernelEvent};

verus! {

/// Whether a kernel belongs to a trace and a stream.
pub open spec fn kernel_on<T>(k: KernelEvent<T>, trace_id: usize, stream: u64) -> bool {
    k.trace_id == trace_id && k.stream == stream
}

/// Whether no two kernels of one trace on one stream start at the same time.
pub open spec fn starts_differ<T>(
    kernels: Seq<KernelEvent<T>>,
    trace_id: usize,
    stream: u64,
) -> bool {
    forall|i: int, j: int|
        #![trigger kernels[i], kernels[j]]
        0 <= i < j < kernels.len() && kernel_on(kernels[i], trace_id, stream) && kernel_on(
            kernels[j],
            trace_id,
            stream,
        ) ==> kernels[i].ts != kernels[j].ts
}

/// Whether a stream has kernels in both of two traces.
pub open spec fn on_both<T>(kernels: Seq<KernelEvent<T>>, stream: u64) -> bool {
    &&& exists|i: int| 0 <= i < kernels.len() && kernel_on(#[trigger] kernels[i], 0, stream)
    &&& exists|j: int| 0 <= j < kernels.len() && kernel_on(#[trigger] kernels[j], 1, stream)
}

/// The control points by which the annotations of one trace on one stream are carried.
spec fn points_of<T: Scalar>(
    kernels: Seq<KernelEvent<T>>,
    offs: Seq<T>,
    trace_id: usize,
    stream: u64,
) -> Seq<(T, T)> {
    let idx0 = lane::items_on::<T, KernelEvent<T>>(kernels, 0, stream);
    let idx1 = lane::items_on::<T, KernelEvent<T>>(kernels, 1, stream);
    let pair = layout::pair_of(kernels, idx0, idx1, offs[0], offs[1]);
    let ops = layout::stream_script(kernels, idx0, idx1);
    let n = ops.len() as int;
    if trace_id == 0 {
        layout::controls(pair.raw0, pair.starts0(ops, n))
    } else {
        layout::controls(pair.raw1, pair.starts1(ops, n))
    }
}

/// Where an annotation is carried by some control points.
spec fn carried_span<T: Scalar>(a: AnnotationEvent<T>, points: Seq<(T, T)>, offset: T) -> (T, T) {
    let sorted = timemap::controls_by_time(points);
    let start = timemap::mapped(sorted, offset, a.ts);
    (start, start.larger_spec(timemap::mapped(sorted, offset, a.ts.plus_spec(a.dur))))
}

/// Comparing a list of streams draws each annotation of either trace on one of them
/// where the control points of its own trace and stream lead.
proof fn lemma_carried<T: Scalar>(
    normal: Alignment<T>,
    kernels: Seq<KernelEvent<T>>,
    annotations: Seq<AnnotationEvent<T>>,
    offs: Seq<T>,
    streams: Seq<u64>,
    p: int,
)
    requires
        kernels.len() <= usize::MAX,
        normal.annotations.len() == annotations.len(),
        0 <= p < annotations.len(),
        annotations[p].trace_id < 2,
        alignment::compared(kernels, annotations[p].stream),
        sort::ascending(streams),
    ensures
        ({
            let after = alignment::streams_aligned(normal, kernels, annotations, offs, streams);
            let a = annotations[p];
            &&& after.annotations.len() == annotations.len()
            &&& streams.contains(a.stream) ==> after.annotations[p] == Some(
                carried_span(
                    a,
                    points_of(kernels, offs, a.trace_id, a.stream),
                    offs[a.trace_id as int],
                ),
            )
            &&& !streams.contains(a.stream) ==> after.annotations[p] == normal.annotations[p]
        }),
    decreases streams.len(),
{
    let a = annotations[p];
    if streams.len() > 0 {
        let rest = streams.drop_last();
        let stream = streams.last();
        lemma_carried(normal, kernels, annotations, offs, rest, p);
        assert(streams[streams.len() - 1] == stream);
        assert(streams.contains(stream));
        assert(rest.contains(a.stream) ==> streams.contains(a.stream)) by {
            if rest.contains(a.stream) {
                let i = choose|i: int| 0 <= i < rest.len() && rest[i] == a.stream;
                assert(streams[i] == a.stream);
            }
        }
        assert(streams.contains(a.stream) && a.stream != stream ==> rest.contains(a.stream)) by {
            if streams.contains(a.stream) && a.stream != stream {
                let i = choose|i: int| 0 <= i < streams.len() && streams[i] == a.stream;
                assert(rest[i] == a.stream);
            }
        }
        assert(a.stream == stream ==> !rest.contains(a.stream)) by {
            if rest.contains(a.stream) {
                let i = choose|i: int| 0 <= i < rest.len() && rest[i] == a.stream;
                assert(streams[i] < streams[streams.len() - 1]);
            }
        }
        assert(lane::event_on::<T, AnnotationEvent<T>>(a, a.trace_id, a.stream));
    }
}

/// The control points of one trace on one stream are the kernels there, each with where
/// it is drawn.
proof fn lemma_points<T: Scalar>(
    kernels: Seq<KernelEvent<T>>,
    annotations: Seq<AnnotationEvent<T>>,
    trace_id: usize,
    stream: u64,
)
    requires
        kernels.len() <= usize::MAX,
        alignment::scripts_sound(kernels),
        trace_id < 2,
        alignment::compared(kernels, stream),
        starts_differ(kernels, trace_id, stream),
    ensures
        ({
            let drawn = alignment::aligned(kernels, annotations, 2, AlignMode::Diff);
            let offs = alignment::offsets(kernels, annotations, 2);
            let points = points_of(kernels, offs, trace_id, stream);
            &&& 0 < points.len() <= usize::MAX
            &&& forall|i: int, j: int|
                #![trigger points[i], points[j]]
                0 <= i < points.len() && 0 <= j < points.len() && i != j ==> points[i].0
                    != points[j].0
            &&& forall|k: int|
                0 <= k < kernels.len() && kernel_on(#[trigger] kernels[k], trace_id, stream)
                    ==> drawn.kernels[k] is Some && points.contains(
                    (kernels[k].ts, drawn.kernels[k]->0),
                )
            &&& forall|i: int|
                0 <= i < points.len() ==> exists|k: int|
                    0 <= k < kernels.len() && kernel_on(#[trigger] kernels[k], trace_id, stream)
                        && (#[trigger] points[i]) == (kernels[k].ts, drawn.kernels[k]->0)
        }),
{
    let drawn = alignment::aligned(kernels, annotations, 2, AlignMode::Diff);
    let offs = alignment::offsets(kernels, annotations, 2);
    let points = points_of(kernels, offs, trace_id, stream);
    let idx0 = lane::items_on::<T, KernelEvent<T>>(kernels, 0, stream);
    let idx1 = lane::items_on::<T, KernelEvent<T>>(kernels, 1, stream);
    let idx = if trace_id == 0 {
        idx0
    } else {
        idx1
    };
    lane::lane_holds_its_events::<T, KernelEvent<T>>(kernels, trace_id, stream);
    lane::lane_holds_its_events::<T, KernelEvent<T>>(kernels, 0, stream);
    lemma_few_items(kernels, trace_id, stream);
    assert(idx == lane::items_on::<T, KernelEvent<T>>(kernels, trace_id, stream));
    assert(lane::event_on::<T, KernelEvent<T>>(kernels[idx0[0] as int], 0, stream));
    alignment::diff_mode_follows_the_script_of_each_stream(
        kernels,
        annotations,
        idx0[0] as int,
    );
    assert(alignment::follows_script(drawn, kernels, offs, stream));
    assert(points.len() == idx.len());
    assert forall|i: int| 0 <= i < idx.len() implies #[trigger] points[i] == (
        kernels[idx[i] as int].ts,
        drawn.kernels[idx[i] as int]->0,
    ) && drawn.kernels[idx[i] as int] is Some by {
        assert(drawn.kernels[idx[i] as int] is Some);
    }
    assert forall|i: int, j: int|
        #![trigger points[i], points[j]]
        0 <= i < points.len() && 0 <= j < points.len() && i != j implies points[i].0
        != points[j].0 by {
        let a = idx[i] as int;
        let b = idx[j] as int;
        assert(lane::event_on::<T, KernelEvent<T>>(kernels[a], trace_id, stream));
        assert(lane::event_on::<T, KernelEvent<T>>(kernels[b], trace_id, stream));
        assert(idx[i] != idx[j]);
        assert(kernel_on(kernels[a], trace_id, stream) && kernel_on(kernels[b], trace_id, stream));
        if a < b {
            assert(kernels[a].ts != kernels[b].ts);
        } else {
            assert(kernels[b].ts != kernels[a].ts);
        }
    }
    assert forall|k: int|
        0 <= k < kernels.len() && kernel_on(#[trigger] kernels[k], trace_id, stream) implies
        drawn.kernels[k] is Some && points.contains((kernels[k].ts, drawn.kernels[k]->0)) by {
        assert(lane::event_on::<T, KernelEvent<T>>(kernels[k], trace_id, stream));
        assert(idx.contains(k as usize));
        let i = choose|i: int| 0 <= i < idx.len() && idx[i] == k as usize;
        assert(points[i] == (kernels[k].ts, drawn.kernels[k]->0));
    }
    assert forall|i: int| 0 <= i < points.len() implies exists|k: int|
        0 <= k < kernels.len() && kernel_on(#[trigger] kernels[k], trace_id, stream) && (
        #[trigger] points[i]) == (kernels[k].ts, drawn.kernels[k]->0) by {
        let k = idx[i] as int;
        assert(lane::event_on::<T, KernelEvent<T>>(kernels[k], trace_id, stream));
        assert(kernel_on(kernels[k], trace_id, stream));
        assert(points[i] == (kernels[k].ts, drawn.kernels[k]->0));
    }
}

/// A lane has no more items than there are events.
proof fn lemma_few_items<T: Scalar>(kernels: Seq<KernelEvent<T>>, trace_id: usize, stream: u64)
    requires
        kernels.len() <= usize::MAX,
    ensures
        lane::items_on::<T, KernelEvent<T>>(kernels, trace_id, stream).len() <= kernels.len(),
{
    let at = lane::members::<T, KernelEvent<T>>(kernels, trace_id, stream);
    lemma_few_members(kernels, trace_id, stream);
    sort::sorting_rearranges(lane::start_keys::<T, KernelEvent<T>>(kernels, at));
}

proof fn lemma_few_members<T: Scalar>(kernels: Seq<KernelEvent<T>>, trace_id: usize, stream: u64)
    ensures
        lane::members::<T, KernelEvent<T>>(kernels, trace_id, stream).len() <= kernels.len(),
    decreases kernels.len(),
{
    if kernels.len() > 0 {
        lemma_few_members(kernels.drop_last(), trace_id, stream);
    }
}

proof fn lemma_on_both<T: Scalar>(kernels: Seq<KernelEvent<T>>, stream: u64)
    requires
        kernels.len() <= usize::MAX,
        on_both(kernels, stream),
    ensures
        alignment::compared(kernels, stream),
        alignment::kernel_streams(kernels).contains(stream),
{
    lane::lane_holds_its_events::<T, KernelEvent<T>>(kernels, 0, stream);
    lane::lane_holds_its_events::<T, KernelEvent<T>>(kernels, 1, stream);
    let i = choose|i: int| 0 <= i < kernels.len() && kernel_on(#[trigger] kernels[i], 0, stream);
    let j = choose|j: int| 0 <= j < kernels.len() && kernel_on(#[trigger] kernels[j], 1, stream);
    assert(lane::event_on::<T, KernelEvent<T>>(kernels[i], 0, stream));
    assert(lane::event_on::<T, KernelEvent<T>>(kernels[j], 1, stream));
    let source = alignment::streams_of::<T, KernelEvent<T>>(kernels);
    sort::distinct_sorted_is_ascending(source);
    assert(source[i] == stream);
    assert(source.contains(stream));
}

/// Where a time on a compared stream is led by the kernels of its trace: onto a kernel
/// that starts then, as far from the first or the last kernel as it was where it lies
/// outside all of them, and in proportion where it lies between two neighbours.
proof fn lemma_led<T: Scalar>(
    kernels: Seq<KernelEvent<T>>,
    annotations: Seq<AnnotationEvent<T>>,
    trace_id: usize,
    stream: u64,
    t: T,
    k: int,
    l: int,
)
    requires
        scalar::counts_like_reals::<T>(),
        kernels.len() <= usize::MAX,
        alignment::scripts_sound(kernels),
        trace_id < 2,
        alignment::compared(kernels, stream),
        starts_differ(kernels, trace_id, stream),
        0 <= k < kernels.len(),
        kernel_on(kernels[k], trace_id, stream),
        0 <= l < kernels.len(),
        kernel_on(kernels[l], trace_id, stream),
    ensures
        ({
            let drawn = alignment::aligned(kernels, annotations, 2, AlignMode::Diff);
            let offs = alignment::offsets(kernels, annotations, 2);
            let points = timemap::controls_by_time(points_of(kernels, offs, trace_id, stream));
            let r = timemap::mapped(points, offs[trace_id as int], t);
            let dk = drawn.kernels[k]->0;
            let dl = drawn.kernels[l]->0;
            &&& drawn.kernels[k] is Some
            &&& drawn.kernels[l] is Some
            &&& t == kernels[k].ts ==> r == dk
            &&& is_last(kernels, k) && kernels[k].ts.at_most_spec(t) ==> r.minus_spec(t)
                == dk.minus_spec(kernels[k].ts)
            &&& is_first(kernels, k) && t.at_most_spec(kernels[k].ts) ==> r.minus_spec(t)
                == dk.minus_spec(kernels[k].ts)
            &&& are_neighbours(kernels, k, l) && kernels[k].ts.at_most_spec(t) && t.at_most_spec(
                kernels[l].ts,
            ) ==> r == dk.plus_spec(
                t.minus_spec(kernels[k].ts).over_spec(
                    kernels[l].ts.minus_spec(kernels[k].ts),
                ).times_spec(dl.minus_spec(dk)),
            )
        }),
{
    let drawn = alignment::aligned(kernels, annotations, 2, AlignMode::Diff);
    let offs = alignment::offsets(kernels, annotations, 2);
    let controls = points_of(kernels, offs, trace_id, stream);
    let points = timemap::controls_by_time(controls);
    let offset = offs[trace_id as int];
    lemma_points(kernels, annotations, trace_id, stream);
    timemap::sorted_controls_rise(controls);
    let ck = (kernels[k].ts, drawn.kernels[k]->0);
    let cl = (kernels[l].ts, drawn.kernels[l]->0);
    assert(controls.contains(ck));
    assert(controls.contains(cl));
    let ik = choose|i: int| 0 <= i < controls.len() && controls[i] == ck;
    let il = choose|i: int| 0 <= i < controls.len() && controls[i] == cl;
    assert(points.contains(controls[ik]));
    assert(points.contains(controls[il]));
    let a = choose|i: int| 0 <= i < points.len() && points[i] == ck;
    let b = choose|i: int| 0 <= i < points.len() && points[i] == cl;
    timemap::time_maps_meet_their_points(points, offset, a);
    timemap::time_maps_shift_outside(points, offset, t);
    if is_last(kernels, k) && a < points.len() - 1 {
        let z = points.len() - 1;
        let c = lemma_point_kernel(kernels, annotations, trace_id, stream, z);
        assert(points[a].0.at_most_spec(points[z].0) && points[a].0 != points[z].0);
        assert(kernels[c].ts.at_most_spec(kernels[k].ts));
        assert(false);
    }
    if is_first(kernels, k) && a > 0 {
        let c = lemma_point_kernel(kernels, annotations, trace_id, stream, 0);
        assert(points[0].0.at_most_spec(points[a].0) && points[0].0 != points[a].0);
        assert(kernels[k].ts.at_most_spec(kernels[c].ts));
        assert(false);
    }
    if are_neighbours(kernels, k, l) {
        if b < a {
            assert(points[b].0.at_most_spec(points[a].0));
            assert(false);
        }
        if a + 1 < b {
            let c = lemma_point_kernel(kernels, annotations, trace_id, stream, a + 1);
            assert(points[a].0.at_most_spec(points[a + 1].0) && points[a].0 != points[a + 1].0);
            assert(points[a + 1].0.at_most_spec(points[b].0) && points[a + 1].0 != points[b].0);
            assert(kernels[c].ts.at_most_spec(kernels[k].ts) || kernels[l].ts.at_most_spec(
                kernels[c].ts,
            ));
            assert(false);
        }
        if kernels[k].ts.at_most_spec(t) && t.at_most_spec(kernels[l].ts) {
            timemap::time_maps_are_linear_between_neighbours(points, offset, a, t);
        }
    }
}

/// The kernel behind a sorted control point.
proof fn lemma_point_kernel<T: Scalar>(
    kernels: Seq<KernelEvent<T>>,
    annotations: Seq<AnnotationEvent<T>>,
    trace_id: usize,
    stream: u64,
    i: int,
) -> (k: int)
    requires
        scalar::counts_like_reals::<T>(),
        kernels.len() <= usize::MAX,
        alignment::scripts_sound(kernels),
        trace_id < 2,
        alignment::compared(kernels, stream),
        starts_differ(kernels, trace_id, stream),
        0 <= i < timemap::controls_by_time(
            points_of(kernels, alignment::offsets(kernels, annotations, 2), trace_id, stream),
        ).len(),
    ensures
        0 <= k < kernels.len(),
        kernel_on(kernels[k], trace_id, stream),
        timemap::controls_by_time(
            points_of(kernels, alignment::offsets(kernels, annotations, 2), trace_id, stream),
        )[i].0 == kernels[k].ts,
{
    let offs = alignment::offsets(kernels, annotations, 2);
    let controls = points_of(kernels, offs, trace_id, stream);
    let points = timemap::controls_by_time(controls);
    lemma_points(kernels, annotations, trace_id, stream);
    timemap::sorted_controls_rise(controls);
    assert(controls.contains(points[i]));
    let j = choose|j: int| 0 <= j < controls.len() && controls[j] == points[i];
    let drawn = alignment::aligned(kernels, annotations, 2, AlignMode::Diff);
    choose|k: int|
        0 <= k < kernels.len() && kernel_on(#[trigger] kernels[k], trace_id, stream)
            && controls[j] == (kernels[k].ts, drawn.kernels[k]->0)
}

/// Whether no kernel of the same trace and stream starts later.
pub open spec fn is_last<T: Scalar>(kernels: Seq<KernelEvent<T>>, k: int) -> bool {
    forall|i: int|
        0 <= i < kernels.len() && kernel_on(
            #[trigger] kernels[i],
            kernels[k].trace_id,
            kernels[k].stream,
        ) ==> kernels[i].ts.at_most_spec(kernels[k].ts)
}

/// Whether no kernel of the same trace and stream starts earlier.
pub open spec fn is_first<T: Scalar>(kernels: Seq<KernelEvent<T>>, k: int) -> bool {
    forall|i: int|
        0 <= i < kernels.len() && kernel_on(
            #[trigger] kernels[i],
            kernels[k].trace_id,
            kernels[k].stream,
        ) ==> kernels[k].ts.at_most_spec(kernels[i].ts)
}

/// Whether kernel `l` starts behind kernel `k`, and none of their trace and stream
/// between them.
pub open spec fn are_neighbours<T: Scalar>(kernels: Seq<KernelEvent<T>>, k: int, l: int) -> bool {
    &&& kernels[k].ts.at_most_spec(kernels[l].ts)
    &&& kernels[k].ts != kernels[l].ts
    &&& forall|i: int|
        0 <= i < kernels.len() && kernel_on(
            #[trigger] kernels[i],
            kernels[k].trace_id,
            kernels[k].stream,
        ) ==> kernels[i].ts.at_most_spec(kernels[k].ts) || kernels[l].ts.at_most_spec(
            kernels[i].ts,
        )
}

/// In diff mode the annotations of either trace follow the kernels that they bracket:
/// an annotation that starts with a kernel of its trace and stream is drawn from where
/// that kernel is drawn, and one that ends where a kernel starts is drawn up to there.
/// Where it lies before all kernels or behind the start of the last one, it is drawn as
/// far from that kernel, and as long, as it was. Between two neighbours its start and
/// end are drawn in proportion.
pub proof fn annotations_follow_the_kernels_they_bracket<T: Scalar>(
    kernels: Seq<KernelEvent<T>>,
    annotations: Seq<AnnotationEvent<T>>,
    p: int,
    k: int,
    l: int,
)
    requires
        scalar::counts_like_reals::<T>(),
        kernels.len() <= usize::MAX,
        alignment::scripts_sound(kernels),
        0 <= p < annotations.len(),
        annotations[p].trace_id < 2,
        on_both(kernels, annotations[p].stream),
        starts_differ(kernels, annotations[p].trace_id, annotations[p].stream),
        0 <= k < kernels.len(),
        kernel_on(kernels[k], annotations[p].trace_id, annotations[p].stream),
        0 <= l < kernels.len(),
        kernel_on(kernels[l], annotations[p].trace_id, annotations[p].stream),
    ensures
        ({
            let drawn = alignment::aligned(kernels, annotations, 2, AlignMode::Diff);
            let a = annotations[p];
            let end = a.ts.plus_spec(a.dur);
            let (from, to) = drawn.annotations[p]->0;
            let dk = drawn.kernels[k]->0;
            let dl = drawn.kernels[l]->0;
            let tk = kernels[k].ts;
            let tl = kernels[l].ts;
            &&& drawn.annotations[p] is Some
            &&& drawn.kernels[k] is Some
            &&& drawn.kernels[l] is Some
            &&& from.at_most_spec(to)
            &&& a.ts == tk ==> from == dk
            &&& end == tk && from.at_most_spec(dk) ==> to == dk
            &&& is_last(kernels, k) && tk.at_most_spec(a.ts) ==> from.minus_spec(a.ts)
                == dk.minus_spec(tk)
            &&& is_last(kernels, k) && tk.at_most_spec(a.ts) && T::whole_spec(0).at_most_spec(
                a.dur,
            ) ==> to.minus_spec(from) == a.dur
            &&& is_first(kernels, k) && a.ts.at_most_spec(tk) ==> from.minus_spec(a.ts)
                == dk.minus_spec(tk)
            &&& is_first(kernels, k) && end.at_most_spec(tk) && T::whole_spec(0).at_most_spec(
                a.dur,
            ) ==> to.minus_spec(from) == a.dur
            &&& are_neighbours(kernels, k, l) && tk.at_most_spec(a.ts) && a.ts.at_most_spec(tl)
                ==> from == dk.plus_spec(
                a.ts.minus_spec(tk).over_spec(tl.minus_spec(tk)).times_spec(dl.minus_spec(dk)),
            )
            &&& are_neighbours(kernels, k, l) && tk.at_most_spec(end) && end.at_most_spec(tl)
                ==> to == from.larger_spec(
                dk.plus_spec(
                    end.minus_spec(tk).over_spec(tl.minus_spec(tk)).times_spec(dl.minus_spec(dk)),
                ),
            )
        }),
{
    let drawn = alignment::aligned(kernels, annotations, 2, AlignMode::Diff);
    let offs = alignment::offsets(kernels, annotations, 2);
    let normal = alignment::normal_alignment(kernels, annotations, offs);
    let a = annotations[p];
    let zero = T::whole_spec(0);
    let end = a.ts.plus_spec(a.dur);
    let tk = kernels[k].ts;
    lemma_on_both(kernels, a.stream);
    let streams = alignment::kernel_streams(kernels);
    sort::distinct_sorted_is_ascending(alignment::streams_of::<T, KernelEvent<T>>(kernels));
    lemma_carried(normal, kernels, annotations, offs, streams, p);
    lemma_led(kernels, annotations, a.trace_id, a.stream, a.ts, k, l);
    lemma_led(kernels, annotations, a.trace_id, a.stream, end, k, l);
    let points = timemap::controls_by_time(points_of(kernels, offs, a.trace_id, a.stream));
    let from = timemap::mapped(points, offs[a.trace_id as int], a.ts);
    let e = timemap::mapped(points, offs[a.trace_id as int], end);
    assert(drawn.annotations[p] == Some((from, from.larger_spec(e))));
    assert(from.at_most_spec(from));
    assert(a.ts.plus_spec(zero) == a.ts);
    if zero.at_most_spec(a.dur) {
        assert(a.ts.plus_spec(zero).at_most_spec(end));
        if (is_last(kernels, k) && tk.at_most_spec(a.ts)) || (is_first(kernels, k)
            && end.at_most_spec(tk)) {
            let shift = drawn.kernels[k]->0.minus_spec(tk);
            assert(a.ts.at_most_spec(tk) || tk.at_most_spec(a.ts));
            assert(from.minus_spec(a.ts) == shift);
            assert(e.minus_spec(end) == shift);
            lemma_same_shift(a.ts, a.dur, from, e, shift);
        }
    }
}

/// Two times that are moved alike stay as far from each other.
proof fn lemma_same_shift<T: Scalar>(t: T, dur: T, from: T, e: T, shift: T)
    requires
        scalar::counts_like_reals::<T>(),
        T::whole_spec(0).at_most_spec(dur),
        from.minus_spec(t) == shift,
        e.minus_spec(t.plus_spec(dur)) == shift,
    ensures
        from.at_most_spec(e),
        e.minus_spec(from) == dur,
{
    let zero = T::whole_spec(0);
    let end = t.plus_spec(dur);
    assert(t.plus_spec(shift) == from);
    assert(end.plus_spec(shift) == e);
    scalar::sums_group_freely(t, dur, shift);
    scalar::sums_group_freely(dur, shift, dur);
    scalar::sums_group_freely(t, shift, dur);
    assert(e == from.plus_spec(dur));
    assert(from.plus_spec(dur).minus_spec(from) == dur);
    assert(from.plus_spec(zero) == from);
    assert(from.plus_spec(zero).at_most_spec(from.plus_spec(dur)));
}

/// The names and places of those of the first `n` of some kernels that are not marked as
/// standing in one trace only, in order.
pub open spec fn unmarked<T>(
    kernels: Seq<KernelEvent<T>>,
    drawn: Alignment<T>,
    at: Seq<usize>,
    n: int,
) -> Seq<(Seq<char>, Option<T>)>
    decreases n,
{
    if n <= 0 {
        Seq::empty()
    } else {
        let i = at[n - 1] as int;
        let before = unmarked(kernels, drawn, at, n - 1);
        if drawn.status[i] is None {
            before.push((kernels[i].name@, drawn.kernels[i]))
        } else {
            before
        }
    }
}

/// Those of the first `n` items that are not flagged.
spec fn unflagged<V>(items: Seq<V>, flags: Seq<bool>, n: int) -> Seq<V>
    decreases n,
{
    if n <= 0 {
        Seq::empty()
    } else if flags[n - 1] {
        unflagged(items, flags, n - 1)
    } else {
        unflagged(items, flags, n - 1).push(items[n - 1])
    }
}

proof fn lemma_flagged_run<V>(items: Seq<V>, flags: Seq<bool>, n: int, len: int)
    requires
        0 <= n,
        0 <= len,
        forall|i: int| n <= i < n + len ==> #[trigger] flags[i],
    ensures
        unflagged(items, flags, n + len) == unflagged(items, flags, n),
    decreases len,
{
    if len > 0 {
        lemma_flagged_run(items, flags, n, len - 1);
        assert(flags[n + len - 1]);
    }
}

proof fn lemma_unflagged_run<V>(items: Seq<V>, flags: Seq<bool>, n: int, len: int)
    requires
        0 <= n,
        0 <= len,
        n + len <= items.len(),
        forall|i: int| n <= i < n + len ==> !#[trigger] flags[i],
    ensures
        unflagged(items, flags, n + len) == unflagged(items, flags, n) + items.subrange(n, n + len),
    decreases len,
{
    if len > 0 {
        lemma_unflagged_run(items, flags, n, len - 1);
        assert(!flags[n + len - 1]);
        assert(items.subrange(n, n + len) == items.subrange(n, n + len - 1).push(
            items[n + len - 1],
        ));
        assert(unflagged(items, flags, n) + items.subrange(n, n + len - 1).push(items[n + len - 1])
            == (unflagged(items, flags, n) + items.subrange(n, n + len - 1)).push(
            items[n + len - 1],
        ));
    } else {
        assert(unflagged(items, flags, n) + items.subrange(n, n) == unflagged(items, flags, n));
    }
}

proof fn lemma_steps_match<T: Scalar>(
    pair: layout::StreamPair<T>,
    ops: Seq<diff::EditOp>,
    names0: Seq<Seq<char>>,
    names1: Seq<Seq<char>>,
    k: int,
)
    requires
        diff::leads(ops, pair.raw0.len() as int, pair.raw1.len() as int),
        diff::agrees(ops, names0, names1),
        names0.len() == pair.raw0.len(),
        names1.len() == pair.raw1.len(),
        0 <= k <= ops.len(),
    ensures
        ({
            let n = ops.len() as int;
            let left = Seq::new(names0.len(), |i: int| (names0[i], pair.starts0(ops, n)[i]));
            let right = Seq::new(names1.len(), |j: int| (names1[j], pair.starts1(ops, n)[j]));
            unflagged(left, layout::deleted_flags(ops, n), diff::old_before(ops, k)) == unflagged(
                right,
                layout::added_flags(ops, n),
                diff::new_before(ops, k),
            )
        }),
    decreases k,
{
    let n = ops.len() as int;
    let left = Seq::new(names0.len(), |i: int| (names0[i], pair.starts0(ops, n)[i]));
    let right = Seq::new(names1.len(), |j: int| (names1[j], pair.starts1(ops, n)[j]));
    let gone = layout::deleted_flags(ops, n);
    let added = layout::added_flags(ops, n);
    if k > 0 {
        lemma_steps_match(pair, ops, names0, names1, k - 1);
        layout::every_kernel_is_placed(pair, ops, k - 1);
        diff::steps_lie_inside(ops, pair.raw0.len() as int, pair.raw1.len() as int, k - 1);
        let op = ops[k - 1];
        let o = diff::old_before(ops, k - 1);
        let w = diff::new_before(ops, k - 1);
        if op is Equal {
            let len = op.old_count();
            assert(op.new_count() == len);
            assert forall|d: int| 0 <= d < len implies #[trigger] left[o + d] == right[w + d] by {
                layout::matched_kernels_share_their_start(pair, ops, names0, names1, k - 1, d);
            }
            let a = left.subrange(o, o + len);
            let b = right.subrange(w, w + len);
            assert forall|d: int| 0 <= d < len implies #[trigger] a[d] == b[d] by {
                assert(left[o + d] == right[w + d]);
            }
            assert(a =~= b);
            lemma_unflagged_run(left, gone, o, len);
            lemma_unflagged_run(right, added, w, len);
        } else {
            lemma_flagged_run(left, gone, o, op.old_count());
            lemma_flagged_run(right, added, w, op.new_count());
        }
    }
}

proof fn lemma_unmarked<T>(
    kernels: Seq<KernelEvent<T>>,
    drawn: Alignment<T>,
    at: Seq<usize>,
    items: Seq<(Seq<char>, T)>,
    flags: Seq<bool>,
    n: int,
)
    requires
        0 <= n <= at.len(),
        at.len() == items.len(),
        forall|i: int|
            0 <= i < at.len() ==> drawn.kernels[#[trigger] at[i] as int] == Some(items[i].1)
                && kernels[at[i] as int].name@ == items[i].0 && (drawn.status[at[i] as int]
                is None) == !flags[i],
    ensures
        unmarked(kernels, drawn, at, n) == unflagged(items, flags, n).map_values(
            |x: (Seq<char>, T)| (x.0, Some(x.1)),
        ),
    decreases n,
{
    let put = |x: (Seq<char>, T)| (x.0, Some(x.1));
    if n > 0 {
        lemma_unmarked(kernels, drawn, at, items, flags, n - 1);
        let i = at[n - 1] as int;
        assert(drawn.kernels[i] == Some(items[n - 1].1));
        let before = unflagged(items, flags, n - 1);
        if !flags[n - 1] {
            assert(before.push(items[n - 1]).map_values(put) =~= before.map_values(put).push(
                (kernels[i].name@, drawn.kernels[i]),
            ));
        }
    } else {
        assert(unmarked(kernels, drawn, at, n) =~= unflagged(items, flags, n).map_values(put));
    }
}

/// In diff mode the kernels of a stream that are not marked bear the same names in both
/// traces, in the same order and drawn at the same places. Of those that are marked, the
/// ones of the first trace are marked as deleted and the ones of the second as added.
pub proof fn unmarked_kernels_are_the_same_in_both_traces<T: Scalar>(
    kernels: Seq<KernelEvent<T>>,
    annotations: Seq<AnnotationEvent<T>>,
    stream: u64,
)
    requires
        kernels.len() <= usize::MAX,
        alignment::scripts_sound(kernels),
        on_both(kernels, stream),
    ensures
        ({
            let drawn = alignment::aligned(kernels, annotations, 2, AlignMode::Diff);
            let idx0 = lane::items_on::<T, KernelEvent<T>>(kernels, 0, stream);
            let idx1 = lane::items_on::<T, KernelEvent<T>>(kernels, 1, stream);
            &&& unmarked(kernels, drawn, idx0, idx0.len() as int) == unmarked(
                kernels,
                drawn,
                idx1,
                idx1.len() as int,
            )
            &&& forall|i: int|
                0 <= i < idx0.len() ==> drawn.status[#[trigger] idx0[i] as int] != Some(
                    KernelDiff::Added,
                )
            &&& forall|j: int|
                0 <= j < idx1.len() ==> drawn.status[#[trigger] idx1[j] as int] != Some(
                    KernelDiff::Deleted,
                )
        }),
{
    let drawn = alignment::aligned(kernels, annotations, 2, AlignMode::Diff);
    let offs = alignment::offsets(kernels, annotations, 2);
    let idx0 = lane::items_on::<T, KernelEvent<T>>(kernels, 0, stream);
    let idx1 = lane::items_on::<T, KernelEvent<T>>(kernels, 1, stream);
    let p = choose|p: int| 0 <= p < kernels.len() && kernel_on(#[trigger] kernels[p], 0, stream);
    lemma_on_both(kernels, stream);
    alignment::diff_mode_follows_the_script_of_each_stream(kernels, annotations, p);
    let pair = layout::pair_of(kernels, idx0, idx1, offs[0], offs[1]);
    let ops = layout::stream_script(kernels, idx0, idx1);
    let n = ops.len() as int;
    let names0 = layout::names_at(kernels, idx0);
    let names1 = layout::names_at(kernels, idx1);
    assert(layout::sound_script(kernels, idx0, idx1));
    lemma_steps_match(pair, ops, names0, names1, n);
    layout::steps_place_what_they_cover(pair, ops, n);
    let left = Seq::new(names0.len(), |i: int| (names0[i], pair.starts0(ops, n)[i]));
    let right = Seq::new(names1.len(), |j: int| (names1[j], pair.starts1(ops, n)[j]));
    lemma_unmarked(
        kernels,
        drawn,
        idx0,
        left,
        layout::deleted_flags(ops, n),
        idx0.len() as int,
    );
    lemma_unmarked(kernels, drawn, idx1, right, layout::added_flags(ops, n), idx1.len() as int);
}

} // verus!
