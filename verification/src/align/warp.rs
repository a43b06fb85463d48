//! Warping traces block by block: raw time to display time.
use vstd::prelude::*;
use crate::align::{AlignedBlock, DisplayKernelTime, TimeSegment, TraceTimeMap};
use crate::lane::TimelineEvent;
use crate::scalar::Scalar;
use crate::sort::{self, arrange, sort_order, Rising};
use crate::trace::{AnnotationEvent, KernelEvent};

verus! {

/// The segment that maps the block of one trace onto the block it is paired
/// with; none where the trace has no block there.
pub open spec fn segment_in<T, C>(block: AlignedBlock<T, C>, trace_id: usize) -> Option<
    TimeSegment<T>,
> {
    if trace_id < block.per_trace@.len() {
        match block.per_trace@[trace_id as int] {
            Some(tb) => Some(
                TimeSegment {
                    trace_id,
                    block_id: block.id,
                    raw_start: tb.raw_start,
                    raw_end: tb.raw_end,
                    display_start: block.display_start,
                    display_end: block.display_end,
                },
            ),
            None => None,
        }
    } else {
        None
    }
}

/// The segments of one trace, block after block.
pub open spec fn segments_of<T, C>(
    blocks: Seq<AlignedBlock<T, C>>,
    trace_id: usize,
) -> Seq<TimeSegment<T>>
    decreases blocks.len(),
{
    if blocks.len() == 0 {
        Seq::empty()
    } else {
        let before = segments_of(blocks.drop_last(), trace_id);
        match segment_in(blocks.last(), trace_id) {
            Some(s) => before.push(s),
            None => before,
        }
    }
}

/// Segments in the order of their raw starts.
pub open spec fn by_raw_start<T: Scalar>(segments: Seq<TimeSegment<T>>) -> Seq<TimeSegment<T>> {
    sort::picked(
        segments,
        sort::sorted_order(segments.map_values(|s: TimeSegment<T>| Rising(s.raw_start))),
    )
}

/// Whether no block belongs to more than `n` traces.
pub open spec fn within_traces<T, C>(blocks: Seq<AlignedBlock<T, C>>, n: int) -> bool {
    forall|b: int, t: int|
        0 <= b < blocks.len() && n <= t < blocks[b].per_trace@.len() ==> (
        #[trigger] blocks[b].per_trace@[t]) is None
}

/// The segments of one trace, in the order of their raw starts.
fn trace_segments<T: Scalar, C: Scalar>(blocks: &[AlignedBlock<T, C>], trace_id: usize) -> (r: Vec<
    TimeSegment<T>,
>)
    ensures
        r@ == by_raw_start(segments_of(blocks@, trace_id)),
{
    let mut segments: Vec<TimeSegment<T>> = Vec::new();
    let mut keys: Vec<Rising<T>> = Vec::new();
    let mut b: usize = 0;
    while b < blocks.len()
        invariant
            b <= blocks@.len(),
            segments@ == segments_of(blocks@.take(b as int), trace_id),
            keys@.len() == segments@.len(),
            forall|k: int|
                0 <= k < keys@.len() ==> #[trigger] keys@[k] == Rising(segments@[k].raw_start),
        decreases blocks@.len() - b,
    {
        assert(blocks@.take(b + 1).drop_last() == blocks@.take(b as int));
        let block = &blocks[b];
        if trace_id < block.per_trace.len() {
            if let Some(tb) = &block.per_trace[trace_id] {
                keys.push(Rising(tb.raw_start));
                segments.push(
                    TimeSegment {
                        trace_id,
                        block_id: block.id,
                        raw_start: tb.raw_start,
                        raw_end: tb.raw_end,
                        display_start: block.display_start,
                        display_end: block.display_end,
                    },
                );
            }
        }
        b += 1;
    }
    assert(blocks@.take(blocks@.len() as int) == blocks@);
    assert(keys@ == segments@.map_values(|s: TimeSegment<T>| Rising(s.raw_start)));
    let order = sort_order(&keys);
    arrange(segments, &order)
}

/// Builds one `TraceTimeMap` per trace from the matched block list. Each matched
/// per-trace block becomes a `TimeSegment` mapping raw time to display
/// (reference) time. Traces without a matched block have no segment, so that all
/// their events stay where they are.
pub fn build_time_maps<T: Scalar, C: Scalar>(
    blocks: &[AlignedBlock<T, C>],
    trace_count: usize,
) -> (r: Vec<TraceTimeMap<T>>)
    requires
        within_traces(blocks@, trace_count as int),
    ensures
        r@.len() == trace_count,
        forall|t: int|
            0 <= t < trace_count ==> (#[trigger] r@[t]).trace_id == t && r@[t].segments@
                == by_raw_start(segments_of(blocks@, t as usize)),
{
    let mut maps: Vec<TraceTimeMap<T>> = Vec::new();
    let mut t: usize = 0;
    while t < trace_count
        invariant
            t <= trace_count,
            maps@.len() == t,
            forall|u: int|
                0 <= u < t ==> (#[trigger] maps@[u]).trace_id == u && maps@[u].segments@
                    == by_raw_start(segments_of(blocks@, u as usize)),
        decreases trace_count - t,
    {
        maps.push(TraceTimeMap { trace_id: t, segments: trace_segments(blocks, t) });
        t += 1;
    }
    maps
}

/// How many segments, from the `i`-th on without a break, start at or before a
/// time; counted with the `i` before them.
pub open spec fn started_by<T: Scalar>(segments: Seq<TimeSegment<T>>, t: T, i: int) -> int
    decreases segments.len() - i,
{
    if 0 <= i < segments.len() && segments[i].raw_start.at_most_spec(t) {
        started_by(segments, t, i + 1)
    } else {
        i
    }
}

/// A raw time drawn along a segment: linearly, and never before zero.
pub open spec fn along<T: Scalar>(seg: TimeSegment<T>, t: T) -> T {
    let raw_span = seg.raw_end.minus_spec(seg.raw_start).larger_spec(
        T::ratio_spec(1, 1_000_000_000),
    );
    let ratio = seg.display_end.minus_spec(seg.display_start).over_spec(raw_span);
    seg.display_start.plus_spec(t.minus_spec(seg.raw_start).times_spec(ratio)).larger_spec(
        T::whole_spec(0),
    )
}

/// Where the segments of a trace take a raw time: along the last segment that
/// has started, or the first where none has; without segments it stays.
pub open spec fn warped<T: Scalar>(segments: Seq<TimeSegment<T>>, t: T) -> T {
    if segments.len() == 0 {
        t
    } else {
        let pos = started_by(segments, t, 0);
        along(
            segments[if pos == 0 {
                0
            } else {
                pos - 1
            }],
            t,
        )
    }
}

/// Where the maps of all traces take a raw time of one trace; a trace without a
/// map stays.
pub open spec fn mapped_ts<T: Scalar>(
    maps: Seq<TraceTimeMap<T>>,
    trace_id: usize,
    raw_ts: T,
) -> T {
    if trace_id < maps.len() {
        warped(maps[trace_id as int].segments@, raw_ts)
    } else {
        raw_ts
    }
}

/// Maps a raw timestamp to display space using the precomputed segments. Events
/// outside all segments go along the nearest segment.
pub fn map_ts<T: Scalar>(maps: &[TraceTimeMap<T>], trace_id: usize, raw_ts: T) -> (r: T)
    ensures
        r == mapped_ts(maps@, trace_id, raw_ts),
{
    if trace_id >= maps.len() {
        return raw_ts;
    }
    let segments = &maps[trace_id].segments;
    let n: usize = segments.len();
    if n == 0 {
        return raw_ts;
    }
    let mut pos: usize = 0;
    while pos < n && segments[pos].raw_start.at_most(raw_ts)
        invariant
            pos <= n == segments@.len(),
            started_by(segments@, raw_ts, 0) == started_by(segments@, raw_ts, pos as int),
        decreases n - pos,
    {
        pos += 1;
    }
    let seg = &segments[if pos == 0 {
        0
    } else {
        pos - 1
    }];
    let raw_span = seg.raw_end.minus(seg.raw_start).larger(T::ratio(1, 1_000_000_000));
    let ratio = seg.display_end.minus(seg.display_start).over(raw_span);
    seg.display_start.plus(raw_ts.minus(seg.raw_start).times(ratio)).larger(T::whole(0))
}

/// The map that an event goes by: that of its trace, or the last one.
pub open spec fn map_of<T: Scalar, E: TimelineEvent<T>>(e: E, n: nat) -> usize {
    if e.trace_spec() < n {
        e.trace_spec()
    } else {
        (n - 1) as usize
    }
}

/// How many of the first `k` events go by map `t`.
pub open spec fn count_by<T: Scalar, E: TimelineEvent<T>>(
    events: Seq<E>,
    n: nat,
    t: usize,
    k: int,
) -> int
    decreases k,
{
    if k <= 0 {
        0
    } else if map_of(events[k - 1], n) == t {
        count_by(events, n, t, k - 1) + 1
    } else {
        count_by(events, n, t, k - 1)
    }
}

/// Where kernel `k` is drawn.
pub open spec fn kernel_display<T: Scalar>(
    maps: Seq<TraceTimeMap<T>>,
    k: KernelEvent<T>,
) -> DisplayKernelTime<T> {
    let t = map_of::<T, KernelEvent<T>>(k, maps.len());
    DisplayKernelTime {
        display_start: mapped_ts(maps, t, k.ts),
        display_end: mapped_ts(maps, t, k.end_spec()),
    }
}

/// Where annotation `a` is drawn.
pub open spec fn annotation_display<T: Scalar>(
    maps: Seq<TraceTimeMap<T>>,
    a: AnnotationEvent<T>,
) -> DisplayKernelTime<T> {
    let t = map_of::<T, AnnotationEvent<T>>(a, maps.len());
    DisplayKernelTime {
        display_start: mapped_ts(maps, t, a.ts),
        display_end: mapped_ts(maps, t, a.end_spec()),
    }
}

/// Where those of the first `k` kernels are drawn that go by map `t`.
pub open spec fn kernel_displays<T: Scalar>(
    maps: Seq<TraceTimeMap<T>>,
    kernels: Seq<KernelEvent<T>>,
    t: usize,
    k: int,
) -> Seq<DisplayKernelTime<T>>
    decreases k,
{
    if k <= 0 {
        Seq::empty()
    } else if map_of::<T, KernelEvent<T>>(kernels[k - 1], maps.len()) == t {
        kernel_displays(maps, kernels, t, k - 1).push(kernel_display(maps, kernels[k - 1]))
    } else {
        kernel_displays(maps, kernels, t, k - 1)
    }
}

/// Where those of the first `k` annotations are drawn that go by map `t`.
pub open spec fn annotation_displays<T: Scalar>(
    maps: Seq<TraceTimeMap<T>>,
    annotations: Seq<AnnotationEvent<T>>,
    t: usize,
    k: int,
) -> Seq<DisplayKernelTime<T>>
    decreases k,
{
    if k <= 0 {
        Seq::empty()
    } else if map_of::<T, AnnotationEvent<T>>(annotations[k - 1], maps.len()) == t {
        annotation_displays(maps, annotations, t, k - 1).push(
            annotation_display(maps, annotations[k - 1]),
        )
    } else {
        annotation_displays(maps, annotations, t, k - 1)
    }
}

/// Precomputes display start/end for every kernel and annotation event. Returns
/// the display times of the kernels and of the annotations by trace, and for
/// every event its place in the list of its trace.
pub fn precompute_display_times<T: Scalar>(
    kernels: &[KernelEvent<T>],
    annotations: &[AnnotationEvent<T>],
    maps: &[TraceTimeMap<T>],
) -> (r: (
    Vec<Vec<DisplayKernelTime<T>>>,
    Vec<Vec<DisplayKernelTime<T>>>,
    Vec<usize>,
    Vec<usize>,
))
    requires
        maps@.len() > 0 || (kernels@.len() == 0 && annotations@.len() == 0),
    ensures
        r.0@.len() == maps@.len(),
        r.1@.len() == maps@.len(),
        r.2@.len() == kernels@.len(),
        r.3@.len() == annotations@.len(),
        forall|t: int|
            0 <= t < maps@.len() ==> (#[trigger] r.0@[t])@ == kernel_displays(
                maps@,
                kernels@,
                t as usize,
                kernels@.len() as int,
            ),
        forall|t: int|
            0 <= t < maps@.len() ==> (#[trigger] r.1@[t])@ == annotation_displays(
                maps@,
                annotations@,
                t as usize,
                annotations@.len() as int,
            ),
        forall|i: int|
            0 <= i < kernels@.len() ==> #[trigger] r.2@[i] == count_by::<T, KernelEvent<T>>(
                kernels@,
                maps@.len(),
                map_of::<T, KernelEvent<T>>(kernels@[i], maps@.len()),
                i,
            ),
        forall|i: int|
            0 <= i < annotations@.len() ==> #[trigger] r.3@[i] == count_by::<
                T,
                AnnotationEvent<T>,
            >(
                annotations@,
                maps@.len(),
                map_of::<T, AnnotationEvent<T>>(annotations@[i], maps@.len()),
                i,
            ),
{
    let n: usize = maps.len();
    let mut k_display: Vec<Vec<DisplayKernelTime<T>>> = crate::align::empty_lists(n);
    let mut k_local: Vec<usize> = Vec::new();
    let mut i: usize = 0;
    while i < kernels.len()
        invariant
            i <= kernels@.len(),
            n == maps@.len(),
            n > 0 || kernels@.len() == 0,
            k_display@.len() == n,
            k_local@.len() == i,
            forall|t: int|
                0 <= t < n ==> (#[trigger] k_display@[t])@ == kernel_displays(
                    maps@,
                    kernels@,
                    t as usize,
                    i as int,
                ),
            forall|t: int|
                0 <= t < n ==> (#[trigger] k_display@[t])@.len() == count_by::<T, KernelEvent<T>>(
                    kernels@,
                    n as nat,
                    t as usize,
                    i as int,
                ),
            forall|j: int|
                0 <= j < i ==> #[trigger] k_local@[j] == count_by::<T, KernelEvent<T>>(
                    kernels@,
                    n as nat,
                    map_of::<T, KernelEvent<T>>(kernels@[j], n as nat),
                    j,
                ),
        decreases kernels@.len() - i,
    {
        let k = &kernels[i];
        let tid: usize = if k.trace_id < n {
            k.trace_id
        } else {
            n - 1
        };
        let start = map_ts(maps, tid, k.ts);
        let end = map_ts(maps, tid, k.end_ts());
        assert(k_display@[tid as int]@.len() == count_by::<T, KernelEvent<T>>(
            kernels@,
            n as nat,
            tid,
            i as int,
        ));
        k_local.push(k_display[tid].len());
        let ghost before = k_display@;
        k_display[tid].push(DisplayKernelTime { display_start: start, display_end: end });
        i += 1;
        proof {
            assert forall|t: int| 0 <= t < n implies (#[trigger] k_display@[t])@ == kernel_displays(
                maps@,
                kernels@,
                t as usize,
                i as int,
            ) && k_display@[t]@.len() == count_by::<T, KernelEvent<T>>(
                kernels@,
                n as nat,
                t as usize,
                i as int,
            ) by {
                assert(before[t]@ == kernel_displays(maps@, kernels@, t as usize, i - 1));
                assert(before[t]@.len() == count_by::<T, KernelEvent<T>>(
                    kernels@,
                    n as nat,
                    t as usize,
                    i - 1,
                ));
            }
        }
    }
    let mut a_display: Vec<Vec<DisplayKernelTime<T>>> = crate::align::empty_lists(n);
    let mut a_local: Vec<usize> = Vec::new();
    let mut i: usize = 0;
    while i < annotations.len()
        invariant
            i <= annotations@.len(),
            n == maps@.len(),
            n > 0 || annotations@.len() == 0,
            a_display@.len() == n,
            a_local@.len() == i,
            forall|t: int|
                0 <= t < n ==> (#[trigger] a_display@[t])@ == annotation_displays(
                    maps@,
                    annotations@,
                    t as usize,
                    i as int,
                ),
            forall|t: int|
                0 <= t < n ==> (#[trigger] a_display@[t])@.len() == count_by::<
                    T,
                    AnnotationEvent<T>,
                >(annotations@, n as nat, t as usize, i as int),
            forall|j: int|
                0 <= j < i ==> #[trigger] a_local@[j] == count_by::<T, AnnotationEvent<T>>(
                    annotations@,
                    n as nat,
                    map_of::<T, AnnotationEvent<T>>(annotations@[j], n as nat),
                    j,
                ),
        decreases annotations@.len() - i,
    {
        let a = &annotations[i];
        let tid: usize = if a.trace_id < n {
            a.trace_id
        } else {
            n - 1
        };
        let start = map_ts(maps, tid, a.ts);
        let end = map_ts(maps, tid, a.end_ts());
        assert(a_display@[tid as int]@.len() == count_by::<T, AnnotationEvent<T>>(
            annotations@,
            n as nat,
            tid,
            i as int,
        ));
        a_local.push(a_display[tid].len());
        let ghost before = a_display@;
        a_display[tid].push(DisplayKernelTime { display_start: start, display_end: end });
        i += 1;
        proof {
            assert forall|t: int| 0 <= t < n implies (#[trigger] a_display@[t])@
                == annotation_displays(maps@, annotations@, t as usize, i as int)
                && a_display@[t]@.len() == count_by::<T, AnnotationEvent<T>>(
                annotations@,
                n as nat,
                t as usize,
                i as int,
            ) by {
                assert(before[t]@ == annotation_displays(maps@, annotations@, t as usize, i - 1));
                assert(before[t]@.len() == count_by::<T, AnnotationEvent<T>>(
                    annotations@,
                    n as nat,
                    t as usize,
                    i - 1,
                ));
            }
        }
    }
    (k_display, a_display, k_local, a_local)
}

proof fn lemma_counts<T: Scalar>(
    maps: Seq<TraceTimeMap<T>>,
    kernels: Seq<KernelEvent<T>>,
    t: usize,
    j: int,
    k: int,
)
    requires
        0 <= j <= k,
    ensures
        kernel_displays(maps, kernels, t, k).len() == count_by::<T, KernelEvent<T>>(
            kernels,
            maps.len(),
            t,
            k,
        ),
        0 <= count_by::<T, KernelEvent<T>>(kernels, maps.len(), t, j) <= count_by::<
            T,
            KernelEvent<T>,
        >(kernels, maps.len(), t, k),
    decreases k,
{
    if k > 0 {
        if j < k {
            lemma_counts(maps, kernels, t, j, k - 1);
        } else {
            lemma_counts(maps, kernels, t, k - 1, k - 1);
        }
    }
}

/// The display time of kernel `i` is found in the list of its trace at its local
/// index.
pub proof fn local_indices_find_their_kernels<T: Scalar>(
    maps: Seq<TraceTimeMap<T>>,
    kernels: Seq<KernelEvent<T>>,
    i: int,
    k: int,
)
    requires
        0 <= i < k <= kernels.len(),
    ensures
        ({
            let t = map_of::<T, KernelEvent<T>>(kernels[i], maps.len());
            let local = count_by::<T, KernelEvent<T>>(kernels, maps.len(), t, i);
            &&& 0 <= local < kernel_displays(maps, kernels, t, k).len()
            &&& kernel_displays(maps, kernels, t, k)[local] == kernel_display(maps, kernels[i])
        }),
    decreases k,
{
    let t = map_of::<T, KernelEvent<T>>(kernels[i], maps.len());
    lemma_counts(maps, kernels, t, i, i);
    lemma_counts(maps, kernels, t, i, k - 1);
    if i < k - 1 {
        local_indices_find_their_kernels(maps, kernels, i, k - 1);
    }
}

} // verus!
