//! Laying the events of all open traces out on the shared time axis.
use vstd::prelude::*;
use crate::app::App;
use crate::diff;
use crate::lane::{self, stream_kernel_indices, AlignMode, KernelDiff, TimelineEvent};
use crate::layout::{self, remap_stream};
use crate::scalar::Scalar;
use crate::sort::{self, add_number};
use crate::timemap::{self, TimeMap};
use crate::trace::{AnnotationEvent, KernelEvent};

verus! {

/// Whether every event belongs to one of `n` traces.
pub open spec fn in_traces<T: Scalar, E: TimelineEvent<T>>(events: Seq<E>, n: nat) -> bool {
    forall|i: int| 0 <= i < events.len() ==> (#[trigger] events[i]).trace_spec() < n
}

/// The earliest start among `init` and the events of one trace.
pub open spec fn earliest<T: Scalar, E: TimelineEvent<T>>(
    events: Seq<E>,
    trace_id: usize,
    init: T,
) -> T
    decreases events.len(),
{
    if events.len() == 0 {
        init
    } else {
        let before = earliest(events.drop_last(), trace_id, init);
        let e = events.last();
        if e.trace_spec() == trace_id && e.start_spec().less_spec(before) {
            e.start_spec()
        } else {
            before
        }
    }
}

/// The earliest start of one trace; the largest number where it has no event.
pub open spec fn trace_start<T: Scalar>(
    kernels: Seq<KernelEvent<T>>,
    annotations: Seq<AnnotationEvent<T>>,
    trace_id: usize,
) -> T {
    earliest(annotations, trace_id, earliest(kernels, trace_id, T::largest_spec()))
}

/// The smallest finite number of a list; the largest number where there is none.
pub open spec fn smallest_finite<T: Scalar>(numbers: Seq<T>) -> T
    decreases numbers.len(),
{
    if numbers.len() == 0 {
        T::largest_spec()
    } else {
        let before = smallest_finite(numbers.drop_last());
        if numbers.last().finite_spec() {
            before.smaller_spec(numbers.last())
        } else {
            before
        }
    }
}

/// The earliest starts of the first `n` traces.
pub open spec fn trace_starts<T: Scalar>(
    kernels: Seq<KernelEvent<T>>,
    annotations: Seq<AnnotationEvent<T>>,
    n: nat,
) -> Seq<T> {
    Seq::new(n, |t: int| trace_start(kernels, annotations, t as usize))
}

/// The common start of all traces: the earliest of their starts.
pub open spec fn common_start<T: Scalar>(starts: Seq<T>) -> T {
    let first = smallest_finite(starts);
    if first.finite_spec() {
        first
    } else {
        T::whole_spec(0)
    }
}

/// What moves each of `n` traces to the common start.
pub open spec fn offsets<T: Scalar>(
    kernels: Seq<KernelEvent<T>>,
    annotations: Seq<AnnotationEvent<T>>,
    n: nat,
) -> Seq<T> {
    let starts = trace_starts(kernels, annotations, n);
    Seq::new(
        n,
        |t: int|
            if starts[t].finite_spec() {
                common_start(starts).minus_spec(starts[t])
            } else {
                T::whole_spec(0)
            },
    )
}

/// Where all events are drawn, and how the kernels of two traces differ.
pub struct Alignment<T> {
    pub kernels: Seq<Option<T>>,
    pub annotations: Seq<Option<(T, T)>>,
    pub status: Seq<Option<KernelDiff>>,
}

/// Every trace moved to the common start, its internal timing kept.
pub open spec fn normal_alignment<T: Scalar>(
    kernels: Seq<KernelEvent<T>>,
    annotations: Seq<AnnotationEvent<T>>,
    offs: Seq<T>,
) -> Alignment<T> {
    Alignment {
        kernels: Seq::new(
            kernels.len(),
            |i: int| Some(kernels[i].ts.plus_spec(offs[kernels[i].trace_id as int])),
        ),
        annotations: Seq::new(
            annotations.len(),
            |i: int|
                Some(
                    (
                        annotations[i].ts.plus_spec(offs[annotations[i].trace_id as int]),
                        annotations[i].end_spec().plus_spec(offs[annotations[i].trace_id as int]),
                    ),
                ),
        ),
        status: Seq::new(kernels.len(), |i: int| None::<KernelDiff>),
    }
}

/// Annotations of one trace on one stream, carried along a time map.
pub open spec fn carried<T: Scalar>(
    spans: Seq<Option<(T, T)>>,
    annotations: Seq<AnnotationEvent<T>>,
    stream: u64,
    trace_id: usize,
    points: Seq<(T, T)>,
    offset: T,
) -> Seq<Option<(T, T)>> {
    Seq::new(
        spans.len(),
        |i: int|
            if lane::event_on::<T, AnnotationEvent<T>>(annotations[i], trace_id, stream) {
                let start = timemap::mapped(points, offset, annotations[i].ts);
                let end = timemap::mapped(points, offset, annotations[i].end_spec());
                Some((start, start.larger_spec(end)))
            } else {
                spans[i]
            },
    )
}

/// One stream of two traces laid out along the edit script of its kernel names,
/// its annotations carried along; unchanged where either trace has no kernel on
/// the stream.
pub open spec fn stream_aligned<T: Scalar>(
    before: Alignment<T>,
    kernels: Seq<KernelEvent<T>>,
    annotations: Seq<AnnotationEvent<T>>,
    offs: Seq<T>,
    stream: u64,
) -> Alignment<T> {
    let idx0 = lane::items_on::<T, KernelEvent<T>>(kernels, 0, stream);
    let idx1 = lane::items_on::<T, KernelEvent<T>>(kernels, 1, stream);
    if idx0.len() == 0 || idx1.len() == 0 {
        before
    } else {
        let pair = layout::pair_of(kernels, idx0, idx1, offs[0], offs[1]);
        let ops = layout::stream_script(kernels, idx0, idx1);
        let n = ops.len() as int;
        let starts0 = pair.starts0(ops, n);
        let starts1 = pair.starts1(ops, n);
        let points0 = timemap::controls_by_time(layout::controls(pair.raw0, starts0));
        let points1 = timemap::controls_by_time(layout::controls(pair.raw1, starts1));
        Alignment {
            kernels: layout::overwritten(
                layout::overwritten(before.kernels, idx0, layout::as_overrides(starts0)),
                idx1,
                layout::as_overrides(starts1),
            ),
            annotations: carried(
                carried(before.annotations, annotations, stream, 0, points0, offs[0]),
                annotations,
                stream,
                1,
                points1,
                offs[1],
            ),
            status: layout::marked(
                layout::marked(
                    before.status,
                    idx0,
                    layout::deleted_flags(ops, n),
                    Some(KernelDiff::Deleted),
                ),
                idx1,
                layout::added_flags(ops, n),
                Some(KernelDiff::Added),
            ),
        }
    }
}

/// The given streams aligned one after the other.
pub open spec fn streams_aligned<T: Scalar>(
    before: Alignment<T>,
    kernels: Seq<KernelEvent<T>>,
    annotations: Seq<AnnotationEvent<T>>,
    offs: Seq<T>,
    streams: Seq<u64>,
) -> Alignment<T>
    decreases streams.len(),
{
    if streams.len() == 0 {
        before
    } else {
        stream_aligned(
            streams_aligned(before, kernels, annotations, offs, streams.drop_last()),
            kernels,
            annotations,
            offs,
            streams.last(),
        )
    }
}

/// The streams of a list of events, in the order of the events.
pub open spec fn streams_of<T: Scalar, E: TimelineEvent<T>>(events: Seq<E>) -> Seq<u64> {
    events.map_values(|e: E| e.stream_spec())
}

/// The streams that have kernels, ascending.
pub open spec fn kernel_streams<T: Scalar>(kernels: Seq<KernelEvent<T>>) -> Seq<u64> {
    sort::distinct_sorted(streams_of::<T, KernelEvent<T>>(kernels))
}

/// Where all events are drawn: exactly two traces in diff mode are laid onto
/// each other stream by stream, any others are moved to the common start.
pub open spec fn aligned<T: Scalar>(
    kernels: Seq<KernelEvent<T>>,
    annotations: Seq<AnnotationEvent<T>>,
    trace_count: nat,
    mode: AlignMode,
) -> Alignment<T> {
    let offs = offsets(kernels, annotations, trace_count);
    let normal = normal_alignment(kernels, annotations, offs);
    if trace_count == 2 && mode == AlignMode::Diff {
        streams_aligned(normal, kernels, annotations, offs, kernel_streams(kernels))
    } else {
        normal
    }
}

impl<T: Scalar> App<T> {
    /// Where the events are drawn now.
    pub open spec fn alignment(&self) -> Alignment<T> {
        Alignment {
            kernels: self.kernel_render_overrides@,
            annotations: self.annotation_render_overrides@,
            status: self.kernel_diff_status@,
        }
    }

    /// Where the events are to be drawn in a mode.
    pub open spec fn alignment_in(&self, mode: AlignMode) -> Alignment<T> {
        aligned(self.kernels@, self.annotations@, self.traces@.len(), mode)
    }

    /// This state, with the events drawn as in `drawn` and the alignment mode
    /// `mode`.
    pub open spec fn redrawn(self, drawn: App<T>, mode: AlignMode) -> App<T> {
        App {
            align_mode: mode,
            kernel_render_overrides: drawn.kernel_render_overrides,
            annotation_render_overrides: drawn.annotation_render_overrides,
            kernel_diff_status: drawn.kernel_diff_status,
            ..self
        }
    }

    /// The earliest start of each trace.
    fn earliest_starts(&self) -> (r: Vec<T>)
        requires
            self.consistent(),
        ensures
            r@ == trace_starts(self.kernels@, self.annotations@, self.traces@.len()),
    {
        let n: usize = self.traces.len();
        let mut starts: Vec<T> = Vec::new();
        let mut t: usize = 0;
        while t < n
            invariant
                t <= n,
                starts@.len() == t,
                forall|u: int| 0 <= u < t ==> #[trigger] starts@[u] == T::largest_spec(),
            decreases n - t,
        {
            starts.push(T::largest());
            t += 1;
        }
        let mut i: usize = 0;
        while i < self.kernels.len()
            invariant
                i <= self.kernels@.len(),
                self.consistent(),
                n == self.traces@.len(),
                starts@.len() == n,
                forall|u: int|
                    0 <= u < n ==> #[trigger] starts@[u] == earliest(
                        self.kernels@.take(i as int),
                        u as usize,
                        T::largest_spec(),
                    ),
            decreases self.kernels@.len() - i,
        {
            let k = &self.kernels[i];
            assert(self.kernels@.take(i + 1).drop_last() == self.kernels@.take(i as int));
            assert(self.kernels@.take(i + 1).last() == k);
            assert(self.kernels@[i as int].trace_spec() < n);
            if k.ts.less(starts[k.trace_id]) {
                starts.set(k.trace_id, k.ts);
            }
            i += 1;
        }
        assert(self.kernels@.take(self.kernels@.len() as int) == self.kernels@);
        let mut j: usize = 0;
        while j < self.annotations.len()
            invariant
                j <= self.annotations@.len(),
                self.consistent(),
                n == self.traces@.len(),
                starts@.len() == n,
                forall|u: int|
                    0 <= u < n ==> #[trigger] starts@[u] == earliest(
                        self.annotations@.take(j as int),
                        u as usize,
                        earliest(self.kernels@, u as usize, T::largest_spec()),
                    ),
            decreases self.annotations@.len() - j,
        {
            let a = &self.annotations[j];
            assert(self.annotations@.take(j + 1).drop_last() == self.annotations@.take(j as int));
            assert(self.annotations@.take(j + 1).last() == a);
            assert(self.annotations@[j as int].trace_spec() < n);
            if a.ts.less(starts[a.trace_id]) {
                starts.set(a.trace_id, a.ts);
            }
            j += 1;
        }
        assert(self.annotations@.take(self.annotations@.len() as int) == self.annotations@);
        assert(starts@ == trace_starts(self.kernels@, self.annotations@, self.traces@.len()));
        starts
    }

    /// Per-trace normal offset that zero-bases every trace to the earliest raw
    /// timestamp across all traces: `offset[t] = common_start - trace_start[t]`.
    pub fn normal_offsets(&self) -> (r: Vec<T>)
        requires
            self.consistent(),
        ensures
            r@ == offsets(self.kernels@, self.annotations@, self.traces@.len()),
    {
        let starts = self.earliest_starts();
        let mut first = T::largest();
        let mut t: usize = 0;
        while t < starts.len()
            invariant
                t <= starts@.len(),
                first == smallest_finite(starts@.take(t as int)),
            decreases starts@.len() - t,
        {
            assert(starts@.take(t + 1).drop_last() == starts@.take(t as int));
            if starts[t].finite() {
                first = first.smaller(starts[t]);
            }
            t += 1;
        }
        assert(starts@.take(starts@.len() as int) == starts@);
        let common = if first.finite() {
            first
        } else {
            T::whole(0)
        };
        let mut out: Vec<T> = Vec::new();
        let mut i: usize = 0;
        while i < starts.len()
            invariant
                i <= starts@.len(),
                out@.len() == i,
                common == common_start(starts@),
                forall|u: int|
                    0 <= u < i ==> #[trigger] out@[u] == if starts@[u].finite_spec() {
                        common.minus_spec(starts@[u])
                    } else {
                        T::whole_spec(0)
                    },
            decreases starts@.len() - i,
        {
            out.push(
                if starts[i].finite() {
                    common.minus(starts[i])
                } else {
                    T::whole(0)
                },
            );
            i += 1;
        }
        assert(out@ == offsets(self.kernels@, self.annotations@, self.traces@.len()));
        out
    }

    /// Moves every trace to the common start and clears every diff status.
    fn zero_base(&mut self, offs: &Vec<T>)
        requires
            old(self).consistent(),
            offs@.len() == old(self).traces@.len(),
        ensures
            *final(self) == old(self).redrawn(*final(self), old(self).align_mode),
            final(self).alignment() == normal_alignment(
                old(self).kernels@,
                old(self).annotations@,
                offs@,
            ),
    {
        let ghost start = *self;
        let ghost goal = normal_alignment(start.kernels@, start.annotations@, offs@);
        let mut i: usize = 0;
        while i < self.kernels.len()
            invariant
                i <= self.kernels@.len(),
                start.consistent(),
                offs@.len() == start.traces@.len(),
                *self == start.redrawn(*self, start.align_mode),
                self.kernel_render_overrides@.len() == start.kernels@.len(),
                self.annotation_render_overrides@ == start.annotation_render_overrides@,
                self.kernel_diff_status@.len() == start.kernels@.len(),
                goal == normal_alignment(start.kernels@, start.annotations@, offs@),
                self.kernel_render_overrides@.take(i as int) == goal.kernels.take(i as int),
                self.kernel_diff_status@.take(i as int) == goal.status.take(i as int),
            decreases self.kernels@.len() - i,
        {
            assert(start.kernels@[i as int].trace_spec() < start.traces@.len());
            let ts = self.kernels[i].ts.plus(offs[self.kernels[i].trace_id]);
            let ghost before = self.kernel_render_overrides@;
            let ghost status = self.kernel_diff_status@;
            self.kernel_render_overrides.set(i, Some(ts));
            self.kernel_diff_status.set(i, None);
            proof {
                assert(self.kernel_render_overrides@.take(i + 1) == before.take(i as int).push(
                    Some(ts),
                ));
                assert(goal.kernels.take(i + 1) == goal.kernels.take(i as int).push(Some(ts)));
                assert(self.kernel_diff_status@.take(i + 1) == status.take(i as int).push(None));
                assert(goal.status.take(i + 1) == goal.status.take(i as int).push(None));
            }
            i += 1;
        }
        assert(self.kernel_render_overrides@ == goal.kernels) by {
            assert(self.kernel_render_overrides@.take(i as int) == self.kernel_render_overrides@);
            assert(goal.kernels.take(i as int) == goal.kernels);
        }
        assert(self.kernel_diff_status@ == goal.status) by {
            assert(self.kernel_diff_status@.take(i as int) == self.kernel_diff_status@);
            assert(goal.status.take(i as int) == goal.status);
        }
        let mut j: usize = 0;
        while j < self.annotations.len()
            invariant
                j <= self.annotations@.len(),
                start.consistent(),
                offs@.len() == start.traces@.len(),
                *self == start.redrawn(*self, start.align_mode),
                self.kernel_render_overrides@ == goal.kernels,
                self.kernel_diff_status@ == goal.status,
                self.annotation_render_overrides@.len() == start.annotations@.len(),
                goal == normal_alignment(start.kernels@, start.annotations@, offs@),
                self.annotation_render_overrides@.take(j as int) == goal.annotations.take(
                    j as int,
                ),
            decreases self.annotations@.len() - j,
        {
            assert(start.annotations@[j as int].trace_spec() < start.traces@.len());
            let off = offs[self.annotations[j].trace_id];
            let span = (
                self.annotations[j].ts.plus(off),
                self.annotations[j].end_ts().plus(off),
            );
            let ghost before = self.annotation_render_overrides@;
            self.annotation_render_overrides.set(j, Some(span));
            proof {
                assert(self.annotation_render_overrides@.take(j + 1) == before.take(j as int).push(
                    Some(span),
                ));
                assert(goal.annotations.take(j + 1) == goal.annotations.take(j as int).push(
                    Some(span),
                ));
            }
            j += 1;
        }
        assert(self.annotation_render_overrides@ == goal.annotations) by {
            assert(self.annotation_render_overrides@.take(j as int)
                == self.annotation_render_overrides@);
            assert(goal.annotations.take(j as int) == goal.annotations);
        }
    }

    /// Overwrites annotation spans on one (trace, stream) by mapping each
    /// annotation's start and end through the stream's time map.
    pub fn remap_stream_annotations(&mut self, stream: u64, trace_id: usize, map: &TimeMap<T>)
        requires
            old(self).annotation_render_overrides@.len() == old(self).annotations@.len(),
        ensures
            *final(self) == (App {
                annotation_render_overrides: final(self).annotation_render_overrides,
                ..*old(self)
            }),
            final(self).annotation_render_overrides@ == carried(
                old(self).annotation_render_overrides@,
                old(self).annotations@,
                stream,
                trace_id,
                map.points(),
                map.offset(),
            ),
    {
        let ghost start = *self;
        let ghost goal = carried(
            start.annotation_render_overrides@,
            start.annotations@,
            stream,
            trace_id,
            map.points(),
            map.offset(),
        );
        let mut i: usize = 0;
        while i < self.annotations.len()
            invariant
                i <= self.annotations@.len(),
                start.annotation_render_overrides@.len() == start.annotations@.len(),
                *self == (App {
                    annotation_render_overrides: self.annotation_render_overrides,
                    ..start
                }),
                self.annotation_render_overrides@.len() == start.annotations@.len(),
                goal == carried(
                    start.annotation_render_overrides@,
                    start.annotations@,
                    stream,
                    trace_id,
                    map.points(),
                    map.offset(),
                ),
                forall|p: int|
                    0 <= p < i ==> #[trigger] self.annotation_render_overrides@[p] == goal[p],
                forall|p: int|
                    i <= p < self.annotations@.len()
                        ==> #[trigger] self.annotation_render_overrides@[p]
                        == start.annotation_render_overrides@[p],
            decreases self.annotations@.len() - i,
        {
            let a = &self.annotations[i];
            if a.trace_id == trace_id && a.stream == stream {
                let start_ts = map.map(a.ts);
                let end_ts = start_ts.larger(map.map(a.end_ts()));
                self.annotation_render_overrides.set(i, Some((start_ts, end_ts)));
            }
            i += 1;
        }
        assert(self.annotation_render_overrides@ == goal);
    }

    /// Lays one stream of two traces onto each other.
    fn align_stream(&mut self, stream: u64, offs: &Vec<T>)
        requires
            old(self).consistent(),
            offs@.len() == 2,
        ensures
            *final(self) == old(self).redrawn(*final(self), old(self).align_mode),
            final(self).consistent(),
            final(self).alignment() == stream_aligned(
                old(self).alignment(),
                old(self).kernels@,
                old(self).annotations@,
                offs@,
                stream,
            ),
            compared(old(self).kernels@, stream) ==> layout::sound_script(
                old(self).kernels@,
                lane::items_on::<T, KernelEvent<T>>(old(self).kernels@, 0, stream),
                lane::items_on::<T, KernelEvent<T>>(old(self).kernels@, 1, stream),
            ),
    {
        let idx0 = stream_kernel_indices(self.kernels.as_slice(), 0, stream);
        let idx1 = stream_kernel_indices(self.kernels.as_slice(), 1, stream);
        if idx0.len() == 0 || idx1.len() == 0 {
            return;
        }
        proof {
            assert(self.kernels@.len() == self.kernels.len());
            lane::lane_holds_its_events::<T, KernelEvent<T>>(self.kernels@, 0, stream);
            lane::lane_holds_its_events::<T, KernelEvent<T>>(self.kernels@, 1, stream);
        }
        let (ctrl0, ctrl1) = remap_stream(
            self.kernels.as_slice(),
            idx0.as_slice(),
            idx1.as_slice(),
            offs[0],
            offs[1],
            &mut self.kernel_render_overrides,
            &mut self.kernel_diff_status,
        );
        let map0 = TimeMap::new(ctrl0, offs[0]);
        let map1 = TimeMap::new(ctrl1, offs[1]);
        self.remap_stream_annotations(stream, 0, &map0);
        self.remap_stream_annotations(stream, 1, &map1);
    }

    /// Rebuilds all render positions from scratch for the current mode. Every
    /// event is first zero-based to the common global start (normal); for exactly
    /// two traces in diff mode, each common stream's kernels are then remapped by
    /// the diff of their names and its annotations carried along a per-stream
    /// `TimeMap` built from the kernel control points.
    pub fn recompute_alignment(&mut self)
        requires
            old(self).consistent(),
        ensures
            *final(self) == old(self).redrawn(*final(self), old(self).align_mode),
            final(self).consistent(),
            final(self).alignment() == old(self).alignment_in(old(self).align_mode),
            old(self).traces@.len() == 2 && old(self).align_mode == AlignMode::Diff
                ==> scripts_sound(old(self).kernels@),
    {
        let offs = self.normal_offsets();
        let ghost start = *self;
        self.zero_base(&offs);
        let diff: bool = match self.align_mode {
            AlignMode::Diff => true,
            AlignMode::Normal => false,
        };
        if self.traces.len() != 2 || !diff {
            return;
        }
        let mut streams: Vec<u64> = Vec::new();
        let mut i: usize = 0;
        assert(streams_of::<T, KernelEvent<T>>(self.kernels@.take(0)) == Seq::<u64>::empty());
        while i < self.kernels.len()
            invariant
                i <= self.kernels@.len(),
                streams@ == sort::distinct_sorted(
                    streams_of::<T, KernelEvent<T>>(self.kernels@.take(i as int)),
                ),
            decreases self.kernels@.len() - i,
        {
            proof {
                let all = streams_of::<T, KernelEvent<T>>(self.kernels@.take(i + 1));
                assert(all.drop_last() == streams_of::<T, KernelEvent<T>>(
                    self.kernels@.take(i as int),
                ));
                assert(all.last() == self.kernels@[i as int].stream);
            }
            add_number(&mut streams, self.kernels[i].stream);
            i += 1;
        }
        assert(self.kernels@.take(self.kernels@.len() as int) == self.kernels@);
        let ghost normal = self.alignment();
        let mut s: usize = 0;
        while s < streams.len()
            invariant
                s <= streams@.len(),
                offs@.len() == 2,
                self.consistent(),
                *self == start.redrawn(*self, start.align_mode),
                self.alignment() == streams_aligned(
                    normal,
                    start.kernels@,
                    start.annotations@,
                    offs@,
                    streams@.take(s as int),
                ),
                forall|q: int|
                    0 <= q < s && compared(start.kernels@, #[trigger] streams@[q])
                        ==> layout::sound_script(
                        start.kernels@,
                        lane::items_on::<T, KernelEvent<T>>(start.kernels@, 0, streams@[q]),
                        lane::items_on::<T, KernelEvent<T>>(start.kernels@, 1, streams@[q]),
                    ),
            decreases streams@.len() - s,
        {
            assert(streams@.take(s + 1).drop_last() == streams@.take(s as int));
            assert(streams@.take(s + 1).last() == streams@[s as int]);
            self.align_stream(streams[s], &offs);
            s += 1;
        }
        assert(streams@.take(streams@.len() as int) == streams@);
        proof {
            assert(start.kernels@.len() == start.kernels.len());
            assert forall|x: u64| #[trigger] compared(start.kernels@, x) implies streams@.contains(
                x,
            ) by {
                lemma_compared_stream_is_listed(start.kernels@, x);
            }
        }
    }

    /// Toggles between diff and normal alignment for exactly two traces and
    /// recomputes render positions. No-op (returns false) for any other count.
    pub fn toggle_align_mode(&mut self) -> (r: bool)
        requires
            old(self).consistent(),
        ensures
            r == (old(self).traces@.len() == 2),
            final(self).consistent(),
            !r ==> *final(self) == *old(self),
            r ==> {
                let mode = other_mode(old(self).align_mode);
                &&& *final(self) == old(self).redrawn(*final(self), mode)
                &&& final(self).alignment() == old(self).alignment_in(mode)
                &&& mode == AlignMode::Diff ==> scripts_sound(old(self).kernels@)
            },
    {
        if self.traces.len() != 2 {
            return false;
        }
        self.align_mode =
        match self.align_mode {
            AlignMode::Diff => AlignMode::Normal,
            AlignMode::Normal => AlignMode::Diff,
        };
        self.recompute_alignment();
        true
    }
}

/// The other of the two alignment modes.
pub open spec fn other_mode(mode: AlignMode) -> AlignMode {
    match mode {
        AlignMode::Diff => AlignMode::Normal,
        AlignMode::Normal => AlignMode::Diff,
    }
}

/// Any number of traces but two, and two traces in normal mode, are only moved to
/// the common start, and no kernel is marked.
pub proof fn only_two_traces_in_diff_mode_are_compared<T: Scalar>(
    kernels: Seq<KernelEvent<T>>,
    annotations: Seq<AnnotationEvent<T>>,
    trace_count: nat,
    mode: AlignMode,
    i: int,
)
    requires
        trace_count != 2 || mode == AlignMode::Normal,
        0 <= i < kernels.len(),
    ensures
        aligned(kernels, annotations, trace_count, mode).status[i] is None,
        aligned(kernels, annotations, trace_count, mode) == normal_alignment(
            kernels,
            annotations,
            offsets(kernels, annotations, trace_count),
        ),
{
}

/// Toggling the alignment mode twice leads back: to the mode, and to where every
/// event was drawn.
pub proof fn toggling_twice_leads_back<T: Scalar>(app: App<T>, once: App<T>, twice: App<T>)
    requires
        app.alignment() == app.alignment_in(app.align_mode),
        once == app.redrawn(once, other_mode(app.align_mode)),
        once.alignment() == app.alignment_in(other_mode(app.align_mode)),
        twice == once.redrawn(twice, other_mode(once.align_mode)),
        twice.alignment() == once.alignment_in(other_mode(once.align_mode)),
    ensures
        twice.alignment() == app.alignment(),
        twice == app.redrawn(twice, app.align_mode),
{
}

/// Whether one stream has kernels in both traces, so that they are compared.
pub open spec fn compared<T: Scalar>(kernels: Seq<KernelEvent<T>>, stream: u64) -> bool {
    lane::items_on::<T, KernelEvent<T>>(kernels, 0, stream).len() > 0 && lane::items_on::<
        T,
        KernelEvent<T>,
    >(kernels, 1, stream).len() > 0
}

proof fn lemma_compared_stream_is_listed<T: Scalar>(kernels: Seq<KernelEvent<T>>, stream: u64)
    requires
        kernels.len() <= usize::MAX,
        compared(kernels, stream),
    ensures
        kernel_streams(kernels).contains(stream),
{
    let idx0 = lane::items_on::<T, KernelEvent<T>>(kernels, 0, stream);
    let source = streams_of::<T, KernelEvent<T>>(kernels);
    lane::lane_holds_its_events::<T, KernelEvent<T>>(kernels, 0, stream);
    sort::distinct_sorted_is_ascending(source);
    assert(lane::event_on::<T, KernelEvent<T>>(kernels[idx0[0] as int], 0, stream));
    assert(source[idx0[0] as int] == stream);
    assert(source.contains(stream));
}

/// Whether the edit scripts of all compared streams are sound: they lead from
/// the kernels of the one trace to those of the other, with equal names where
/// they say so.
pub open spec fn scripts_sound<T: Scalar>(kernels: Seq<KernelEvent<T>>) -> bool {
    forall|stream: u64| #[trigger]
        compared(kernels, stream) ==> layout::sound_script(
            kernels,
            lane::items_on::<T, KernelEvent<T>>(kernels, 0, stream),
            lane::items_on::<T, KernelEvent<T>>(kernels, 1, stream),
        )
}

/// What comparing a stream leaves of its kernels: kernel `i` of the anchor and
/// kernel `j` of the second trace stand where the edit script lays them, and are
/// marked where they stand in one trace only.
pub open spec fn follows_script<T: Scalar>(
    drawn: Alignment<T>,
    kernels: Seq<KernelEvent<T>>,
    offs: Seq<T>,
    stream: u64,
) -> bool {
    let idx0 = lane::items_on::<T, KernelEvent<T>>(kernels, 0, stream);
    let idx1 = lane::items_on::<T, KernelEvent<T>>(kernels, 1, stream);
    let pair = layout::pair_of(kernels, idx0, idx1, offs[0], offs[1]);
    let ops = layout::stream_script(kernels, idx0, idx1);
    let n = ops.len() as int;
    &&& forall|i: int|
        0 <= i < idx0.len() ==> drawn.kernels[#[trigger] idx0[i] as int] == Some(
            pair.starts0(ops, n)[i],
        ) && drawn.status[idx0[i] as int] == if layout::deleted_flags(ops, n)[i] {
            Some(KernelDiff::Deleted)
        } else {
            None
        }
    &&& forall|j: int|
        0 <= j < idx1.len() ==> drawn.kernels[#[trigger] idx1[j] as int] == Some(
            pair.starts1(ops, n)[j],
        ) && drawn.status[idx1[j] as int] == if layout::added_flags(ops, n)[j] {
            Some(KernelDiff::Added)
        } else {
            None
        }
}

/// Whether the entries of kernel `p` are the same in two alignments.
spec fn same_kernel_at<T>(a: Alignment<T>, b: Alignment<T>, p: int) -> bool {
    a.kernels[p] == b.kernels[p] && a.status[p] == b.status[p]
}

/// Whether an alignment has an entry for every event.
spec fn fills<T>(a: Alignment<T>, kernel_count: nat, annotation_count: nat) -> bool {
    a.kernels.len() == kernel_count && a.status.len() == kernel_count && a.annotations.len()
        == annotation_count
}

proof fn lemma_stream_aligned<T: Scalar>(
    before: Alignment<T>,
    kernels: Seq<KernelEvent<T>>,
    annotations: Seq<AnnotationEvent<T>>,
    offs: Seq<T>,
    stream: u64,
)
    requires
        kernels.len() <= usize::MAX,
        scripts_sound(kernels),
        fills(before, kernels.len(), annotations.len()),
    ensures
        ({
            let after = stream_aligned(before, kernels, annotations, offs, stream);
            &&& fills(after, kernels.len(), annotations.len())
            &&& forall|p: int|
                0 <= p < kernels.len() && kernels[p].stream != stream ==> #[trigger] same_kernel_at(
                    after,
                    before,
                    p,
                )
            &&& !compared(kernels, stream) ==> after == before
            &&& compared(kernels, stream) && (forall|p: int|
                0 <= p < kernels.len() && (#[trigger] kernels[p]).stream == stream
                    ==> before.status[p] is None) ==> follows_script(after, kernels, offs, stream)
        }),
{
    if compared(kernels, stream) {
        let after = stream_aligned(before, kernels, annotations, offs, stream);
        let idx0 = lane::items_on::<T, KernelEvent<T>>(kernels, 0, stream);
        let idx1 = lane::items_on::<T, KernelEvent<T>>(kernels, 1, stream);
        lane::lane_holds_its_events::<T, KernelEvent<T>>(kernels, 0, stream);
        lane::lane_holds_its_events::<T, KernelEvent<T>>(kernels, 1, stream);
        let pair = layout::pair_of(kernels, idx0, idx1, offs[0], offs[1]);
        let ops = layout::stream_script(kernels, idx0, idx1);
        let n = ops.len() as int;
        let v0 = layout::as_overrides(pair.starts0(ops, n));
        let v1 = layout::as_overrides(pair.starts1(ops, n));
        let d0 = layout::deleted_flags(ops, n);
        let d1 = layout::added_flags(ops, n);
        let k0 = layout::overwritten(before.kernels, idx0, v0);
        let s0 = layout::marked(before.status, idx0, d0, Some(KernelDiff::Deleted));
        assert(idx0.no_duplicates());
        assert(idx1.no_duplicates());
        layout::steps_place_what_they_cover(pair, ops, n);
        layout::overwriting_reaches_its_positions(before.kernels, idx0, v0);
        layout::overwriting_reaches_its_positions(k0, idx1, v1);
        layout::marking_reaches_its_positions(
            before.status,
            idx0,
            d0,
            Some(KernelDiff::Deleted),
        );
        layout::marking_reaches_its_positions(s0, idx1, d1, Some(KernelDiff::Added));
        assert forall|p: int|
            0 <= p < kernels.len() && !idx0.contains(p as usize) && !idx1.contains(
                p as usize,
            ) implies #[trigger] same_kernel_at(after, before, p) by {
            assert(after.kernels[p] == k0[p]);
            assert(after.status[p] == s0[p]);
        }
        assert forall|p: int|
            0 <= p < kernels.len() && kernels[p].stream != stream implies #[trigger] same_kernel_at(
            after,
            before,
            p,
        ) by {
            assert(!idx0.contains(p as usize)) by {
                if idx0.contains(p as usize) {
                    let i = choose|i: int| 0 <= i < idx0.len() && idx0[i] == p as usize;
                    assert(lane::event_on::<T, KernelEvent<T>>(kernels[idx0[i] as int], 0, stream));
                }
            }
            assert(!idx1.contains(p as usize)) by {
                if idx1.contains(p as usize) {
                    let i = choose|i: int| 0 <= i < idx1.len() && idx1[i] == p as usize;
                    assert(lane::event_on::<T, KernelEvent<T>>(kernels[idx1[i] as int], 1, stream));
                }
            }
        }
        if forall|p: int|
            0 <= p < kernels.len() && (#[trigger] kernels[p]).stream == stream
                ==> before.status[p] is None {
            assert forall|i: int| 0 <= i < idx0.len() implies after.kernels[#[trigger] idx0[i] as int]
                == Some(pair.starts0(ops, n)[i]) && after.status[idx0[i] as int] == if d0[i] {
                Some(KernelDiff::Deleted)
            } else {
                None
            } by {
                let p = idx0[i];
                assert(lane::event_on::<T, KernelEvent<T>>(kernels[p as int], 0, stream));
                assert(!idx1.contains(p)) by {
                    if idx1.contains(p) {
                        let j = choose|j: int| 0 <= j < idx1.len() && idx1[j] == p;
                        assert(lane::event_on::<T, KernelEvent<T>>(
                            kernels[idx1[j] as int],
                            1,
                            stream,
                        ));
                    }
                }
                assert(after.kernels[p as int] == k0[p as int]);
                assert(k0[idx0[i] as int] == v0[i]);
                assert(after.status[p as int] == s0[p as int]);
                assert(before.status[p as int] is None);
            }
            assert forall|j: int| 0 <= j < idx1.len() implies after.kernels[#[trigger] idx1[j] as int]
                == Some(pair.starts1(ops, n)[j]) && after.status[idx1[j] as int] == if d1[j] {
                Some(KernelDiff::Added)
            } else {
                None
            } by {
                let p = idx1[j];
                assert(lane::event_on::<T, KernelEvent<T>>(kernels[p as int], 1, stream));
                assert(!idx0.contains(p)) by {
                    if idx0.contains(p) {
                        let i = choose|i: int| 0 <= i < idx0.len() && idx0[i] == p;
                        assert(lane::event_on::<T, KernelEvent<T>>(
                            kernels[idx0[i] as int],
                            0,
                            stream,
                        ));
                    }
                }
                assert(s0[p as int] == before.status[p as int]);
                assert(before.status[p as int] is None);
                assert(after.kernels[idx1[j] as int] == v1[j]);
            }
        }
    }
}

proof fn lemma_streams_aligned<T: Scalar>(
    normal: Alignment<T>,
    kernels: Seq<KernelEvent<T>>,
    annotations: Seq<AnnotationEvent<T>>,
    offs: Seq<T>,
    streams: Seq<u64>,
)
    requires
        kernels.len() <= usize::MAX,
        scripts_sound(kernels),
        fills(normal, kernels.len(), annotations.len()),
        forall|p: int| 0 <= p < kernels.len() ==> (#[trigger] normal.status[p]) is None,
        sort::ascending(streams),
    ensures
        ({
            let after = streams_aligned(normal, kernels, annotations, offs, streams);
            &&& fills(after, kernels.len(), annotations.len())
            &&& forall|p: int|
                0 <= p < kernels.len() && (!streams.contains(kernels[p].stream) || !compared(
                    kernels,
                    kernels[p].stream,
                )) ==> #[trigger] same_kernel_at(after, normal, p)
            &&& forall|x: u64| #[trigger]
                streams.contains(x) && compared(kernels, x) ==> follows_script(
                    after,
                    kernels,
                    offs,
                    x,
                )
        }),
    decreases streams.len(),
{
    if streams.len() > 0 {
        let rest = streams.drop_last();
        let stream = streams.last();
        let before = streams_aligned(normal, kernels, annotations, offs, rest);
        let after = streams_aligned(normal, kernels, annotations, offs, streams);
        lemma_streams_aligned(normal, kernels, annotations, offs, rest);
        assert(!rest.contains(stream)) by {
            if rest.contains(stream) {
                let i = choose|i: int| 0 <= i < rest.len() && rest[i] == stream;
                assert(streams[i] < streams[streams.len() - 1]);
            }
        }
        assert forall|p: int|
            0 <= p < kernels.len() && (#[trigger] kernels[p]).stream
                == stream implies before.status[p] is None by {
            assert(same_kernel_at(before, normal, p));
            assert(normal.status[p] is None);
        }
        lemma_stream_aligned(before, kernels, annotations, offs, stream);
        assert forall|p: int|
            0 <= p < kernels.len() && (!streams.contains(kernels[p].stream) || !compared(
                kernels,
                kernels[p].stream,
            )) implies #[trigger] same_kernel_at(after, normal, p) by {
            if rest.contains(kernels[p].stream) {
                let i = choose|i: int| 0 <= i < rest.len() && rest[i] == kernels[p].stream;
                assert(streams[i] == kernels[p].stream);
            }
            assert(same_kernel_at(before, normal, p));
            if kernels[p].stream != stream {
                assert(same_kernel_at(after, before, p));
            } else {
                assert(streams[streams.len() - 1] == stream);
            }
        }
        assert forall|x: u64| #[trigger]
            streams.contains(x) && compared(kernels, x) implies follows_script(
            after,
            kernels,
            offs,
            x,
        ) by {
            if x != stream {
                let i = choose|i: int| 0 <= i < streams.len() && streams[i] == x;
                assert(rest[i] == x);
                assert(rest.contains(x));
                assert(follows_script(before, kernels, offs, x));
                lane::lane_holds_its_events::<T, KernelEvent<T>>(kernels, 0, x);
                lane::lane_holds_its_events::<T, KernelEvent<T>>(kernels, 1, x);
                let idx0 = lane::items_on::<T, KernelEvent<T>>(kernels, 0, x);
                let idx1 = lane::items_on::<T, KernelEvent<T>>(kernels, 1, x);
                assert forall|i: int| 0 <= i < idx0.len() implies same_kernel_at(
                    after,
                    before,
                    #[trigger] idx0[i] as int,
                ) by {
                    assert(lane::event_on::<T, KernelEvent<T>>(kernels[idx0[i] as int], 0, x));
                }
                assert forall|i: int| 0 <= i < idx1.len() implies same_kernel_at(
                    after,
                    before,
                    #[trigger] idx1[i] as int,
                ) by {
                    assert(lane::event_on::<T, KernelEvent<T>>(kernels[idx1[i] as int], 1, x));
                }
            }
        }
    }
}

/// In diff mode every stream that has kernels in both traces is laid out along
/// the edit script of its kernel names, whatever the other streams hold; the
/// kernels of the other streams are moved to the common start and not marked.
pub proof fn diff_mode_follows_the_script_of_each_stream<T: Scalar>(
    kernels: Seq<KernelEvent<T>>,
    annotations: Seq<AnnotationEvent<T>>,
    p: int,
)
    requires
        kernels.len() <= usize::MAX,
        scripts_sound(kernels),
        0 <= p < kernels.len(),
    ensures
        ({
            let drawn = aligned(kernels, annotations, 2, AlignMode::Diff);
            let offs = offsets(kernels, annotations, 2);
            let normal = normal_alignment(kernels, annotations, offs);
            let stream = kernels[p].stream;
            if compared(kernels, stream) {
                follows_script(drawn, kernels, offs, stream)
            } else {
                drawn.kernels[p] == normal.kernels[p] && drawn.status[p] is None
            }
        }),
{
    let offs = offsets(kernels, annotations, 2);
    let normal = normal_alignment(kernels, annotations, offs);
    let source = streams_of::<T, KernelEvent<T>>(kernels);
    let streams = kernel_streams(kernels);
    sort::distinct_sorted_is_ascending(source);
    assert(source[p] == kernels[p].stream);
    assert(source.contains(kernels[p].stream));
    assert(streams.contains(kernels[p].stream));
    lemma_streams_aligned(normal, kernels, annotations, offs, streams);
    let drawn = aligned(kernels, annotations, 2, AlignMode::Diff);
    assert(normal.status[p] is None);
    if !compared(kernels, kernels[p].stream) {
        assert(same_kernel_at(drawn, normal, p));
    }
}

/// In diff mode the two kernels of a matched pair bear the same name, are drawn at
/// the same place and are not marked.
pub proof fn matched_kernels_are_drawn_together<T: Scalar>(
    kernels: Seq<KernelEvent<T>>,
    annotations: Seq<AnnotationEvent<T>>,
    stream: u64,
    k: int,
    d: int,
)
    requires
        kernels.len() <= usize::MAX,
        scripts_sound(kernels),
        compared(kernels, stream),
        ({
            let idx0 = lane::items_on::<T, KernelEvent<T>>(kernels, 0, stream);
            let idx1 = lane::items_on::<T, KernelEvent<T>>(kernels, 1, stream);
            let ops = layout::stream_script(kernels, idx0, idx1);
            0 <= k < ops.len() && ops[k] is Equal && 0 <= d < ops[k].old_count()
        }),
    ensures
        ({
            let drawn = aligned(kernels, annotations, 2, AlignMode::Diff);
            let idx0 = lane::items_on::<T, KernelEvent<T>>(kernels, 0, stream);
            let idx1 = lane::items_on::<T, KernelEvent<T>>(kernels, 1, stream);
            let ops = layout::stream_script(kernels, idx0, idx1);
            let p = idx0[diff::old_before(ops, k) + d] as int;
            let q = idx1[diff::new_before(ops, k) + d] as int;
            &&& kernels[p].name@ == kernels[q].name@
            &&& drawn.kernels[p] is Some
            &&& drawn.kernels[p] == drawn.kernels[q]
            &&& drawn.status[p] is None
            &&& drawn.status[q] is None
        }),
{
    let idx0 = lane::items_on::<T, KernelEvent<T>>(kernels, 0, stream);
    let idx1 = lane::items_on::<T, KernelEvent<T>>(kernels, 1, stream);
    let ops = layout::stream_script(kernels, idx0, idx1);
    let offs = offsets(kernels, annotations, 2);
    let pair = layout::pair_of(kernels, idx0, idx1, offs[0], offs[1]);
    let i = diff::old_before(ops, k) + d;
    let j = diff::new_before(ops, k) + d;
    diff::steps_go_forward(ops, 0, k);
    diff::steps_go_forward(ops, k + 1, ops.len() as int);
    assert(layout::sound_script(kernels, idx0, idx1));
    layout::matched_kernels_share_their_start(
        pair,
        ops,
        layout::names_at(kernels, idx0),
        layout::names_at(kernels, idx1),
        k,
        d,
    );
    lane::lane_holds_its_events::<T, KernelEvent<T>>(kernels, 0, stream);
    diff_mode_follows_the_script_of_each_stream(kernels, annotations, idx0[i] as int);
    assert(kernels[idx0[i] as int].stream == stream);
    let drawn = aligned(kernels, annotations, 2, AlignMode::Diff);
    assert(drawn.kernels[idx0[i] as int] == Some(pair.starts0(ops, ops.len() as int)[i]));
    assert(drawn.kernels[idx1[j] as int] == Some(pair.starts1(ops, ops.len() as int)[j]));
}

/// In diff mode a stream with the same kernel names in both traces shows no
/// difference: no kernel of it is marked, and each kernel of the second trace is drawn
/// where its counterpart in the first is.
pub proof fn streams_with_the_same_names_are_drawn_together<T: Scalar>(
    kernels: Seq<KernelEvent<T>>,
    annotations: Seq<AnnotationEvent<T>>,
    stream: u64,
    i: int,
)
    requires
        kernels.len() <= usize::MAX,
        scripts_sound(kernels),
        compared(kernels, stream),
        ({
            let idx0 = lane::items_on::<T, KernelEvent<T>>(kernels, 0, stream);
            let idx1 = lane::items_on::<T, KernelEvent<T>>(kernels, 1, stream);
            layout::names_at(kernels, idx0) == layout::names_at(kernels, idx1) && 0 <= i
                < idx0.len()
        }),
    ensures
        ({
            let drawn = aligned(kernels, annotations, 2, AlignMode::Diff);
            let p = lane::items_on::<T, KernelEvent<T>>(kernels, 0, stream)[i] as int;
            let q = lane::items_on::<T, KernelEvent<T>>(kernels, 1, stream)[i] as int;
            &&& drawn.kernels[p] is Some
            &&& drawn.kernels[p] == drawn.kernels[q]
            &&& drawn.status[p] is None
            &&& drawn.status[q] is None
        }),
{
    let idx0 = lane::items_on::<T, KernelEvent<T>>(kernels, 0, stream);
    let idx1 = lane::items_on::<T, KernelEvent<T>>(kernels, 1, stream);
    let names0 = layout::names_at(kernels, idx0);
    let names1 = layout::names_at(kernels, idx1);
    let ops = layout::stream_script(kernels, idx0, idx1);
    let offs = offsets(kernels, annotations, 2);
    let pair = layout::pair_of(kernels, idx0, idx1, offs[0], offs[1]);
    assert(layout::sound_script(kernels, idx0, idx1));
    assert(names0.len() == idx0.len() && names1.len() == idx1.len());
    layout::streams_with_the_same_names_differ_nowhere(pair, ops, names0, names1, i);
    lane::lane_holds_its_events::<T, KernelEvent<T>>(kernels, 0, stream);
    diff_mode_follows_the_script_of_each_stream(kernels, annotations, idx0[i] as int);
    assert(kernels[idx0[i] as int].stream == stream);
    let drawn = aligned(kernels, annotations, 2, AlignMode::Diff);
    assert(drawn.kernels[idx0[i] as int] == Some(pair.starts0(ops, ops.len() as int)[i]));
    assert(drawn.kernels[idx1[i] as int] == Some(pair.starts1(ops, ops.len() as int)[i]));
}

/// Every event gets a render position, in every mode and for any number of
/// traces.
pub proof fn every_event_is_drawn<T: Scalar>(
    kernels: Seq<KernelEvent<T>>,
    annotations: Seq<AnnotationEvent<T>>,
    trace_count: nat,
    mode: AlignMode,
)
    requires
        kernels.len() <= usize::MAX,
        scripts_sound(kernels) || trace_count != 2 || mode == AlignMode::Normal,
        in_traces::<T, KernelEvent<T>>(kernels, trace_count),
    ensures
        ({
            let drawn = aligned(kernels, annotations, trace_count, mode);
            &&& drawn.kernels.len() == kernels.len()
            &&& drawn.annotations.len() == annotations.len()
            &&& forall|p: int| 0 <= p < kernels.len() ==> (#[trigger] drawn.kernels[p]) is Some
            &&& forall|p: int|
                0 <= p < annotations.len() ==> (#[trigger] drawn.annotations[p]) is Some
        }),
{
    let drawn = aligned(kernels, annotations, trace_count, mode);
    let offs = offsets(kernels, annotations, trace_count);
    let normal = normal_alignment(kernels, annotations, offs);
    if trace_count == 2 && mode == AlignMode::Diff {
        let streams = kernel_streams(kernels);
        sort::distinct_sorted_is_ascending(streams_of::<T, KernelEvent<T>>(kernels));
        lemma_streams_aligned(normal, kernels, annotations, offs, streams);
        lemma_annotations_stay_drawn(normal, kernels, annotations, offs, streams);
        assert forall|p: int| 0 <= p < kernels.len() implies (#[trigger] drawn.kernels[p]) is Some by {
            let x = kernels[p].stream;
            diff_mode_follows_the_script_of_each_stream(kernels, annotations, p);
            if compared(kernels, x) {
                assert(kernels[p].trace_spec() < 2);
                lane::lane_holds_its_events::<T, KernelEvent<T>>(kernels, kernels[p].trace_id, x);
                let idx = lane::items_on::<T, KernelEvent<T>>(kernels, kernels[p].trace_id, x);
                assert(lane::event_on::<T, KernelEvent<T>>(kernels[p], kernels[p].trace_id, x));
                assert(idx.contains(p as usize));
                let i = choose|i: int| 0 <= i < idx.len() && idx[i] == p as usize;
                assert(drawn.kernels[idx[i] as int] is Some);
            }
        }
    }
}

proof fn lemma_annotations_stay_drawn<T: Scalar>(
    normal: Alignment<T>,
    kernels: Seq<KernelEvent<T>>,
    annotations: Seq<AnnotationEvent<T>>,
    offs: Seq<T>,
    streams: Seq<u64>,
)
    requires
        normal.annotations.len() == annotations.len(),
        forall|p: int| 0 <= p < annotations.len() ==> (#[trigger] normal.annotations[p]) is Some,
    ensures
        ({
            let after = streams_aligned(normal, kernels, annotations, offs, streams);
            &&& after.annotations.len() == annotations.len()
            &&& forall|p: int|
                0 <= p < annotations.len() ==> (#[trigger] after.annotations[p]) is Some
        }),
    decreases streams.len(),
{
    if streams.len() > 0 {
        lemma_annotations_stay_drawn(normal, kernels, annotations, offs, streams.drop_last());
    }
}

} // verus!
