//! What the two alignment modes keep of the timing of traces: counted in ticks, and
//! for numbers that count like reals.
use vstd::prelude::*;
use crate::app::alignment::{self, Alignment};
use crate::lane::{AlignMode, TimelineEvent};
use crate::scalar::{self, Scalar};
use crate::trace::{AnnotationEvent, KernelEvent};

verus! {

proof fn lemma_earliest<E: TimelineEvent<i64>>(events: Seq<E>, trace_id: usize, init: i64)
    ensures
        ({
            let first = alignment::earliest::<i64, E>(events, trace_id, init);
            &&& first <= init
            &&& forall|i: int|
                0 <= i < events.len() && (#[trigger] events[i]).trace_spec() == trace_id ==> first
                    <= events[i].start_spec()
            &&& first < init ==> exists|i: int|
                0 <= i < events.len() && (#[trigger] events[i]).trace_spec() == trace_id
                    && events[i].start_spec() == first
        }),
    decreases events.len(),
{
    if events.len() > 0 {
        let rest = events.drop_last();
        lemma_earliest(rest, trace_id, init);
        let before = alignment::earliest::<i64, E>(rest, trace_id, init);
        let first = alignment::earliest::<i64, E>(events, trace_id, init);
        assert forall|i: int|
            0 <= i < events.len() && (#[trigger] events[i]).trace_spec() == trace_id implies first
            <= events[i].start_spec() by {
            if i < rest.len() {
                assert(rest[i] == events[i]);
            }
        }
        if first < init {
            if first == before {
                let i = choose|i: int|
                    0 <= i < rest.len() && (#[trigger] rest[i]).trace_spec() == trace_id
                        && rest[i].start_spec() == before;
                assert(events[i] == rest[i]);
            } else {
                assert(events[events.len() - 1].start_spec() == first);
            }
        }
    }
}

proof fn lemma_smallest(numbers: Seq<i64>, t: int)
    requires
        0 <= t < numbers.len(),
    ensures
        alignment::smallest_finite(numbers) <= numbers[t],
    decreases numbers.len(),
{
    if t < numbers.len() - 1 {
        lemma_smallest(numbers.drop_last(), t);
    }
}

/// The earliest start of a trace, and what moves the trace to the common start.
pub open spec fn start_of_trace(
    kernels: Seq<KernelEvent<i64>>,
    annotations: Seq<AnnotationEvent<i64>>,
    trace_id: usize,
) -> i64 {
    alignment::trace_start(kernels, annotations, trace_id)
}

/// The common start of `n` traces.
pub open spec fn start_of_all(
    kernels: Seq<KernelEvent<i64>>,
    annotations: Seq<AnnotationEvent<i64>>,
    n: nat,
) -> i64 {
    alignment::common_start(alignment::trace_starts(kernels, annotations, n))
}

/// Normal mode moves every trace as a whole, so that it starts where the earliest
/// trace starts: a kernel is drawn as far behind the common start as it stands
/// behind the earliest event of its own trace.
pub proof fn normal_mode_keeps_the_timing_of_each_trace(
    kernels: Seq<KernelEvent<i64>>,
    annotations: Seq<AnnotationEvent<i64>>,
    n: nat,
    p: int,
)
    requires
        0 <= p < kernels.len(),
        kernels[p].trace_id < n,
        start_of_trace(kernels, annotations, kernels[p].trace_id) - start_of_all(
            kernels,
            annotations,
            n,
        ) <= i64::MAX,
    ensures
        ({
            let drawn = alignment::aligned(kernels, annotations, n, AlignMode::Normal);
            let own = start_of_trace(kernels, annotations, kernels[p].trace_id);
            let common = start_of_all(kernels, annotations, n);
            &&& own <= kernels[p].ts
            &&& common <= own
            &&& drawn.kernels[p] is Some
            &&& drawn.kernels[p]->0 - common == kernels[p].ts - own
        }),
{
    let t = kernels[p].trace_id;
    let starts = alignment::trace_starts(kernels, annotations, n);
    lemma_earliest::<KernelEvent<i64>>(kernels, t, i64::MAX);
    lemma_earliest::<AnnotationEvent<i64>>(
        annotations,
        t,
        alignment::earliest::<i64, KernelEvent<i64>>(kernels, t, i64::MAX),
    );
    assert(kernels[p].trace_spec() == t);
    lemma_smallest(starts, t as int);
    assert(starts[t as int] == start_of_trace(kernels, annotations, t));
}

/// The same of annotations, whose length is kept too where they do not run over
/// the last tick.
pub proof fn normal_mode_keeps_the_timing_of_annotations(
    kernels: Seq<KernelEvent<i64>>,
    annotations: Seq<AnnotationEvent<i64>>,
    n: nat,
    p: int,
)
    requires
        0 <= p < annotations.len(),
        annotations[p].trace_id < n,
        start_of_trace(kernels, annotations, annotations[p].trace_id) - start_of_all(
            kernels,
            annotations,
            n,
        ) <= i64::MAX,
        0 <= annotations[p].dur,
        annotations[p].ts + annotations[p].dur <= i64::MAX,
    ensures
        ({
            let drawn = alignment::aligned(kernels, annotations, n, AlignMode::Normal);
            let own = start_of_trace(kernels, annotations, annotations[p].trace_id);
            let common = start_of_all(kernels, annotations, n);
            &&& drawn.annotations[p] is Some
            &&& (drawn.annotations[p]->0).0 - common == annotations[p].ts - own
            &&& (drawn.annotations[p]->0).1 - (drawn.annotations[p]->0).0 == annotations[p].dur
        }),
{
    let t = annotations[p].trace_id;
    let starts = alignment::trace_starts(kernels, annotations, n);
    lemma_earliest::<AnnotationEvent<i64>>(
        annotations,
        t,
        alignment::earliest::<i64, KernelEvent<i64>>(kernels, t, i64::MAX),
    );
    assert(annotations[p].trace_spec() == t);
    lemma_smallest(starts, t as int);
    assert(starts[t as int] == start_of_trace(kernels, annotations, t));
}

/// A trace that starts before the last tick has an event at its start, so that all
/// traces have an event at the common start in normal mode.
pub proof fn traces_start_together(
    kernels: Seq<KernelEvent<i64>>,
    annotations: Seq<AnnotationEvent<i64>>,
    n: nat,
    t: usize,
)
    requires
        t < n,
        start_of_trace(kernels, annotations, t) < i64::MAX,
        start_of_trace(kernels, annotations, t) - start_of_all(kernels, annotations, n)
            <= i64::MAX,
    ensures
        ({
            let drawn = alignment::aligned(kernels, annotations, n, AlignMode::Normal);
            let common = start_of_all(kernels, annotations, n);
            ||| exists|p: int|
                0 <= p < kernels.len() && (#[trigger] kernels[p]).trace_id == t
                    && drawn.kernels[p] == Some(common)
            ||| exists|p: int|
                0 <= p < annotations.len() && (#[trigger] annotations[p]).trace_id == t
                    && drawn.annotations[p] is Some && (drawn.annotations[p]->0).0 == common
        }),
{
    let drawn = alignment::aligned(kernels, annotations, n, AlignMode::Normal);
    let common = start_of_all(kernels, annotations, n);
    let own = start_of_trace(kernels, annotations, t);
    let starts = alignment::trace_starts(kernels, annotations, n);
    let of_kernels = alignment::earliest::<i64, KernelEvent<i64>>(kernels, t, i64::MAX);
    lemma_earliest::<KernelEvent<i64>>(kernels, t, i64::MAX);
    lemma_earliest::<AnnotationEvent<i64>>(annotations, t, of_kernels);
    lemma_smallest(starts, t as int);
    assert(starts[t as int] == own);
    if own < of_kernels {
        let p = choose|p: int|
            0 <= p < annotations.len() && (#[trigger] annotations[p]).trace_spec() == t
                && annotations[p].start_spec() == own;
        assert(annotations[p].trace_id == t);
        assert(annotations[p].ts == own);
        assert((drawn.annotations[p]->0).0 == common);
    } else {
        let p = choose|p: int|
            0 <= p < kernels.len() && (#[trigger] kernels[p]).trace_spec() == t
                && kernels[p].start_spec() == own;
        assert(kernels[p].trace_id == t);
        assert(kernels[p].ts == own);
        assert(drawn.kernels[p] == Some(common));
    }
}

/// Whether no annotation is drawn with its end before its start.
spec fn upright(drawn: Alignment<i64>) -> bool {
    forall|p: int|
        0 <= p < drawn.annotations.len() && (#[trigger] drawn.annotations[p]) is Some ==> (
        drawn.annotations[p]->0).0 <= (drawn.annotations[p]->0).1
}

proof fn lemma_streams_stay_upright(
    normal: Alignment<i64>,
    kernels: Seq<KernelEvent<i64>>,
    annotations: Seq<AnnotationEvent<i64>>,
    offs: Seq<i64>,
    streams: Seq<u64>,
)
    requires
        upright(normal),
    ensures
        upright(alignment::streams_aligned(normal, kernels, annotations, offs, streams)),
    decreases streams.len(),
{
    if streams.len() > 0 {
        lemma_streams_stay_upright(normal, kernels, annotations, offs, streams.drop_last());
    }
}

/// In every mode annotations are drawn with their end at or behind their start.
pub proof fn annotations_do_not_end_before_they_start(
    kernels: Seq<KernelEvent<i64>>,
    annotations: Seq<AnnotationEvent<i64>>,
    n: nat,
    mode: AlignMode,
    p: int,
)
    requires
        forall|i: int| 0 <= i < annotations.len() ==> 0 <= (#[trigger] annotations[i]).dur,
        0 <= p < alignment::aligned(kernels, annotations, n, mode).annotations.len(),
        alignment::aligned(kernels, annotations, n, mode).annotations[p] is Some,
    ensures
        ({
            let span = alignment::aligned(kernels, annotations, n, mode).annotations[p]->0;
            span.0 <= span.1
        }),
{
    let offs = alignment::offsets(kernels, annotations, n);
    let normal = alignment::normal_alignment(kernels, annotations, offs);
    assert forall|i: int|
        0 <= i < normal.annotations.len() && (#[trigger] normal.annotations[i]) is Some implies (
    normal.annotations[i]->0).0 <= (normal.annotations[i]->0).1 by {
        assert(0 <= annotations[i].dur);
    }
    assert(upright(normal));
    lemma_streams_stay_upright(
        normal,
        kernels,
        annotations,
        offs,
        alignment::kernel_streams(kernels),
    );
}

proof fn lemma_earliest_of_all<T: Scalar, E: TimelineEvent<T>>(
    events: Seq<E>,
    trace_id: usize,
    init: T,
)
    requires
        scalar::counts_like_reals::<T>(),
    ensures
        ({
            let first = alignment::earliest::<T, E>(events, trace_id, init);
            &&& first.at_most_spec(init)
            &&& forall|i: int|
                0 <= i < events.len() && (#[trigger] events[i]).trace_spec() == trace_id
                    ==> first.at_most_spec(events[i].start_spec())
            &&& first != init ==> exists|i: int|
                0 <= i < events.len() && (#[trigger] events[i]).trace_spec() == trace_id
                    && events[i].start_spec() == first
        }),
    decreases events.len(),
{
    assert(init.at_most_spec(init));
    if events.len() > 0 {
        let rest = events.drop_last();
        let e = events.last();
        lemma_earliest_of_all::<T, E>(rest, trace_id, init);
        let before = alignment::earliest::<T, E>(rest, trace_id, init);
        let first = alignment::earliest::<T, E>(events, trace_id, init);
        let start = e.start_spec();
        assert(before.at_most_spec(before) && start.at_most_spec(start));
        assert(start.at_most_spec(before) || before.at_most_spec(start));
        assert(start.less_spec(before) == !before.at_most_spec(start));
        assert(first.at_most_spec(before));
        assert forall|i: int|
            0 <= i < events.len() && (#[trigger] events[i]).trace_spec()
                == trace_id implies first.at_most_spec(events[i].start_spec()) by {
            if i < rest.len() {
                assert(rest[i] == events[i]);
            }
        }
        if first != init {
            if first == before {
                let i = choose|i: int|
                    0 <= i < rest.len() && (#[trigger] rest[i]).trace_spec() == trace_id
                        && rest[i].start_spec() == before;
                assert(events[i] == rest[i]);
            } else {
                assert(events[events.len() - 1].start_spec() == first);
            }
        }
    }
}

proof fn lemma_smallest_of_all<T: Scalar>(numbers: Seq<T>, t: int)
    requires
        scalar::counts_like_reals::<T>(),
        0 <= t < numbers.len(),
    ensures
        alignment::smallest_finite(numbers).at_most_spec(numbers[t]),
    decreases numbers.len(),
{
    let before = alignment::smallest_finite(numbers.drop_last());
    let last = numbers.last();
    assert(last.finite_spec());
    assert(before.at_most_spec(last) || last.at_most_spec(before));
    assert(before.at_most_spec(before) && last.at_most_spec(last));
    let first = before.smaller_spec(last);
    assert(first.at_most_spec(before) && first.at_most_spec(last));
    if t < numbers.len() - 1 {
        lemma_smallest_of_all(numbers.drop_last(), t);
    }
}

/// What moves trace `t` to the common start.
proof fn lemma_offset<T: Scalar>(
    kernels: Seq<KernelEvent<T>>,
    annotations: Seq<AnnotationEvent<T>>,
    n: nat,
    t: usize,
)
    requires
        scalar::counts_like_reals::<T>(),
        t < n,
    ensures
        ({
            let own = alignment::trace_start(kernels, annotations, t);
            let common = alignment::common_start(
                alignment::trace_starts(kernels, annotations, n),
            );
            &&& common.at_most_spec(own)
            &&& alignment::offsets(kernels, annotations, n)[t as int] == common.minus_spec(own)
        }),
{
    let starts = alignment::trace_starts(kernels, annotations, n);
    lemma_smallest_of_all(starts, t as int);
    assert(starts[t as int] == alignment::trace_start(kernels, annotations, t));
    assert(starts[t as int].finite_spec());
    assert(alignment::smallest_finite(starts).finite_spec());
}

/// For numbers that count like reals, normal mode moves every trace as a whole, so that
/// it starts where the earliest trace starts: a kernel is drawn as far behind the common
/// start as it stands behind the earliest event of its own trace.
pub proof fn normal_mode_moves_traces_as_a_whole<T: Scalar>(
    kernels: Seq<KernelEvent<T>>,
    annotations: Seq<AnnotationEvent<T>>,
    n: nat,
    p: int,
)
    requires
        scalar::counts_like_reals::<T>(),
        0 <= p < kernels.len(),
        kernels[p].trace_id < n,
    ensures
        ({
            let drawn = alignment::aligned(kernels, annotations, n, AlignMode::Normal);
            let own = alignment::trace_start(kernels, annotations, kernels[p].trace_id);
            let common = alignment::common_start(
                alignment::trace_starts(kernels, annotations, n),
            );
            &&& own.at_most_spec(kernels[p].ts)
            &&& common.at_most_spec(own)
            &&& drawn.kernels[p] is Some
            &&& (drawn.kernels[p]->0).minus_spec(common) == kernels[p].ts.minus_spec(own)
        }),
{
    let t = kernels[p].trace_id;
    let own = alignment::trace_start(kernels, annotations, t);
    let common = alignment::common_start(alignment::trace_starts(kernels, annotations, n));
    let of_kernels = alignment::earliest::<T, KernelEvent<T>>(kernels, t, T::largest_spec());
    lemma_earliest_of_all::<T, KernelEvent<T>>(kernels, t, T::largest_spec());
    lemma_earliest_of_all::<T, AnnotationEvent<T>>(annotations, t, of_kernels);
    assert(kernels[p].trace_spec() == t);
    assert(of_kernels.at_most_spec(kernels[p].ts));
    lemma_offset(kernels, annotations, n, t);
    scalar::moves_keep_distances(kernels[p].ts, own, common);
}

/// The same of annotations, whose length is kept too.
pub proof fn normal_mode_moves_annotations_as_a_whole<T: Scalar>(
    kernels: Seq<KernelEvent<T>>,
    annotations: Seq<AnnotationEvent<T>>,
    n: nat,
    p: int,
)
    requires
        scalar::counts_like_reals::<T>(),
        0 <= p < annotations.len(),
        annotations[p].trace_id < n,
    ensures
        ({
            let drawn = alignment::aligned(kernels, annotations, n, AlignMode::Normal);
            let own = alignment::trace_start(kernels, annotations, annotations[p].trace_id);
            let common = alignment::common_start(
                alignment::trace_starts(kernels, annotations, n),
            );
            &&& own.at_most_spec(annotations[p].ts)
            &&& drawn.annotations[p] is Some
            &&& (drawn.annotations[p]->0).0.minus_spec(common) == annotations[p].ts.minus_spec(own)
            &&& (drawn.annotations[p]->0).1.minus_spec((drawn.annotations[p]->0).0)
                == annotations[p].dur
        }),
{
    let t = annotations[p].trace_id;
    let own = alignment::trace_start(kernels, annotations, t);
    let common = alignment::common_start(alignment::trace_starts(kernels, annotations, n));
    let of_kernels = alignment::earliest::<T, KernelEvent<T>>(kernels, t, T::largest_spec());
    lemma_earliest_of_all::<T, AnnotationEvent<T>>(annotations, t, of_kernels);
    assert(annotations[p].trace_spec() == t);
    lemma_offset(kernels, annotations, n, t);
    let ts = annotations[p].ts;
    let dur = annotations[p].dur;
    let off = common.minus_spec(own);
    scalar::moves_keep_distances(ts, own, common);
    scalar::sums_group_freely(ts, dur, off);
    scalar::sums_group_freely(dur, off, dur);
    scalar::sums_group_freely(ts, off, dur);
    assert(ts.plus_spec(dur).plus_spec(off) == ts.plus_spec(off).plus_spec(dur));
    assert(ts.plus_spec(off).plus_spec(dur).minus_spec(ts.plus_spec(off)) == dur);
}

/// For numbers that count like reals, a trace that starts before the largest number has
/// an event at the common start in normal mode, as all such traces have.
pub proof fn every_trace_starts_at_the_common_start<T: Scalar>(
    kernels: Seq<KernelEvent<T>>,
    annotations: Seq<AnnotationEvent<T>>,
    n: nat,
    t: usize,
)
    requires
        scalar::counts_like_reals::<T>(),
        t < n,
        alignment::trace_start(kernels, annotations, t) != T::largest_spec(),
    ensures
        ({
            let drawn = alignment::aligned(kernels, annotations, n, AlignMode::Normal);
            let common = alignment::common_start(
                alignment::trace_starts(kernels, annotations, n),
            );
            ||| exists|p: int|
                0 <= p < kernels.len() && (#[trigger] kernels[p]).trace_id == t
                    && drawn.kernels[p] == Some(common)
            ||| exists|p: int|
                0 <= p < annotations.len() && (#[trigger] annotations[p]).trace_id == t
                    && drawn.annotations[p] is Some && (drawn.annotations[p]->0).0 == common
        }),
{
    let drawn = alignment::aligned(kernels, annotations, n, AlignMode::Normal);
    let common = alignment::common_start(alignment::trace_starts(kernels, annotations, n));
    let own = alignment::trace_start(kernels, annotations, t);
    let of_kernels = alignment::earliest::<T, KernelEvent<T>>(kernels, t, T::largest_spec());
    lemma_earliest_of_all::<T, KernelEvent<T>>(kernels, t, T::largest_spec());
    lemma_earliest_of_all::<T, AnnotationEvent<T>>(annotations, t, of_kernels);
    lemma_offset(kernels, annotations, n, t);
    assert(own.plus_spec(common.minus_spec(own)) == common);
    if own != of_kernels {
        let p = choose|p: int|
            0 <= p < annotations.len() && (#[trigger] annotations[p]).trace_spec() == t
                && annotations[p].start_spec() == own;
        assert(annotations[p].trace_id == t);
        assert(annotations[p].ts == own);
        assert((drawn.annotations[p]->0).0 == common);
    } else {
        let p = choose|p: int|
            0 <= p < kernels.len() && (#[trigger] kernels[p]).trace_spec() == t
                && kernels[p].start_spec() == own;
        assert(kernels[p].trace_id == t);
        assert(kernels[p].ts == own);
        assert(drawn.kernels[p] == Some(common));
    }
}

/// Whether no annotation is drawn with its end before its start.
spec fn ends_follow_starts<T: Scalar>(drawn: Alignment<T>) -> bool {
    forall|p: int|
        0 <= p < drawn.annotations.len() && (#[trigger] drawn.annotations[p]) is Some ==> (
        drawn.annotations[p]->0).0.at_most_spec((drawn.annotations[p]->0).1)
}

proof fn lemma_streams_keep_ends_behind<T: Scalar>(
    normal: Alignment<T>,
    kernels: Seq<KernelEvent<T>>,
    annotations: Seq<AnnotationEvent<T>>,
    offs: Seq<T>,
    streams: Seq<u64>,
)
    requires
        scalar::counts_like_reals::<T>(),
        ends_follow_starts(normal),
    ensures
        ends_follow_starts(
            alignment::streams_aligned(normal, kernels, annotations, offs, streams),
        ),
    decreases streams.len(),
{
    if streams.len() > 0 {
        lemma_streams_keep_ends_behind(normal, kernels, annotations, offs, streams.drop_last());
        assert forall|a: T, b: T| a.at_most_spec(#[trigger] a.larger_spec(b)) by {
            assert(a.at_most_spec(a));
        }
    }
}

/// For numbers that count like reals, annotations are drawn in every mode with their
/// end at or behind their start.
pub proof fn drawn_annotations_end_behind_their_start<T: Scalar>(
    kernels: Seq<KernelEvent<T>>,
    annotations: Seq<AnnotationEvent<T>>,
    n: nat,
    mode: AlignMode,
    p: int,
)
    requires
        scalar::counts_like_reals::<T>(),
        forall|i: int|
            0 <= i < annotations.len() ==> T::whole_spec(0).at_most_spec(
                (#[trigger] annotations[i]).dur,
            ),
        0 <= p < alignment::aligned(kernels, annotations, n, mode).annotations.len(),
        alignment::aligned(kernels, annotations, n, mode).annotations[p] is Some,
    ensures
        ({
            let span = alignment::aligned(kernels, annotations, n, mode).annotations[p]->0;
            span.0.at_most_spec(span.1)
        }),
{
    let offs = alignment::offsets(kernels, annotations, n);
    let normal = alignment::normal_alignment(kernels, annotations, offs);
    assert forall|i: int|
        0 <= i < normal.annotations.len() && (#[trigger] normal.annotations[i]) is Some implies (
    normal.annotations[i]->0).0.at_most_spec((normal.annotations[i]->0).1) by {
        let a = annotations[i];
        let zero = T::whole_spec(0);
        assert(zero.at_most_spec(a.dur));
        assert(a.ts.plus_spec(zero) == a.ts);
        assert(a.ts.plus_spec(zero).at_most_spec(a.ts.plus_spec(a.dur)));
        assert(a.ts.at_most_spec(a.end_spec()));
    }
    assert(ends_follow_starts(normal));
    lemma_streams_keep_ends_behind(
        normal,
        kernels,
        annotations,
        offs,
        alignment::kernel_streams(kernels),
    );
}

} // verus!
