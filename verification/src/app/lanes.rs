//! What the lanes of the viewer hold.
use vstd::prelude::*;
use crate::app::{self, App};
use crate::lane::{self, LaneView, TimelineEvent};
use crate::scalar::Scalar;
use crate::sort;
use crate::trace::{AnnotationEvent, KernelEvent, Trace};

verus! {

proof fn lemma_row_holds(per_trace: Seq<Seq<LaneView>>, row: int, n: int, t: int)
    requires
        0 <= t < n <= per_trace.len(),
        0 <= row < per_trace[t].len(),
    ensures
        lane::lane_row(per_trace, row, n).contains(per_trace[t][row]),
    decreases n,
{
    let whole = lane::lane_row(per_trace, row, n);
    if t == n - 1 {
        assert(whole.last() == per_trace[t][row]);
    } else {
        lemma_row_holds(per_trace, row, n - 1, t);
        let rest = lane::lane_row(per_trace, row, n - 1);
        let i = choose|i: int| 0 <= i < rest.len() && rest[i] == per_trace[t][row];
        assert(whole[i] == rest[i]);
    }
}

proof fn lemma_rows_hold(per_trace: Seq<Seq<LaneView>>, rows: int, t: int, row: int)
    requires
        0 <= t < per_trace.len(),
        0 <= row < per_trace[t].len(),
        row < rows,
    ensures
        lane::lane_rows(per_trace, rows).contains(per_trace[t][row]),
    decreases rows,
{
    let n = per_trace.len() as int;
    let above = lane::lane_rows(per_trace, rows - 1);
    let last = lane::lane_row(per_trace, rows - 1, n);
    let whole = lane::lane_rows(per_trace, rows);
    assert(whole == above + last);
    if row == rows - 1 {
        lemma_row_holds(per_trace, row, n, t);
        let i = choose|i: int| 0 <= i < last.len() && last[i] == per_trace[t][row];
        assert(whole[above.len() + i] == last[i]);
    } else {
        lemma_rows_hold(per_trace, rows - 1, t, row);
        let i = choose|i: int| 0 <= i < above.len() && above[i] == per_trace[t][row];
        assert(whole[i] == above[i]);
    }
}

proof fn lemma_most_lanes(per_trace: Seq<Seq<LaneView>>, t: int)
    requires
        0 <= t < per_trace.len(),
    ensures
        per_trace[t].len() <= lane::most_lanes(per_trace),
    decreases per_trace.len(),
{
    if t < per_trace.len() - 1 {
        lemma_most_lanes(per_trace.drop_last(), t);
    }
}

/// Interleaving loses no lane.
pub proof fn every_lane_is_shown(per_trace: Seq<Seq<LaneView>>, t: int, row: int)
    requires
        0 <= t < per_trace.len(),
        0 <= row < per_trace[t].len(),
    ensures
        lane::interleaved(per_trace).contains(per_trace[t][row]),
{
    lemma_most_lanes(per_trace, t);
    lemma_rows_hold(per_trace, lane::most_lanes(per_trace), t, row);
}

/// Whether a lane is one of those of a trace.
pub open spec fn lane_of(per_trace: Seq<Seq<LaneView>>, view: LaneView, t: int) -> bool {
    0 <= t < per_trace.len() && per_trace[t].contains(view)
}

proof fn lemma_row_comes_from(per_trace: Seq<Seq<LaneView>>, row: int, n: int, i: int)
    requires
        0 <= row,
        0 <= n <= per_trace.len(),
        0 <= i < lane::lane_row(per_trace, row, n).len(),
    ensures
        exists|t: int| #[trigger] lane_of(per_trace, lane::lane_row(per_trace, row, n)[i], t),
    decreases n,
{
    let whole = lane::lane_row(per_trace, row, n);
    let rest = lane::lane_row(per_trace, row, n - 1);
    if row < per_trace[n - 1].len() && i == whole.len() - 1 {
        assert(whole[i] == per_trace[n - 1][row]);
        assert(lane_of(per_trace, whole[i], n - 1));
    } else {
        lemma_row_comes_from(per_trace, row, n - 1, i);
        assert(whole[i] == rest[i]);
    }
}

proof fn lemma_rows_come_from(per_trace: Seq<Seq<LaneView>>, rows: int, i: int)
    requires
        0 <= i < lane::lane_rows(per_trace, rows).len(),
    ensures
        exists|t: int| #[trigger] lane_of(per_trace, lane::lane_rows(per_trace, rows)[i], t),
    decreases rows,
{
    let n = per_trace.len() as int;
    let above = lane::lane_rows(per_trace, rows - 1);
    let last = lane::lane_row(per_trace, rows - 1, n);
    let whole = lane::lane_rows(per_trace, rows);
    assert(whole == above + last);
    if i < above.len() {
        lemma_rows_come_from(per_trace, rows - 1, i);
        assert(whole[i] == above[i]);
    } else {
        lemma_row_comes_from(per_trace, rows - 1, n, i - above.len());
        assert(whole[i] == last[i - above.len()]);
    }
}

/// Interleaving invents no lane, but for the empty one that stands where there is
/// none at all.
pub proof fn every_shown_lane_belongs_to_a_trace(per_trace: Seq<Seq<LaneView>>, i: int)
    requires
        0 <= i < lane::interleaved(per_trace).len(),
    ensures
        ({
            let view = lane::interleaved(per_trace)[i];
            ||| exists|t: int| #[trigger] lane_of(per_trace, view, t)
            ||| view == (LaneView {
                annotations: false,
                stream_id: 0,
                trace_id: 0,
                items: Seq::empty(),
            })
        }),
{
    let rows = lane::lane_rows(per_trace, lane::most_lanes(per_trace));
    if rows.len() > 0 {
        lemma_rows_come_from(per_trace, lane::most_lanes(per_trace), i);
    }
}

/// Whether the items of a lane are events of its trace on its stream.
pub open spec fn holds_its_events<T: Scalar>(
    kernels: Seq<KernelEvent<T>>,
    annotations: Seq<AnnotationEvent<T>>,
    view: LaneView,
) -> bool {
    if view.annotations {
        view.items == lane::items_on::<T, AnnotationEvent<T>>(
            annotations,
            view.trace_id,
            view.stream_id,
        )
    } else {
        view.items == lane::items_on::<T, KernelEvent<T>>(kernels, view.trace_id, view.stream_id)
    }
}

proof fn lemma_stream_lanes<T: Scalar>(
    kernels: Seq<KernelEvent<T>>,
    annotations: Seq<AnnotationEvent<T>>,
    trace_id: usize,
    streams: Seq<u64>,
    i: int,
)
    requires
        0 <= i < lane::lanes_of_streams(kernels, annotations, trace_id, streams).len(),
    ensures
        ({
            let view = lane::lanes_of_streams(kernels, annotations, trace_id, streams)[i];
            view.trace_id == trace_id && holds_its_events(kernels, annotations, view)
        }),
    decreases streams.len(),
{
    let rest = lane::lanes_of_streams(kernels, annotations, trace_id, streams.drop_last());
    let own = lane::lanes_of_stream(kernels, annotations, trace_id, streams.last());
    let whole = lane::lanes_of_streams(kernels, annotations, trace_id, streams);
    assert(whole == rest + own);
    if i < rest.len() {
        lemma_stream_lanes(kernels, annotations, trace_id, streams.drop_last(), i);
        assert(whole[i] == rest[i]);
    } else {
        assert(whole[i] == own[i - rest.len()]);
    }
}

/// The lanes of every trace.
pub open spec fn lanes_by_trace<T: Scalar>(
    kernels: Seq<KernelEvent<T>>,
    annotations: Seq<AnnotationEvent<T>>,
    n: nat,
) -> Seq<Seq<LaneView>> {
    Seq::new(n, |t: int| lane::trace_lanes(kernels, annotations, t as usize))
}

/// Every lane of an opened viewer belongs to an open trace, and its items are
/// events of that trace; only a viewer without any event has a lane that stands
/// for nothing.
pub proof fn lanes_of_an_opened_viewer_are_sound<T: Scalar>(
    app: App<T>,
    labelled: Seq<(String, Trace<T>)>,
    i: usize,
)
    requires
        app.opens(labelled),
        app.kernels@.len() <= usize::MAX,
        app.annotations@.len() <= usize::MAX,
        app.traces@.len() <= usize::MAX,
        i < app.lanes@.len(),
    ensures
        app.lane_is_sound(i),
        app.lanes@[i as int]@.items.len() > 0 ==> app.lanes@[i as int]@.trace_id
            < app.traces@.len(),
{
    let n = app.traces@.len();
    let per_trace = lanes_by_trace(app.kernels@, app.annotations@, n);
    let views = lane::lane_views(app.lanes@);
    let view = app.lanes@[i as int]@;
    assert(views == lane::interleaved(per_trace));
    assert(views[i as int] == view);
    every_shown_lane_belongs_to_a_trace(per_trace, i as int);
    if exists|t: int| #[trigger] lane_of(per_trace, view, t) {
        let t = choose|t: int| #[trigger] lane_of(per_trace, view, t);
        let own = per_trace[t];
        let k = choose|k: int| 0 <= k < own.len() && own[k] == view;
        lemma_stream_lanes(
            app.kernels@,
            app.annotations@,
            t as usize,
            lane::lane_streams(app.kernels@, app.annotations@, t as usize),
            k,
        );
        lane::lane_holds_its_events::<T, KernelEvent<T>>(
            app.kernels@,
            view.trace_id,
            view.stream_id,
        );
        lane::lane_holds_its_events::<T, AnnotationEvent<T>>(
            app.annotations@,
            view.trace_id,
            view.stream_id,
        );
    }
}

proof fn lemma_stream_is_listed<T: Scalar, E: TimelineEvent<T>>(
    events: Seq<E>,
    trace_id: usize,
    p: int,
)
    requires
        0 <= p < events.len(),
        events[p].trace_spec() == trace_id,
    ensures
        lane::streams_of_trace::<T, E>(events, trace_id).contains(events[p].stream_spec()),
    decreases events.len(),
{
    let whole = lane::streams_of_trace::<T, E>(events, trace_id);
    let rest = lane::streams_of_trace::<T, E>(events.drop_last(), trace_id);
    if p == events.len() - 1 {
        assert(whole.last() == events[p].stream_spec());
    } else {
        lemma_stream_is_listed::<T, E>(events.drop_last(), trace_id, p);
        let i = choose|i: int| 0 <= i < rest.len() && rest[i] == events[p].stream_spec();
        assert(whole[i] == rest[i]);
    }
}

proof fn lemma_streams_hold<T: Scalar>(
    kernels: Seq<KernelEvent<T>>,
    annotations: Seq<AnnotationEvent<T>>,
    trace_id: usize,
    streams: Seq<u64>,
    stream: u64,
    view: LaneView,
)
    requires
        streams.contains(stream),
        lane::lanes_of_stream(kernels, annotations, trace_id, stream).contains(view),
    ensures
        lane::lanes_of_streams(kernels, annotations, trace_id, streams).contains(view),
    decreases streams.len(),
{
    let rest = lane::lanes_of_streams(kernels, annotations, trace_id, streams.drop_last());
    let own = lane::lanes_of_stream(kernels, annotations, trace_id, streams.last());
    let whole = lane::lanes_of_streams(kernels, annotations, trace_id, streams);
    assert(whole == rest + own);
    if streams.last() == stream {
        let i = choose|i: int| 0 <= i < own.len() && own[i] == view;
        assert(whole[rest.len() + i] == view);
    } else {
        let k = choose|k: int| 0 <= k < streams.len() && streams[k] == stream;
        assert(streams.drop_last()[k] == stream);
        lemma_streams_hold(
            kernels,
            annotations,
            trace_id,
            streams.drop_last(),
            stream,
            view,
        );
        let i = choose|i: int| 0 <= i < rest.len() && rest[i] == view;
        assert(whole[i] == view);
    }
}

/// Every kernel of an open trace stands in a kernel lane of its stream.
pub proof fn every_kernel_has_a_lane<T: Scalar>(
    kernels: Seq<KernelEvent<T>>,
    annotations: Seq<AnnotationEvent<T>>,
    n: nat,
    p: int,
)
    requires
        kernels.len() <= usize::MAX,
        0 <= p < kernels.len(),
        kernels[p].trace_id < n,
    ensures
        exists|view: LaneView| #[trigger]
            app::all_lanes(kernels, annotations, n).contains(view) && !view.annotations
                && view.stream_id == kernels[p].stream && view.trace_id == kernels[p].trace_id
                && view.items.contains(p as usize),
{
    let t = kernels[p].trace_id;
    let stream = kernels[p].stream;
    let per_trace = lanes_by_trace(kernels, annotations, n);
    let items = lane::items_on::<T, KernelEvent<T>>(kernels, t, stream);
    let view = LaneView { annotations: false, stream_id: stream, trace_id: t, items };
    lane::lane_holds_its_events::<T, KernelEvent<T>>(kernels, t, stream);
    assert(lane::event_on::<T, KernelEvent<T>>(kernels[p], t, stream));
    assert(items.contains(p as usize));
    let own = lane::lanes_of_stream(kernels, annotations, t, stream);
    assert(own.last() == view);
    assert(own.contains(view));
    lemma_stream_is_listed::<T, KernelEvent<T>>(kernels, t, p);
    let of_kernels = lane::streams_of_trace::<T, KernelEvent<T>>(kernels, t);
    let both = of_kernels + lane::streams_of_trace::<T, AnnotationEvent<T>>(annotations, t);
    let i = choose|i: int| 0 <= i < of_kernels.len() && of_kernels[i] == stream;
    assert(both[i] == stream);
    sort::distinct_sorted_is_ascending(both);
    assert(lane::lane_streams(kernels, annotations, t).contains(stream));
    lemma_streams_hold(
        kernels,
        annotations,
        t,
        lane::lane_streams(kernels, annotations, t),
        stream,
        view,
    );
    let row = choose|row: int| 0 <= row < per_trace[t as int].len() && per_trace[t as int][row] == view;
    every_lane_is_shown(per_trace, t as int, row);
    assert(app::all_lanes(kernels, annotations, n) == lane::interleaved(per_trace));
    assert(app::all_lanes(kernels, annotations, n).contains(view));
}

/// Every annotation of an open trace stands in an annotation lane of its stream.
pub proof fn every_annotation_has_a_lane<T: Scalar>(
    kernels: Seq<KernelEvent<T>>,
    annotations: Seq<AnnotationEvent<T>>,
    n: nat,
    p: int,
)
    requires
        annotations.len() <= usize::MAX,
        0 <= p < annotations.len(),
        annotations[p].trace_id < n,
    ensures
        exists|view: LaneView| #[trigger]
            app::all_lanes(kernels, annotations, n).contains(view) && view.annotations
                && view.stream_id == annotations[p].stream && view.trace_id
                == annotations[p].trace_id && view.items.contains(p as usize),
{
    let t = annotations[p].trace_id;
    let stream = annotations[p].stream;
    let per_trace = lanes_by_trace(kernels, annotations, n);
    let items = lane::items_on::<T, AnnotationEvent<T>>(annotations, t, stream);
    let view = LaneView { annotations: true, stream_id: stream, trace_id: t, items };
    lane::lane_holds_its_events::<T, AnnotationEvent<T>>(annotations, t, stream);
    assert(lane::event_on::<T, AnnotationEvent<T>>(annotations[p], t, stream));
    assert(items.contains(p as usize));
    let own = lane::lanes_of_stream(kernels, annotations, t, stream);
    assert(own[0] == view);
    assert(own.contains(view));
    lemma_stream_is_listed::<T, AnnotationEvent<T>>(annotations, t, p);
    let of_kernels = lane::streams_of_trace::<T, KernelEvent<T>>(kernels, t);
    let of_annotations = lane::streams_of_trace::<T, AnnotationEvent<T>>(annotations, t);
    let both = of_kernels + of_annotations;
    let i = choose|i: int| 0 <= i < of_annotations.len() && of_annotations[i] == stream;
    assert(both[of_kernels.len() + i] == stream);
    sort::distinct_sorted_is_ascending(both);
    assert(lane::lane_streams(kernels, annotations, t).contains(stream));
    lemma_streams_hold(
        kernels,
        annotations,
        t,
        lane::lane_streams(kernels, annotations, t),
        stream,
        view,
    );
    let row = choose|row: int| 0 <= row < per_trace[t as int].len() && per_trace[t as int][row] == view;
    every_lane_is_shown(per_trace, t as int, row);
    assert(app::all_lanes(kernels, annotations, n) == lane::interleaved(per_trace));
    assert(app::all_lanes(kernels, annotations, n).contains(view));
}

} // verus!
