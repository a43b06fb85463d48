//! Opening traces: the events of the viewer, its lanes and their order.
use vstd::prelude::*;
use crate::app::{self, App};
use crate::lane::{self, LaneView, TimelineEvent};
use crate::laws::loading::lemma_orderly;
use crate::scalar::{self, Scalar};
use crate::sort;
use crate::trace::{AnnotationEvent, KernelEvent, Trace};

verus! {

/// The number of kernels in the first `t` traces.
pub open spec fn kernels_before<T>(labelled: Seq<(String, Trace<T>)>, t: int) -> int
    decreases t,
{
    if t <= 0 {
        0
    } else {
        kernels_before(labelled, t - 1) + labelled[t - 1].1.kernels@.len()
    }
}

/// The number of annotations in the first `t` traces.
pub open spec fn annotations_before<T>(labelled: Seq<(String, Trace<T>)>, t: int) -> int
    decreases t,
{
    if t <= 0 {
        0
    } else {
        annotations_before(labelled, t - 1) + labelled[t - 1].1.annotations@.len()
    }
}

proof fn lemma_counts_of_prefix<T>(labelled: Seq<(String, Trace<T>)>, t: int)
    requires
        0 <= t < labelled.len(),
    ensures
        kernels_before(labelled.drop_last(), t) == kernels_before(labelled, t),
        annotations_before(labelled.drop_last(), t) == annotations_before(labelled, t),
    decreases t,
{
    if t > 0 {
        lemma_counts_of_prefix(labelled, t - 1);
    }
}

/// An opened viewer holds all events of all traces: those of each trace in their order,
/// trace after trace, unchanged but for the number of their trace.
pub proof fn an_opened_viewer_holds_all_events<T>(
    labelled: Seq<(String, Trace<T>)>,
    t: int,
    i: int,
)
    requires
        0 <= t < labelled.len() <= usize::MAX,
    ensures
        ({
            let kernels = app::all_kernels(labelled);
            let annotations = app::all_annotations(labelled);
            let own = labelled[t].1;
            &&& kernels.len() == kernels_before(labelled, labelled.len() as int)
            &&& annotations.len() == annotations_before(labelled, labelled.len() as int)
            &&& 0 <= kernels_before(labelled, t)
            &&& kernels_before(labelled, t) + own.kernels@.len() <= kernels.len()
            &&& 0 <= annotations_before(labelled, t)
            &&& annotations_before(labelled, t) + own.annotations@.len() <= annotations.len()
            &&& 0 <= i < own.kernels@.len() ==> kernels[kernels_before(labelled, t) + i] == (
            KernelEvent { trace_id: t as usize, ..own.kernels@[i] })
            &&& 0 <= i < own.annotations@.len() ==> annotations[annotations_before(labelled, t) + i]
                == (AnnotationEvent { trace_id: t as usize, ..own.annotations@[i] })
        }),
    decreases labelled.len(),
{
    let rest = labelled.drop_last();
    let n = labelled.len() as int;
    lemma_counts_of_prefix(labelled, n - 1);
    if n > 1 {
        an_opened_viewer_holds_all_events(rest, 0, 0);
    } else {
        assert(app::all_kernels(rest).len() == 0);
        assert(app::all_annotations(rest).len() == 0);
    }
    if t < n - 1 {
        an_opened_viewer_holds_all_events(rest, t, i);
        lemma_counts_of_prefix(labelled, t);
        assert(rest[t] == labelled[t]);
    }
}

/// Whether lane `a` comes above lane `b` of the same trace: on a lower stream, or as the
/// annotations of the same stream.
pub open spec fn lies_above(a: LaneView, b: LaneView) -> bool {
    a.stream_id < b.stream_id || (a.stream_id == b.stream_id && a.annotations && !b.annotations)
}

proof fn lemma_lanes_in_order<T: Scalar>(
    kernels: Seq<KernelEvent<T>>,
    annotations: Seq<AnnotationEvent<T>>,
    trace_id: usize,
    streams: Seq<u64>,
)
    requires
        sort::ascending(streams),
    ensures
        ({
            let lanes = lane::lanes_of_streams(kernels, annotations, trace_id, streams);
            &&& forall|i: int|
                0 <= i < lanes.len() ==> streams.contains((#[trigger] lanes[i]).stream_id)
                    && lanes[i].trace_id == trace_id && lanes[i].items.len() > 0
            &&& forall|i: int, j: int|
                #![trigger lanes[i], lanes[j]]
                0 <= i < j < lanes.len() ==> lies_above(lanes[i], lanes[j])
        }),
    decreases streams.len(),
{
    if streams.len() > 0 {
        let rest = streams.drop_last();
        let stream = streams.last();
        lemma_lanes_in_order(kernels, annotations, trace_id, rest);
        let before = lane::lanes_of_streams(kernels, annotations, trace_id, rest);
        let own = lane::lanes_of_stream(kernels, annotations, trace_id, stream);
        let lanes = lane::lanes_of_streams(kernels, annotations, trace_id, streams);
        assert(lanes == before + own);
        assert(streams[streams.len() - 1] == stream);
        assert forall|i: int| 0 <= i < lanes.len() implies streams.contains(
            (#[trigger] lanes[i]).stream_id,
        ) && lanes[i].trace_id == trace_id && lanes[i].items.len() > 0 by {
            if i < before.len() {
                assert(lanes[i] == before[i]);
                let k = choose|k: int| 0 <= k < rest.len() && rest[k] == before[i].stream_id;
                assert(streams[k] == before[i].stream_id);
            } else {
                assert(lanes[i] == own[i - before.len()]);
            }
        }
        assert forall|i: int, j: int|
            #![trigger lanes[i], lanes[j]]
            0 <= i < j < lanes.len() implies lies_above(lanes[i], lanes[j]) by {
            if i < before.len() {
                assert(lanes[i] == before[i]);
                if j < before.len() {
                    assert(lanes[j] == before[j]);
                } else {
                    assert(lanes[j] == own[j - before.len()]);
                    let k = choose|k: int| 0 <= k < rest.len() && rest[k] == before[i].stream_id;
                    assert(streams[k] < streams[streams.len() - 1]);
                }
            } else {
                assert(lanes[i] == own[i - before.len()]);
                assert(lanes[j] == own[j - before.len()]);
            }
        }
    }
}

/// The lanes of a trace come by ascending streams, the annotations of a stream directly
/// above its kernels, and none is empty.
pub proof fn lanes_of_a_trace_come_by_stream<T: Scalar>(
    kernels: Seq<KernelEvent<T>>,
    annotations: Seq<AnnotationEvent<T>>,
    trace_id: usize,
)
    ensures
        ({
            let lanes = lane::trace_lanes(kernels, annotations, trace_id);
            &&& forall|i: int|
                0 <= i < lanes.len() ==> (#[trigger] lanes[i]).trace_id == trace_id
                    && lanes[i].items.len() > 0
            &&& forall|i: int, j: int|
                #![trigger lanes[i], lanes[j]]
                0 <= i < j < lanes.len() ==> lies_above(lanes[i], lanes[j])
        }),
{
    let streams = lane::lane_streams(kernels, annotations, trace_id);
    sort::distinct_sorted_is_ascending(
        lane::streams_of_trace::<T, KernelEvent<T>>(kernels, trace_id) + lane::streams_of_trace::<
            T,
            AnnotationEvent<T>,
        >(annotations, trace_id),
    );
    lemma_lanes_in_order(kernels, annotations, trace_id, streams);
}

/// Whether the items of a lane are the events of its trace on its stream, each once, in
/// time, and those of the same time in their order.
pub open spec fn holds_in_time<T: Scalar, E: TimelineEvent<T>>(
    events: Seq<E>,
    trace_id: usize,
    stream: u64,
    items: Seq<usize>,
) -> bool {
    &&& forall|k: int|
        0 <= k < items.len() ==> (#[trigger] items[k]) < events.len() && events[
            items[k] as int
        ].trace_spec() == trace_id && events[items[k] as int].stream_spec() == stream
    &&& forall|k: int, l: int|
        #![trigger items[k], items[l]]
        0 <= k < l < items.len() ==> items[k] != items[l] && events[
            items[k] as int
        ].start_spec().at_most_spec(events[items[l] as int].start_spec()) && (events[
            items[k] as int
        ].start_spec() == events[items[l] as int].start_spec() ==> items[k] < items[l])
    &&& forall|p: int|
        0 <= p < events.len() && (#[trigger] events[p]).trace_spec() == trace_id
            && events[p].stream_spec() == stream ==> items.contains(p as usize)
}

/// For ordered numbers the items of a lane are exactly the events of its trace on its
/// stream, in time.
pub proof fn lanes_hold_their_events_in_time<T: Scalar, E: TimelineEvent<T>>(
    events: Seq<E>,
    trace_id: usize,
    stream: u64,
)
    requires
        scalar::ordered_totally::<T>(),
        events.len() <= usize::MAX,
    ensures
        holds_in_time::<T, E>(
            events,
            trace_id,
            stream,
            lane::items_on::<T, E>(events, trace_id, stream),
        ),
{
    let items = lane::items_on::<T, E>(events, trace_id, stream);
    let at = lane::members::<T, E>(events, trace_id, stream);
    let keys = lane::start_keys::<T, E>(events, at);
    let order = sort::sorted_order(keys);
    lane::lane_holds_its_events::<T, E>(events, trace_id, stream);
    lane::lemma_members::<T, E>(events, trace_id, stream);
    lemma_orderly(keys);
    sort::sorting_rearranges(keys);
    sort::sorting_is_stable(keys);
    assert forall|k: int| 0 <= k < items.len() implies (#[trigger] items[k]) < events.len()
        && events[items[k] as int].trace_spec() == trace_id && events[
        items[k] as int
    ].stream_spec() == stream by {
        assert(lane::event_on::<T, E>(events[items[k] as int], trace_id, stream));
    }
    assert forall|k: int, l: int|
        #![trigger items[k], items[l]]
        0 <= k < l < items.len() implies items[k] != items[l] && events[
        items[k] as int
    ].start_spec().at_most_spec(events[items[l] as int].start_spec()) && (events[
        items[k] as int
    ].start_spec() == events[items[l] as int].start_spec() ==> items[k] < items[l]) by {
        let a = order[k] as int;
        let b = order[l] as int;
        assert(order[k] != order[l]);
        assert(sort::precedes(keys, order[k], order[l]));
        assert(items[k] == at[a] && items[l] == at[b]);
        let s = events[items[k] as int].start_spec();
        let u = events[items[l] as int].start_spec();
        assert(keys[a].0 == s && keys[b].0 == u);
        assert(u.at_most_spec(u));
        if sort::SortKey::before_spec(&keys[a], &keys[b]) {
            assert(s.less_spec(u));
            assert(s.at_most_spec(u));
            assert(s != u);
        } else {
            assert(order[k] < order[l]);
            assert(!sort::SortKey::before_spec(&keys[b], &keys[a]));
            assert(!u.less_spec(s));
        }
    }
    assert forall|p: int|
        0 <= p < events.len() && (#[trigger] events[p]).trace_spec() == trace_id
            && events[p].stream_spec() == stream implies items.contains(p as usize) by {
        assert(lane::event_on::<T, E>(events[p], trace_id, stream));
    }
}

/// Whether `from[i]` says which row of which trace lane `i` is.
spec fn tells_rows(
    lanes: Seq<LaneView>,
    per_trace: Seq<Seq<LaneView>>,
    from: Seq<(int, int)>,
) -> bool {
    &&& from.len() == lanes.len()
    &&& forall|i: int|
        0 <= i < from.len() ==> 0 <= (#[trigger] from[i]).1 < per_trace.len() && 0 <= from[i].0
            < per_trace[from[i].1].len() && lanes[i] == per_trace[from[i].1][from[i].0]
    &&& forall|i: int, j: int|
        #![trigger from[i], from[j]]
        0 <= i < j < from.len() ==> from[i].0 < from[j].0 || (from[i].0 == from[j].0 && from[i].1
            < from[j].1)
}

proof fn lemma_row(per_trace: Seq<Seq<LaneView>>, row: int, n: int) -> (from: Seq<(int, int)>)
    requires
        0 <= row,
        0 <= n <= per_trace.len(),
    ensures
        tells_rows(lane::lane_row(per_trace, row, n), per_trace, from),
        forall|i: int| 0 <= i < from.len() ==> (#[trigger] from[i]).0 == row && from[i].1 < n,
        forall|t: int|
            0 <= t < n && row < (#[trigger] per_trace[t]).len() ==> from.contains((row, t)),
    decreases n,
{
    if n == 0 {
        Seq::empty()
    } else {
        let before = lemma_row(per_trace, row, n - 1);
        if row < per_trace[n - 1].len() {
            let from = before.push((row, n - 1));
            assert forall|t: int|
                0 <= t < n && row < (#[trigger] per_trace[t]).len() implies from.contains(
                (row, t),
            ) by {
                if t == n - 1 {
                    assert(from[from.len() - 1] == (row, t));
                } else {
                    let i = choose|i: int| 0 <= i < before.len() && before[i] == (row, t);
                    assert(from[i] == (row, t));
                }
            }
            from
        } else {
            before
        }
    }
}

proof fn lemma_rows(per_trace: Seq<Seq<LaneView>>, rows: int) -> (from: Seq<(int, int)>)
    requires
        0 <= rows,
    ensures
        tells_rows(lane::lane_rows(per_trace, rows), per_trace, from),
        forall|i: int| 0 <= i < from.len() ==> (#[trigger] from[i]).0 < rows,
        forall|row: int, t: int|
            0 <= t < per_trace.len() && 0 <= row < rows && row < per_trace[t].len()
                ==> #[trigger] from.contains((row, t)),
    decreases rows,
{
    if rows == 0 {
        Seq::empty()
    } else {
        let before = lemma_rows(per_trace, rows - 1);
        let last = lemma_row(per_trace, rows - 1, per_trace.len() as int);
        let from = before + last;
        let lanes = lane::lane_rows(per_trace, rows);
        let above = lane::lane_rows(per_trace, rows - 1);
        let own = lane::lane_row(per_trace, rows - 1, per_trace.len() as int);
        assert(lanes == above + own);
        assert forall|i: int| 0 <= i < from.len() implies 0 <= (#[trigger] from[i]).1
            < per_trace.len() && 0 <= from[i].0 < per_trace[from[i].1].len() && lanes[i]
            == per_trace[from[i].1][from[i].0] && from[i].0 < rows by {
            if i < before.len() {
                assert(from[i] == before[i]);
            } else {
                assert(from[i] == last[i - before.len()]);
            }
        }
        assert forall|i: int, j: int|
            #![trigger from[i], from[j]]
            0 <= i < j < from.len() implies from[i].0 < from[j].0 || (from[i].0 == from[j].0
            && from[i].1 < from[j].1) by {
            if j < before.len() {
                assert(from[i] == before[i] && from[j] == before[j]);
            } else {
                assert(from[j] == last[j - before.len()]);
                if i < before.len() {
                    assert(from[i] == before[i]);
                } else {
                    assert(from[i] == last[i - before.len()]);
                }
            }
        }
        assert forall|row: int, t: int|
            0 <= t < per_trace.len() && 0 <= row < rows && row
                < per_trace[t].len() implies #[trigger] from.contains((row, t)) by {
            if row < rows - 1 {
                assert(before.contains((row, t)));
                let i = choose|i: int| 0 <= i < before.len() && before[i] == (row, t);
                assert(from[i] == (row, t));
            } else {
                assert(last.contains((row, t)));
                let i = choose|i: int| 0 <= i < last.len() && last[i] == (row, t);
                assert(from[before.len() + i] == (row, t));
            }
        }
        from
    }
}

proof fn lemma_most_rows(per_trace: Seq<Seq<LaneView>>, t: int)
    ensures
        0 <= lane::most_lanes(per_trace),
        0 <= t < per_trace.len() ==> per_trace[t].len() <= lane::most_lanes(per_trace),
    decreases per_trace.len(),
{
    if per_trace.len() > 0 {
        lemma_most_rows(per_trace.drop_last(), t);
    }
}

/// The lanes of several traces are shown row by row, the traces in their order within a
/// row: each lane of each trace once, and nothing else.
pub proof fn lanes_of_several_traces_alternate(per_trace: Seq<Seq<LaneView>>) -> (from: Seq<
    (int, int),
>)
    requires
        exists|t: int| 0 <= t < per_trace.len() && (#[trigger] per_trace[t]).len() > 0,
    ensures
        ({
            let shown = lane::interleaved(per_trace);
            &&& from.len() == shown.len()
            &&& forall|i: int|
                0 <= i < from.len() ==> 0 <= (#[trigger] from[i]).1 < per_trace.len() && 0
                    <= from[i].0 < per_trace[from[i].1].len() && shown[i]
                    == per_trace[from[i].1][from[i].0]
            &&& forall|i: int, j: int|
                #![trigger from[i], from[j]]
                0 <= i < j < from.len() ==> from[i].0 < from[j].0 || (from[i].0 == from[j].0
                    && from[i].1 < from[j].1)
            &&& forall|row: int, t: int|
                    0 <= t < per_trace.len() && 0 <= row < per_trace[t].len()
                    ==> #[trigger] from.contains((row, t))
        }),
{
    let most = lane::most_lanes(per_trace);
    lemma_most_rows(per_trace, 0);
    let from = lemma_rows(per_trace, most);
    assert forall|row: int, t: int|
        0 <= t < per_trace.len() && 0 <= row < per_trace[t].len() implies #[trigger] from.contains(
        (row, t),
    ) by {
        lemma_most_rows(per_trace, t);
    }
    let t = choose|t: int| 0 <= t < per_trace.len() && (#[trigger] per_trace[t]).len() > 0;
    assert(from.contains((0, t)));
    from
}

/// A viewer opens on the first item of its first kernel lane, unzoomed, in diff mode, and
/// with nothing searched for or shown on top.
pub proof fn a_viewer_opens_on_its_first_kernel<T: Scalar>(
    app: App<T>,
    labelled: Seq<(String, Trace<T>)>,
)
    requires
        app.opens(labelled),
    ensures
        (exists|i: int| 0 <= i < app.lanes@.len() && !(#[trigger] app.lanes@[i])@.annotations)
            ==> app.active_lane < app.lanes@.len() && !app.lanes@[app.active_lane as int]@.annotations
            && forall|i: int|
            0 <= i < app.active_lane ==> (#[trigger] app.lanes@[i])@.annotations,
        app.selected_item == 0,
        app.zoom_level == T::whole_spec(1),
        labelled.len() > 0 ==> app.traces@.len() == labelled.len() && forall|t: int|
            0 <= t < labelled.len() ==> (#[trigger] app.traces@[t]).label@ == labelled[t].0@,
{
    let views = lane::lane_views(app.lanes@);
    lemma_first_kernel_lane(views, 0);
    assert forall|i: int| 0 <= i < views.len() implies #[trigger] views[i] == app.lanes@[i]@ by {}
    if exists|i: int| 0 <= i < app.lanes@.len() && !(#[trigger] app.lanes@[i])@.annotations {
        let i = choose|i: int| 0 <= i < app.lanes@.len() && !(#[trigger] app.lanes@[i])@.annotations;
        assert(!views[i].annotations);
        assert forall|i: int| 0 <= i < app.active_lane implies (
        #[trigger] app.lanes@[i])@.annotations by {
            assert(views[i].annotations);
        }
        assert(views[app.active_lane as int] == app.lanes@[app.active_lane as int]@);
    }
    if labelled.len() > 0 {
        assert(app.labels().len() == labelled.len());
        assert forall|t: int| 0 <= t < labelled.len() implies (
        #[trigger] app.traces@[t]).label@ == labelled[t].0@ by {
            assert(app.labels()[t] == app.traces@[t].label@);
            assert(app::all_labels(labelled)[t] == labelled[t].0@);
        }
    }
}

proof fn lemma_first_kernel_lane(lanes: Seq<LaneView>, i: int)
    requires
        0 <= i <= lanes.len(),
    ensures
        ({
            let first = app::first_kernel_lane(lanes, i);
            (exists|k: int| i <= k < lanes.len() && !(#[trigger] lanes[k]).annotations) ==> i
                <= first < lanes.len() && !lanes[first].annotations && forall|k: int|
                i <= k < first ==> (#[trigger] lanes[k]).annotations
        }),
    decreases lanes.len() - i,
{
    if i < lanes.len() && lanes[i].annotations {
        lemma_first_kernel_lane(lanes, i + 1);
        if exists|k: int| i <= k < lanes.len() && !(#[trigger] lanes[k]).annotations {
            let k = choose|k: int| i <= k < lanes.len() && !(#[trigger] lanes[k]).annotations;
            assert(i + 1 <= k);
        }
    }
}

} // verus!
