//! Lanes: the rows of the timeline, and how the rows of several traces are
//! laid out one below the other.
use vstd::prelude::*;
use crate::scalar::Scalar;
use crate::sort::{self, add_number, sort_order, Rising};
use crate::trace::{AnnotationEvent, KernelEvent};

verus! {

/// A single navigable row on the timeline. Every lane, whether it holds GPU
/// kernels or user annotations, behaves identically for navigation.
#[derive(Debug, Clone)]
pub enum Lane {
    Kernels { stream_id: u64, trace_id: usize, item_indices: Vec<usize> },
    Annotations { stream_id: u64, trace_id: usize, item_indices: Vec<usize> },
}

/// A lane as plain values.
pub struct LaneView {
    pub annotations: bool,
    pub stream_id: u64,
    pub trace_id: usize,
    pub items: Seq<usize>,
}

impl View for Lane {
    type V = LaneView;

    open spec fn view(&self) -> LaneView {
        match *self {
            Lane::Kernels { stream_id, trace_id, item_indices } => LaneView {
                annotations: false,
                stream_id,
                trace_id,
                items: item_indices@,
            },
            Lane::Annotations { stream_id, trace_id, item_indices } => LaneView {
                annotations: true,
                stream_id,
                trace_id,
                items: item_indices@,
            },
        }
    }
}

impl Lane {
    /// The CUDA stream of the lane.
    pub fn stream_id(&self) -> (r: u64)
        ensures
            r == self@.stream_id,
    {
        match self {
            Lane::Kernels { stream_id, .. } => *stream_id,
            Lane::Annotations { stream_id, .. } => *stream_id,
        }
    }

    /// The trace that the lane belongs to.
    pub fn trace_id(&self) -> (r: usize)
        ensures
            r == self@.trace_id,
    {
        match self {
            Lane::Kernels { trace_id, .. } => *trace_id,
            Lane::Annotations { trace_id, .. } => *trace_id,
        }
    }

    /// The items of the lane, as positions in the list of kernels or of
    /// annotations.
    pub fn item_indices(&self) -> (r: &[usize])
        ensures
            r@ == self@.items,
    {
        match self {
            Lane::Kernels { item_indices, .. } => item_indices.as_slice(),
            Lane::Annotations { item_indices, .. } => item_indices.as_slice(),
        }
    }

    /// Whether the lane holds annotations.
    pub fn is_annotations(&self) -> (r: bool)
        ensures
            r == self@.annotations,
    {
        match self {
            Lane::Annotations { .. } => true,
            Lane::Kernels { .. } => false,
        }
    }

    /// Another lane with the same items.
    pub fn duplicate(&self) -> (r: Lane)
        ensures
            r@ == self@,
    {
        match self {
            Lane::Kernels { stream_id, trace_id, item_indices } => Lane::Kernels {
                stream_id: *stream_id,
                trace_id: *trace_id,
                item_indices: copy_indices(item_indices),
            },
            Lane::Annotations { stream_id, trace_id, item_indices } => Lane::Annotations {
                stream_id: *stream_id,
                trace_id: *trace_id,
                item_indices: copy_indices(item_indices),
            },
        }
    }
}

/// A copy of a list of positions.
fn copy_indices(v: &Vec<usize>) -> (r: Vec<usize>)
    ensures
        r@ == v@,
{
    let mut out: Vec<usize> = Vec::new();
    let mut i: usize = 0;
    while i < v.len()
        invariant
            i <= v@.len(),
            out@ == v@.take(i as int),
        decreases v@.len() - i,
    {
        out.push(v[i]);
        i += 1;
        assert(out@ == v@.take(i as int));
    }
    assert(v@.take(v@.len() as int) == v@);
    out
}

/// Per-trace metadata. Holds only the display label; render positions live in
/// the per-event override lists of the application state.
#[derive(Debug, Clone)]
pub struct TraceMeta {
    pub label: String,
}

/// How exactly two traces are laid out on the shared time axis.
#[derive(Debug, Clone, Copy, PartialEq, Eq, Structural)]
pub enum AlignMode {
    /// Kernel-sequence diff: matched kernels snap onto the anchor trace and
    /// unmatched kernels open inserted gaps.
    Diff,
    /// Every trace zero-based to a common start; internal timing preserved.
    Normal,
}

/// Per-kernel diff classification in two-trace diff mode. Matched kernels carry
/// no status.
#[derive(Debug, Clone, Copy, PartialEq, Eq, Structural)]
pub enum KernelDiff {
    /// Present only in the second trace (a diff insertion).
    Added,
    /// Present only in the anchor trace (a diff deletion).
    Deleted,
}

/// Winning render class for a single terminal column in a kernel lane. When
/// several kernels overlap one column, the highest-ranked class wins so a wide
/// matched (dimmed) block never hides a narrower added or deleted one.
#[derive(Debug, Clone, Copy, PartialEq, Eq, Structural)]
pub enum ColumnClass {
    Selected,
    Deleted,
    Added,
    /// Unchanged kernel: dimmed in diff mode, normal base colour otherwise.
    Matched,
}

impl ColumnClass {
    /// How strongly the class claims a column.
    pub open spec fn rank_spec(self) -> u8 {
        match self {
            ColumnClass::Selected => 4,
            ColumnClass::Deleted => 3,
            ColumnClass::Added => 2,
            ColumnClass::Matched => 1,
        }
    }

    /// How strongly the class claims a column.
    pub fn rank(self) -> (r: u8)
        ensures
            r == self.rank_spec(),
    {
        match self {
            ColumnClass::Selected => 4,
            ColumnClass::Deleted => 3,
            ColumnClass::Added => 2,
            ColumnClass::Matched => 1,
        }
    }
}

/// An event on the timeline: it belongs to a trace and a stream, and starts at
/// a time.
pub trait TimelineEvent<T: Scalar> {
    spec fn trace_spec(&self) -> usize;

    spec fn stream_spec(&self) -> u64;

    spec fn start_spec(&self) -> T;

    /// The trace of the event.
    fn event_trace(&self) -> (r: usize)
        ensures
            r == self.trace_spec(),
    ;

    /// The stream of the event.
    fn event_stream(&self) -> (r: u64)
        ensures
            r == self.stream_spec(),
    ;

    /// The timestamp of the event.
    fn event_start(&self) -> (r: T)
        ensures
            r == self.start_spec(),
    ;
}

impl<T: Scalar> TimelineEvent<T> for KernelEvent<T> {
    open spec fn trace_spec(&self) -> usize {
        self.trace_id
    }

    open spec fn stream_spec(&self) -> u64 {
        self.stream
    }

    open spec fn start_spec(&self) -> T {
        self.ts
    }

    fn event_trace(&self) -> (r: usize) {
        self.trace_id
    }

    fn event_stream(&self) -> (r: u64) {
        self.stream
    }

    fn event_start(&self) -> (r: T) {
        self.ts
    }
}

impl<T: Scalar> TimelineEvent<T> for AnnotationEvent<T> {
    open spec fn trace_spec(&self) -> usize {
        self.trace_id
    }

    open spec fn stream_spec(&self) -> u64 {
        self.stream
    }

    open spec fn start_spec(&self) -> T {
        self.ts
    }

    fn event_trace(&self) -> (r: usize) {
        self.trace_id
    }

    fn event_stream(&self) -> (r: u64) {
        self.stream
    }

    fn event_start(&self) -> (r: T) {
        self.ts
    }
}

/// Whether an event belongs to a trace and a stream.
pub open spec fn event_on<T: Scalar, E: TimelineEvent<T>>(e: E, trace_id: usize, stream: u64) -> bool {
    e.trace_spec() == trace_id && e.stream_spec() == stream
}

/// The positions of the events of one trace on one stream, ascending.
pub open spec fn members<T: Scalar, E: TimelineEvent<T>>(
    events: Seq<E>,
    trace_id: usize,
    stream: u64,
) -> Seq<usize>
    decreases events.len(),
{
    if events.len() == 0 {
        Seq::empty()
    } else if event_on(events.last(), trace_id, stream) {
        members(events.drop_last(), trace_id, stream).push((events.len() - 1) as usize)
    } else {
        members(events.drop_last(), trace_id, stream)
    }
}

/// The sort keys of the events at the given positions: their timestamps.
pub open spec fn start_keys<T: Scalar, E: TimelineEvent<T>>(
    events: Seq<E>,
    at: Seq<usize>,
) -> Seq<Rising<T>> {
    Seq::new(at.len(), |i: int| Rising(events[at[i] as int].start_spec()))
}

/// The positions of the events of one trace on one stream, sorted by timestamp.
pub open spec fn items_on<T: Scalar, E: TimelineEvent<T>>(
    events: Seq<E>,
    trace_id: usize,
    stream: u64,
) -> Seq<usize> {
    let at = members(events, trace_id, stream);
    sort::picked(at, sort::sorted_order(start_keys(events, at)))
}

pub(crate) proof fn lemma_members<T: Scalar, E: TimelineEvent<T>>(
    events: Seq<E>,
    trace_id: usize,
    stream: u64,
)
    requires
        events.len() <= usize::MAX,
    ensures
        members(events, trace_id, stream).len() <= events.len(),
        forall|k: int|
            0 <= k < members(events, trace_id, stream).len() ==> {
                let p = #[trigger] members(events, trace_id, stream)[k];
                p < events.len() && event_on(events[p as int], trace_id, stream)
            },
        forall|k: int, l: int|
            0 <= k < l < members(events, trace_id, stream).len() ==> members(
                events,
                trace_id,
                stream,
            )[k] < members(events, trace_id, stream)[l],
        forall|p: int|
            0 <= p < events.len() && event_on(#[trigger] events[p], trace_id, stream) ==> members(
                events,
                trace_id,
                stream,
            ).contains(p as usize),
    decreases events.len(),
{
    if events.len() > 0 {
        let rest = events.drop_last();
        lemma_members(rest, trace_id, stream);
        let m = members(events, trace_id, stream);
        let t = members(rest, trace_id, stream);
        assert forall|p: int|
            0 <= p < events.len() && event_on(#[trigger] events[p], trace_id, stream) implies m.contains(
            p as usize,
        ) by {
            if p == events.len() - 1 {
                assert(m.last() == p as usize);
                assert(m[m.len() - 1] == p as usize);
            } else {
                assert(rest[p] == events[p]);
                let k = choose|k: int| 0 <= k < t.len() && t[k] == p as usize;
                assert(m[k] == p as usize);
            }
        }
    }
}

/// A lane's items are exactly the events of its trace and stream, each once.
pub proof fn lane_holds_its_events<T: Scalar, E: TimelineEvent<T>>(
    events: Seq<E>,
    trace_id: usize,
    stream: u64,
)
    requires
        events.len() <= usize::MAX,
    ensures
        forall|k: int|
            0 <= k < items_on(events, trace_id, stream).len() ==> {
                let p = #[trigger] items_on(events, trace_id, stream)[k];
                p < events.len() && event_on(events[p as int], trace_id, stream)
            },
        forall|k: int, l: int|
            0 <= k < l < items_on(events, trace_id, stream).len() ==> items_on(
                events,
                trace_id,
                stream,
            )[k] != items_on(events, trace_id, stream)[l],
        forall|p: int|
            0 <= p < events.len() && event_on(#[trigger] events[p], trace_id, stream) ==> items_on(
                events,
                trace_id,
                stream,
            ).contains(p as usize),
{
    let at = members(events, trace_id, stream);
    let keys = start_keys(events, at);
    let order = sort::sorted_order(keys);
    let items = items_on(events, trace_id, stream);
    lemma_members(events, trace_id, stream);
    sort::sorting_rearranges(keys);
    assert forall|k: int| 0 <= k < items.len() implies {
        let p = #[trigger] items[k];
        p < events.len() && event_on(events[p as int], trace_id, stream)
    } by {
        assert(items[k] == at[order[k] as int]);
    }
    assert forall|k: int, l: int| 0 <= k < l < items.len() implies items[k] != items[l] by {
        assert(order[k] != order[l]);
        assert(items[k] == at[order[k] as int]);
        assert(items[l] == at[order[l] as int]);
    }
    assert forall|p: int|
        0 <= p < events.len() && event_on(#[trigger] events[p], trace_id, stream) implies items.contains(
        p as usize,
    ) by {
        let k = choose|k: int| 0 <= k < at.len() && at[k] == p as usize;
        assert(order.contains(k as usize));
        let l = choose|l: int| 0 <= l < order.len() && order[l] == k as usize;
        assert(items[l] == p as usize);
    }
}

/// A lane's items follow each other in time, unless a timestamp cannot be
/// compared.
pub proof fn lane_items_follow_each_other<T: Scalar, E: TimelineEvent<T>>(
    events: Seq<E>,
    trace_id: usize,
    stream: u64,
)
    requires
        events.len() <= usize::MAX,
        sort::orderly(start_keys(events, members(events, trace_id, stream))),
    ensures
        forall|k: int, l: int|
            #![trigger items_on(events, trace_id, stream)[k], items_on(events, trace_id, stream)[l]]
            0 <= k < l < items_on(events, trace_id, stream).len() ==> !events[items_on(
                events,
                trace_id,
                stream,
            )[l] as int].start_spec().less_spec(
                events[items_on(events, trace_id, stream)[k] as int].start_spec(),
            ),
{
    let at = members(events, trace_id, stream);
    let keys = start_keys(events, at);
    let order = sort::sorted_order(keys);
    let items = items_on(events, trace_id, stream);
    lemma_members(events, trace_id, stream);
    sort::sorting_rearranges(keys);
    sort::sorting_is_stable(keys);
    assert forall|k: int, l: int|
        #![trigger items[k], items[l]]
        0 <= k < l < items.len() implies !events[items[l] as int].start_spec().less_spec(
        events[items[k] as int].start_spec(),
    ) by {
        assert(sort::precedes(keys, order[k], order[l]));
        let a = order[k] as int;
        let b = order[l] as int;
        assert(sort::SortKey::before_spec(&keys[a], &keys[b]) ==> !sort::SortKey::before_spec(
            &keys[b],
            &keys[a],
        ));
    }
}

/// The positions of the events of one trace on one stream, sorted by timestamp.
pub fn stream_items<T: Scalar, E: TimelineEvent<T>>(
    events: &[E],
    trace_id: usize,
    stream: u64,
) -> (r: Vec<usize>)
    ensures
        r@ == items_on(events@, trace_id, stream),
{
    let mut at: Vec<usize> = Vec::new();
    let mut keys: Vec<Rising<T>> = Vec::new();
    let mut i: usize = 0;
    while i < events.len()
        invariant
            i <= events@.len(),
            at@ == members(events@.take(i as int), trace_id, stream),
            at@.len() == keys@.len(),
            forall|k: int|
                0 <= k < at@.len() ==> #[trigger] at@[k] < i && keys@[k] == Rising(
                    events@[at@[k] as int].start_spec(),
                ),
        decreases events@.len() - i,
    {
        assert(events@.take(i + 1).drop_last() == events@.take(i as int));
        assert(events@.take(i + 1).last() == events@[i as int]);
        let e = &events[i];
        if e.event_trace() == trace_id && e.event_stream() == stream {
            at.push(i);
            keys.push(Rising(e.event_start()));
        }
        i += 1;
    }
    assert(events@.take(events@.len() as int) == events@);
    assert(keys@ == start_keys(events@, at@));
    let order = sort_order(&keys);
    let mut out: Vec<usize> = Vec::new();
    let mut k: usize = 0;
    while k < order.len()
        invariant
            k <= order@.len() == at@.len(),
            sort::arranges(order@, 0, at@.len() as int),
            out@ == sort::picked(at@, order@).take(k as int),
        decreases order@.len() - k,
    {
        out.push(at[order[k]]);
        k += 1;
        assert(out@ == sort::picked(at@, order@).take(k as int));
    }
    assert(out@ == sort::picked(at@, order@));
    out
}

/// Flat kernel indices of one trace on one stream, sorted by raw timestamp.
pub fn stream_kernel_indices<T: Scalar>(
    kernels: &[KernelEvent<T>],
    trace_id: usize,
    stream: u64,
) -> (r: Vec<usize>)
    ensures
        r@ == items_on::<T, KernelEvent<T>>(kernels@, trace_id, stream),
{
    stream_items::<T, KernelEvent<T>>(kernels, trace_id, stream)
}

/// The streams of the events of one trace, in the order of the events.
pub open spec fn streams_of_trace<T: Scalar, E: TimelineEvent<T>>(
    events: Seq<E>,
    trace_id: usize,
) -> Seq<u64>
    decreases events.len(),
{
    if events.len() == 0 {
        Seq::empty()
    } else if events.last().trace_spec() == trace_id {
        streams_of_trace(events.drop_last(), trace_id).push(events.last().stream_spec())
    } else {
        streams_of_trace(events.drop_last(), trace_id)
    }
}

/// The streams of one trace, ascending, each once.
pub open spec fn lane_streams<T: Scalar>(
    kernels: Seq<KernelEvent<T>>,
    annotations: Seq<AnnotationEvent<T>>,
    trace_id: usize,
) -> Seq<u64> {
    sort::distinct_sorted(
        streams_of_trace::<T, KernelEvent<T>>(kernels, trace_id) + streams_of_trace::<
            T,
            AnnotationEvent<T>,
        >(annotations, trace_id),
    )
}

/// The lanes of one stream of one trace: its annotations above its kernels,
/// each only where there are any.
pub open spec fn lanes_of_stream<T: Scalar>(
    kernels: Seq<KernelEvent<T>>,
    annotations: Seq<AnnotationEvent<T>>,
    trace_id: usize,
    stream: u64,
) -> Seq<LaneView> {
    let above = items_on::<T, AnnotationEvent<T>>(annotations, trace_id, stream);
    let below = items_on::<T, KernelEvent<T>>(kernels, trace_id, stream);
    let upper = if above.len() > 0 {
        seq![LaneView { annotations: true, stream_id: stream, trace_id, items: above }]
    } else {
        Seq::empty()
    };
    let lower = if below.len() > 0 {
        seq![LaneView { annotations: false, stream_id: stream, trace_id, items: below }]
    } else {
        Seq::empty()
    };
    upper + lower
}

/// The lanes of the given streams of one trace, stream after stream.
pub open spec fn lanes_of_streams<T: Scalar>(
    kernels: Seq<KernelEvent<T>>,
    annotations: Seq<AnnotationEvent<T>>,
    trace_id: usize,
    streams: Seq<u64>,
) -> Seq<LaneView>
    decreases streams.len(),
{
    if streams.len() == 0 {
        Seq::empty()
    } else {
        lanes_of_streams(kernels, annotations, trace_id, streams.drop_last()) + lanes_of_stream(
            kernels,
            annotations,
            trace_id,
            streams.last(),
        )
    }
}

/// The lanes of one trace.
pub open spec fn trace_lanes<T: Scalar>(
    kernels: Seq<KernelEvent<T>>,
    annotations: Seq<AnnotationEvent<T>>,
    trace_id: usize,
) -> Seq<LaneView> {
    lanes_of_streams(
        kernels,
        annotations,
        trace_id,
        lane_streams(kernels, annotations, trace_id),
    )
}

/// The views of a list of lanes.
pub open spec fn lane_views(lanes: Seq<Lane>) -> Seq<LaneView> {
    lanes.map_values(|l: Lane| l@)
}

/// Adds the streams of the events of one trace to an ascending list.
fn add_trace_streams<T: Scalar, E: TimelineEvent<T>>(
    list: &mut Vec<u64>,
    Ghost(before): Ghost<Seq<u64>>,
    events: &[E],
    trace_id: usize,
)
    requires
        old(list)@ == sort::distinct_sorted(before),
    ensures
        final(list)@ == sort::distinct_sorted(before + streams_of_trace(events@, trace_id)),
{
    let mut i: usize = 0;
    assert(before + streams_of_trace(events@.take(0), trace_id) == before);
    while i < events.len()
        invariant
            i <= events@.len(),
            list@ == sort::distinct_sorted(
                before + streams_of_trace(events@.take(i as int), trace_id),
            ),
        decreases events@.len() - i,
    {
        assert(events@.take(i + 1).drop_last() == events@.take(i as int));
        assert(events@.take(i + 1).last() == events@[i as int]);
        let e = &events[i];
        if e.event_trace() == trace_id {
            let stream: u64 = e.event_stream();
            proof {
                let all = before + streams_of_trace(events@.take(i + 1), trace_id);
                assert(all.drop_last() == before + streams_of_trace(
                    events@.take(i as int),
                    trace_id,
                ));
                assert(all.last() == stream);
            }
            add_number(list, stream);
        }
        i += 1;
    }
    assert(events@.take(events@.len() as int) == events@);
}

/// Builds the lane list of one trace: for each of that trace's streams, an
/// annotation lane (if any) then a kernel lane (if any). Item indices point into
/// the shared flat lists and are sorted by timestamp.
pub fn build_trace_lanes<T: Scalar>(
    kernels: &[KernelEvent<T>],
    annotations: &[AnnotationEvent<T>],
    trace_id: usize,
) -> (r: Vec<Lane>)
    ensures
        lane_views(r@) == trace_lanes(kernels@, annotations@, trace_id),
{
    let mut streams: Vec<u64> = Vec::new();
    add_trace_streams::<T, KernelEvent<T>>(
        &mut streams,
        Ghost(Seq::empty()),
        kernels,
        trace_id,
    );
    assert(Seq::<u64>::empty() + streams_of_trace::<T, KernelEvent<T>>(kernels@, trace_id)
        == streams_of_trace::<T, KernelEvent<T>>(kernels@, trace_id));
    add_trace_streams::<T, AnnotationEvent<T>>(
        &mut streams,
        Ghost(streams_of_trace::<T, KernelEvent<T>>(kernels@, trace_id)),
        annotations,
        trace_id,
    );
    let mut lanes: Vec<Lane> = Vec::new();
    let mut i: usize = 0;
    assert(lane_views(lanes@) == lanes_of_streams(
        kernels@,
        annotations@,
        trace_id,
        streams@.take(0),
    ));
    while i < streams.len()
        invariant
            i <= streams@.len(),
            lane_views(lanes@) == lanes_of_streams(
                kernels@,
                annotations@,
                trace_id,
                streams@.take(i as int),
            ),
        decreases streams@.len() - i,
    {
        let stream_id: u64 = streams[i];
        let ghost start = lane_views(lanes@);
        assert(streams@.take(i + 1).drop_last() == streams@.take(i as int));
        assert(streams@.take(i + 1).last() == stream_id);
        let ann = stream_items::<T, AnnotationEvent<T>>(annotations, trace_id, stream_id);
        let ghost upper = if ann@.len() > 0 {
            seq![LaneView { annotations: true, stream_id, trace_id, items: ann@ }]
        } else {
            Seq::empty()
        };
        if ann.len() > 0 {
            lanes.push(Lane::Annotations { stream_id, trace_id, item_indices: ann });
        }
        assert(lane_views(lanes@) == start + upper);
        let kern = stream_items::<T, KernelEvent<T>>(kernels, trace_id, stream_id);
        let ghost lower = if kern@.len() > 0 {
            seq![LaneView { annotations: false, stream_id, trace_id, items: kern@ }]
        } else {
            Seq::empty()
        };
        if kern.len() > 0 {
            lanes.push(Lane::Kernels { stream_id, trace_id, item_indices: kern });
        }
        assert(lane_views(lanes@) == start + (upper + lower));
        i += 1;
    }
    assert(streams@.take(streams@.len() as int) == streams@);
    lanes
}

/// Row `row` of the first `n` traces, in the order of the traces; a trace
/// without that row is skipped.
pub open spec fn lane_row(per_trace: Seq<Seq<LaneView>>, row: int, n: int) -> Seq<LaneView>
    decreases n,
{
    if n <= 0 {
        Seq::empty()
    } else if row < per_trace[n - 1].len() {
        lane_row(per_trace, row, n - 1).push(per_trace[n - 1][row])
    } else {
        lane_row(per_trace, row, n - 1)
    }
}

/// The first `rows` rows of all traces, row after row.
pub open spec fn lane_rows(per_trace: Seq<Seq<LaneView>>, rows: int) -> Seq<LaneView>
    decreases rows,
{
    if rows <= 0 {
        Seq::empty()
    } else {
        lane_rows(per_trace, rows - 1) + lane_row(per_trace, rows - 1, per_trace.len() as int)
    }
}

/// The largest number of lanes that a trace has.
pub open spec fn most_lanes(per_trace: Seq<Seq<LaneView>>) -> int
    decreases per_trace.len(),
{
    if per_trace.len() == 0 {
        0
    } else {
        let rest = most_lanes(per_trace.drop_last());
        if per_trace.last().len() > rest {
            per_trace.last().len() as int
        } else {
            rest
        }
    }
}

/// The lanes of several traces, interleaved row by row; a single empty kernel
/// lane where there is none.
pub open spec fn interleaved(per_trace: Seq<Seq<LaneView>>) -> Seq<LaneView> {
    let rows = lane_rows(per_trace, most_lanes(per_trace));
    if rows.len() == 0 {
        seq![
            LaneView { annotations: false, stream_id: 0, trace_id: 0, items: Seq::empty() },
        ]
    } else {
        rows
    }
}

/// The views of the lanes of several traces.
pub open spec fn per_trace_views(per_trace: Seq<Vec<Lane>>) -> Seq<Seq<LaneView>> {
    per_trace.map_values(|l: Vec<Lane>| lane_views(l@))
}

/// Interleaves per-trace lane lists round-robin by lane index: row 0 of every
/// trace, then row 1 of every trace, and so on. Traces that lack a given row are
/// skipped, so unequal lane counts collapse gracefully.
pub fn interleave_lanes(per_trace: Vec<Vec<Lane>>) -> (r: Vec<Lane>)
    ensures
        lane_views(r@) == interleaved(per_trace_views(per_trace@)),
        r@.len() > 0,
{
    let ghost views = per_trace_views(per_trace@);
    let mut max_len: usize = 0;
    let mut t: usize = 0;
    assert(most_lanes(views.take(0)) == 0);
    while t < per_trace.len()
        invariant
            t <= per_trace@.len(),
            views == per_trace_views(per_trace@),
            max_len == most_lanes(views.take(t as int)),
        decreases per_trace@.len() - t,
    {
        assert(views.take(t + 1).drop_last() == views.take(t as int));
        assert(views.take(t + 1).last() == lane_views(per_trace@[t as int]@));
        if per_trace[t].len() > max_len {
            max_len = per_trace[t].len();
        }
        t += 1;
    }
    assert(views.take(views.len() as int) == views);
    let mut lanes: Vec<Lane> = Vec::new();
    let mut row: usize = 0;
    assert(lane_views(lanes@) == lane_rows(views, 0));
    while row < max_len
        invariant
            row <= max_len,
            views == per_trace_views(per_trace@),
            lane_views(lanes@) == lane_rows(views, row as int),
        decreases max_len - row,
    {
        let ghost start = lane_views(lanes@);
        let mut n: usize = 0;
        assert(start + lane_row(views, row as int, 0) == start);
        while n < per_trace.len()
            invariant
                n <= per_trace@.len(),
                views == per_trace_views(per_trace@),
                lane_views(lanes@) == start + lane_row(views, row as int, n as int),
            decreases per_trace@.len() - n,
        {
            assert(views[n as int] == lane_views(per_trace@[n as int]@));
            if row < per_trace[n].len() {
                let lane = per_trace[n][row].duplicate();
                assert(views[n as int][row as int] == lane@);
                let ghost before = lane_views(lanes@);
                lanes.push(lane);
                assert(lane_views(lanes@) == before.push(lane@));
            }
            n += 1;
            assert(lane_views(lanes@) == start + lane_row(views, row as int, n as int));
        }
        row += 1;
    }
    if lanes.len() == 0 {
        assert(lane_views(lanes@).len() == 0);
        lanes.push(Lane::Kernels { stream_id: 0, trace_id: 0, item_indices: Vec::new() });
        assert(lane_views(lanes@) == interleaved(views));
    }
    lanes
}

} // verus!
