//! The state of the viewer: the open traces, what is selected, and where
//! everything is drawn.
use vstd::prelude::*;
use crate::labels::shorten_labels;
use crate::lane::{
    self, build_trace_lanes, interleave_lanes, AlignMode, KernelDiff, Lane, LaneView, TimelineEvent,
    TraceMeta,
};
use crate::scalar::Scalar;
use crate::sort::{self, add_number};
use crate::text::owned;
use crate::trace::{AnnotationEvent, KernelEvent, Trace};

pub mod alignment;
pub mod columns;
pub mod export;
pub mod lanes;
pub mod navigation;
pub mod search;
pub mod sequence;
pub mod timing;

verus! {

/// The currently selected item in the active lane, either a kernel or an
/// annotation.
#[derive(Debug, Clone, Copy)]
pub enum SelectedTraceItem<'a, T> {
    Kernel(&'a KernelEvent<T>),
    Annotation(&'a AnnotationEvent<T>),
}

/// Kernels from the current one up to (exclusive) the next same-named kernel in
/// the lane. `median` holds the per-position median duration across repeated
/// blocks.
#[derive(Debug, Clone)]
pub struct Sequence<T> {
    pub rows: Vec<(usize, String, T)>,
    pub median: Option<Vec<(String, T)>>,
    pub reps_found: usize,
    pub source_lane: usize,
    pub source_start: usize,
    pub scroll: usize,
}

/// Screen geometry of the last-rendered lane area, recorded by the UI so mouse
/// clicks can be reverse-mapped to a lane and an item. All fields are in
/// terminal cell coordinates except the time window.
#[derive(Debug, Clone, Copy)]
pub struct LaneLayout<T> {
    /// Top-left of the lane block interior (inside the border).
    pub inner_x: u16,
    pub inner_y: u16,
    /// Interior height in rows (one lane per row).
    pub inner_h: u16,
    /// Width of the label gutter (label text plus the separator).
    pub label_width: u16,
    /// Width of the timeline area to the right of the gutter.
    pub lane_width: u16,
    /// First lane index shown at `inner_y` (mirrors `lane_view_offset`).
    pub view_offset: usize,
    /// Aligned time window mapped across `lane_width`.
    pub ts_start: T,
    pub time_span: T,
}

/// A lane area that has not been drawn: everything is zero.
pub open spec fn no_layout<T: Scalar>() -> LaneLayout<T> {
    LaneLayout {
        inner_x: 0,
        inner_y: 0,
        inner_h: 0,
        label_width: 0,
        lane_width: 0,
        view_offset: 0,
        ts_start: T::whole_spec(0),
        time_span: T::whole_spec(0),
    }
}

impl<T: Scalar> Default for LaneLayout<T> {
    fn default() -> (r: Self)
        ensures
            r == no_layout::<T>(),
    {
        LaneLayout {
            inner_x: 0,
            inner_y: 0,
            inner_h: 0,
            label_width: 0,
            lane_width: 0,
            view_offset: 0,
            ts_start: T::whole(0),
            time_span: T::whole(0),
        }
    }
}

/// The state of the viewer.
#[derive(Debug, Clone)]
pub struct App<T> {
    pub kernels: Vec<KernelEvent<T>>,
    pub annotations: Vec<AnnotationEvent<T>>,
    pub streams: Vec<u64>,
    pub lanes: Vec<Lane>,
    pub traces: Vec<TraceMeta>,
    pub align_mode: AlignMode,
    pub active_lane: usize,
    pub selected_item: usize,
    pub zoom_level: T,
    pub lane_view_offset: usize,
    pub search_active: bool,
    pub search_query: String,
    pub search_no_match: bool,
    /// All items matching the current query as `(lane_idx, item_pos)`, ordered by
    /// lane then position; cycled by `search_next` / `search_prev`.
    pub search_matches: Vec<(usize, usize)>,
    /// Index into `search_matches` of the currently selected match.
    pub search_match_idx: usize,
    pub sequence: Option<Sequence<T>>,
    pub sequence_status: Option<String>,
    /// Transient one-line status shown in the header (e.g. after a CSV export),
    /// cleared on the next key press.
    pub status: Option<String>,
    /// Absolute render-start per kernel (by flat index), always populated by
    /// `recompute_alignment`.
    pub kernel_render_overrides: Vec<Option<T>>,
    /// Absolute (start, end) render span per annotation (by flat index), always
    /// populated by `recompute_alignment`.
    pub annotation_render_overrides: Vec<Option<(T, T)>>,
    /// Per-kernel diff status (by flat index) in two-trace diff mode; `None` for
    /// matched kernels and in every non-diff layout.
    pub kernel_diff_status: Vec<Option<KernelDiff>>,
    /// Screen geometry of the last-rendered lane area, for mouse hit-testing.
    pub lane_layout: LaneLayout<T>,
}

impl<T: Scalar> App<T> {
    /// Whether every event belongs to an open trace and has its entry in the
    /// lists of render positions.
    pub open spec fn consistent(&self) -> bool {
        &&& self.kernel_render_overrides@.len() == self.kernels@.len()
        &&& self.annotation_render_overrides@.len() == self.annotations@.len()
        &&& self.kernel_diff_status@.len() == self.kernels@.len()
        &&& alignment::in_traces::<T, KernelEvent<T>>(self.kernels@, self.traces@.len())
        &&& alignment::in_traces::<T, AnnotationEvent<T>>(self.annotations@, self.traces@.len())
    }

    /// The active lane, where there is one.
    pub open spec fn active(&self) -> Option<LaneView> {
        if self.active_lane < self.lanes@.len() {
            Some(self.lanes@[self.active_lane as int]@)
        } else {
            None
        }
    }

    /// The number of items in the active lane.
    pub open spec fn active_len(&self) -> nat {
        match self.active() {
            Some(lane) => lane.items.len(),
            None => 0,
        }
    }

    /// The flat index of the selected item, where one is selected.
    pub open spec fn selected_index(&self) -> Option<usize> {
        match self.active() {
            Some(lane) => if self.selected_item < lane.items.len() {
                Some(lane.items[self.selected_item as int])
            } else {
                None
            },
            None => None,
        }
    }

    /// The selection `item`, moved back onto the last item of the active lane
    /// where it lies behind it.
    pub open spec fn clamped(&self, item: usize) -> usize {
        if self.active_len() == 0 {
            0
        } else if item >= self.active_len() {
            (self.active_len() - 1) as usize
        } else {
            item
        }
    }

    /// Where kernel `idx` starts on the shared axis: its override, or its own
    /// timestamp.
    pub open spec fn kernel_start(&self, idx: int) -> T {
        if idx < self.kernel_render_overrides@.len() && self.kernel_render_overrides@[idx] is Some {
            self.kernel_render_overrides@[idx]->0
        } else if idx < self.kernels@.len() {
            self.kernels@[idx].ts
        } else {
            T::whole_spec(0)
        }
    }

    /// Where kernel `idx` ends on the shared axis.
    pub open spec fn kernel_end(&self, idx: int) -> T {
        self.kernel_start(idx).plus_spec(
            if idx < self.kernels@.len() {
                self.kernels@[idx].dur
            } else {
                T::whole_spec(0)
            },
        )
    }

    /// Where annotation `idx` starts on the shared axis.
    pub open spec fn annotation_start(&self, idx: int) -> T {
        if idx < self.annotation_render_overrides@.len()
            && self.annotation_render_overrides@[idx] is Some {
            (self.annotation_render_overrides@[idx]->0).0
        } else if idx < self.annotations@.len() {
            self.annotations@[idx].ts
        } else {
            T::whole_spec(0)
        }
    }

    /// Where annotation `idx` ends on the shared axis.
    pub open spec fn annotation_end(&self, idx: int) -> T {
        if idx < self.annotation_render_overrides@.len()
            && self.annotation_render_overrides@[idx] is Some {
            (self.annotation_render_overrides@[idx]->0).1
        } else if idx < self.annotations@.len() {
            self.annotations@[idx].end_spec()
        } else {
            T::whole_spec(0)
        }
    }

    /// The span of an item on the shared axis.
    pub open spec fn item_span(&self, annotation: bool, idx: int) -> (T, T) {
        if annotation {
            (self.annotation_start(idx), self.annotation_end(idx))
        } else {
            (self.kernel_start(idx), self.kernel_end(idx))
        }
    }

    /// The diff status of kernel `idx`.
    pub open spec fn diff_of(&self, idx: int) -> Option<KernelDiff> {
        if idx < self.kernel_diff_status@.len() {
            self.kernel_diff_status@[idx]
        } else {
            None
        }
    }

    /// Moves the selection back into the active lane.
    pub fn clamp_selected_item(&mut self)
        ensures
            *final(self) == (App { selected_item: old(self).clamped(old(self).selected_item), ..*old(self) }),
    {
        let len: usize = self.active_lane_len();
        if len == 0 {
            self.selected_item = 0;
        } else if self.selected_item >= len {
            self.selected_item = len - 1;
        }
    }

    /// The number of items in the active lane.
    pub fn active_lane_len(&self) -> (r: usize)
        ensures
            r == self.active_len(),
    {
        if self.active_lane < self.lanes.len() {
            self.lanes[self.active_lane].item_indices().len()
        } else {
            0
        }
    }

    /// Stream id of the active lane (used for the header and label); the first
    /// stream where there is no active lane.
    pub fn active_stream(&self) -> (r: u64)
        ensures
            r == match self.active() {
                Some(lane) => lane.stream_id,
                None => if self.streams@.len() > 0 {
                    self.streams@[0]
                } else {
                    0
                },
            },
    {
        if self.active_lane < self.lanes.len() {
            self.lanes[self.active_lane].stream_id()
        } else if self.streams.len() > 0 {
            self.streams[0]
        } else {
            0
        }
    }

    /// Whether the active lane holds annotations.
    pub fn active_lane_is_annotations(&self) -> (r: bool)
        ensures
            r == match self.active() {
                Some(lane) => lane.annotations,
                None => false,
            },
    {
        if self.active_lane < self.lanes.len() {
            self.lanes[self.active_lane].is_annotations()
        } else {
            false
        }
    }

    /// Absolute render-start of kernel `idx` on the shared axis.
    pub fn kernel_render_ts(&self, idx: usize) -> (r: T)
        ensures
            r == self.kernel_start(idx as int),
    {
        if idx < self.kernel_render_overrides.len() {
            if let Some(ts) = self.kernel_render_overrides[idx] {
                return ts;
            }
        }
        if idx < self.kernels.len() {
            self.kernels[idx].ts
        } else {
            T::whole(0)
        }
    }

    /// Absolute render-end of kernel `idx` on the shared axis.
    pub fn kernel_render_end(&self, idx: usize) -> (r: T)
        ensures
            r == self.kernel_end(idx as int),
    {
        let dur = if idx < self.kernels.len() {
            self.kernels[idx].dur
        } else {
            T::whole(0)
        };
        self.kernel_render_ts(idx).plus(dur)
    }

    /// Absolute render-start of annotation `idx` on the shared axis.
    pub fn annotation_render_ts(&self, idx: usize) -> (r: T)
        ensures
            r == self.annotation_start(idx as int),
    {
        if idx < self.annotation_render_overrides.len() {
            if let Some((start, _)) = self.annotation_render_overrides[idx] {
                return start;
            }
        }
        if idx < self.annotations.len() {
            self.annotations[idx].ts
        } else {
            T::whole(0)
        }
    }

    /// Absolute render-end of annotation `idx` on the shared axis.
    pub fn annotation_render_end(&self, idx: usize) -> (r: T)
        ensures
            r == self.annotation_end(idx as int),
    {
        if idx < self.annotation_render_overrides.len() {
            if let Some((_, end)) = self.annotation_render_overrides[idx] {
                return end;
            }
        }
        if idx < self.annotations.len() {
            self.annotations[idx].end_ts()
        } else {
            T::whole(0)
        }
    }

    /// Diff status of kernel `idx`: `Some(Added|Deleted)` only for unmatched
    /// kernels in two-trace diff mode, `None` otherwise.
    pub fn kernel_diff(&self, idx: usize) -> (r: Option<KernelDiff>)
        ensures
            r == self.diff_of(idx as int),
    {
        if idx < self.kernel_diff_status.len() {
            self.kernel_diff_status[idx]
        } else {
            None
        }
    }

    /// Header label for the current alignment mode when exactly two traces are
    /// open (`"diff"` / `"normal"`), or `None` otherwise.
    pub fn mode_label(&self) -> (r: Option<String>)
        ensures
            match r {
                Some(s) => self.traces@.len() == 2 && s@ == match self.align_mode {
                    AlignMode::Diff => "diff"@,
                    AlignMode::Normal => "normal"@,
                },
                None => self.traces@.len() != 2,
            },
    {
        if self.traces.len() != 2 {
            return None;
        }
        match self.align_mode {
            AlignMode::Diff => Some(owned("diff")),
            AlignMode::Normal => Some(owned("normal")),
        }
    }

    /// The labels of the open traces.
    pub open spec fn labels(&self) -> Seq<Seq<char>> {
        self.traces@.map_values(|t: TraceMeta| t.label@)
    }

    /// Per-trace display labels shortened to their differing part (common prefix
    /// and suffix stripped), for compact lane labels.
    pub fn trace_display_labels(&self) -> (r: Vec<String>)
        ensures
            r@.len() == self.traces@.len(),
            forall|i: int|
                0 <= i < r@.len() ==> (#[trigger] r@[i])@ == crate::labels::short_label(
                    self.labels(),
                    i,
                ),
    {
        let mut labels: Vec<String> = Vec::new();
        let mut i: usize = 0;
        while i < self.traces.len()
            invariant
                i <= self.traces@.len(),
                labels@.len() == i,
                forall|j: int| 0 <= j < i ==> (#[trigger] labels@[j])@ == self.labels()[j],
            decreases self.traces@.len() - i,
        {
            labels.push(self.traces[i].label.clone());
            i += 1;
        }
        assert(crate::labels::label_views(labels@) == self.labels());
        shorten_labels(labels.as_slice())
    }

    /// The item that is selected in the active lane.
    pub fn selected_trace_item(&self) -> (r: Option<SelectedTraceItem<'_, T>>)
        ensures
            match self.selected_index() {
                None => r is None,
                Some(idx) => if self.active()->0.annotations {
                    if idx < self.annotations@.len() {
                        r == Some(SelectedTraceItem::Annotation(&self.annotations@[idx as int]))
                    } else {
                        r is None
                    }
                } else {
                    if idx < self.kernels@.len() {
                        r == Some(SelectedTraceItem::Kernel(&self.kernels@[idx as int]))
                    } else {
                        r is None
                    }
                },
            },
    {
        if self.active_lane >= self.lanes.len() {
            return None;
        }
        let lane = &self.lanes[self.active_lane];
        let items = lane.item_indices();
        if self.selected_item >= items.len() {
            return None;
        }
        let idx: usize = items[self.selected_item];
        if lane.is_annotations() {
            if idx < self.annotations.len() {
                Some(SelectedTraceItem::Annotation(&self.annotations[idx]))
            } else {
                None
            }
        } else if idx < self.kernels.len() {
            Some(SelectedTraceItem::Kernel(&self.kernels[idx]))
        } else {
            None
        }
    }
}

/// A kernel as an event of trace `trace_id`.
pub open spec fn stamped_kernel<T>(k: KernelEvent<T>, trace_id: usize) -> KernelEvent<T> {
    KernelEvent { trace_id, ..k }
}

/// An annotation as an event of trace `trace_id`.
pub open spec fn stamped_annotation<T>(a: AnnotationEvent<T>, trace_id: usize) -> AnnotationEvent<
    T,
> {
    AnnotationEvent { trace_id, ..a }
}

/// The kernels of all traces, trace after trace, each stamped with the index of
/// its trace.
pub open spec fn all_kernels<T>(labelled: Seq<(String, Trace<T>)>) -> Seq<KernelEvent<T>>
    decreases labelled.len(),
{
    if labelled.len() == 0 {
        Seq::empty()
    } else {
        let id = (labelled.len() - 1) as usize;
        all_kernels(labelled.drop_last()) + labelled.last().1.kernels@.map_values(
            |k: KernelEvent<T>| stamped_kernel(k, id),
        )
    }
}

/// The annotations of all traces, trace after trace, each stamped with the index
/// of its trace.
pub open spec fn all_annotations<T>(labelled: Seq<(String, Trace<T>)>) -> Seq<AnnotationEvent<T>>
    decreases labelled.len(),
{
    if labelled.len() == 0 {
        Seq::empty()
    } else {
        let id = (labelled.len() - 1) as usize;
        all_annotations(labelled.drop_last()) + labelled.last().1.annotations@.map_values(
            |a: AnnotationEvent<T>| stamped_annotation(a, id),
        )
    }
}

/// The labels of all traces; `T0` where there is no trace.
pub open spec fn all_labels<T>(labelled: Seq<(String, Trace<T>)>) -> Seq<Seq<char>> {
    if labelled.len() == 0 {
        seq!["T0"@]
    } else {
        labelled.map_values(|l: (String, Trace<T>)| l.0@)
    }
}

/// The streams of all events, ascending; stream 0 where there is no event.
pub open spec fn all_streams<T: Scalar>(
    kernels: Seq<KernelEvent<T>>,
    annotations: Seq<AnnotationEvent<T>>,
) -> Seq<u64> {
    let streams = sort::distinct_sorted(
        alignment::streams_of::<T, KernelEvent<T>>(kernels) + alignment::streams_of::<
            T,
            AnnotationEvent<T>,
        >(annotations),
    );
    if streams.len() == 0 {
        seq![0u64]
    } else {
        streams
    }
}

/// The lanes of all traces, interleaved.
pub open spec fn all_lanes<T: Scalar>(
    kernels: Seq<KernelEvent<T>>,
    annotations: Seq<AnnotationEvent<T>>,
    trace_count: nat,
) -> Seq<LaneView> {
    lane::interleaved(
        Seq::new(trace_count, |t: int| lane::trace_lanes(kernels, annotations, t as usize)),
    )
}

/// The first lane from the `i`-th on that holds kernels; the first lane of all
/// where there is none.
pub open spec fn first_kernel_lane(lanes: Seq<LaneView>, i: int) -> int
    decreases lanes.len() - i,
{
    if i < 0 || i >= lanes.len() {
        0
    } else if !lanes[i].annotations {
        i
    } else {
        first_kernel_lane(lanes, i + 1)
    }
}

/// Adds the streams of events to an ascending list.
fn add_streams<T: Scalar, E: TimelineEvent<T>>(
    list: &mut Vec<u64>,
    Ghost(before): Ghost<Seq<u64>>,
    events: &Vec<E>,
)
    requires
        old(list)@ == sort::distinct_sorted(before),
    ensures
        final(list)@ == sort::distinct_sorted(before + alignment::streams_of::<T, E>(events@)),
{
    let mut i: usize = 0;
    assert(before + alignment::streams_of::<T, E>(events@.take(0)) == before);
    while i < events.len()
        invariant
            i <= events@.len(),
            list@ == sort::distinct_sorted(
                before + alignment::streams_of::<T, E>(events@.take(i as int)),
            ),
        decreases events@.len() - i,
    {
        let stream: u64 = events[i].event_stream();
        proof {
            let all = before + alignment::streams_of::<T, E>(events@.take(i + 1));
            assert(all.drop_last() == before + alignment::streams_of::<T, E>(
                events@.take(i as int),
            ));
            assert(all.last() == stream);
        }
        add_number(list, stream);
        i += 1;
    }
    assert(events@.take(events@.len() as int) == events@);
}

/// `n` times no entry.
fn no_entries<V>(n: usize) -> (r: Vec<Option<V>>)
    ensures
        r@.len() == n,
{
    let mut out: Vec<Option<V>> = Vec::new();
    let mut i: usize = 0;
    while i < n
        invariant
            i <= n,
            out@.len() == i,
        decreases n - i,
    {
        out.push(None);
        i += 1;
    }
    out
}

proof fn lemma_all_in_traces<T: Scalar>(labelled: Seq<(String, Trace<T>)>)
    requires
        labelled.len() <= usize::MAX,
    ensures
        alignment::in_traces::<T, KernelEvent<T>>(all_kernels(labelled), labelled.len()),
        alignment::in_traces::<T, AnnotationEvent<T>>(all_annotations(labelled), labelled.len()),
    decreases labelled.len(),
{
    if labelled.len() > 0 {
        let rest = labelled.drop_last();
        lemma_all_in_traces(rest);
        let ks = all_kernels(labelled);
        let rest_ks = all_kernels(rest);
        assert forall|i: int| 0 <= i < ks.len() implies (#[trigger] ks[i]).trace_spec()
            < labelled.len() by {
            if i < rest_ks.len() {
                assert(ks[i] == rest_ks[i]);
                assert(rest_ks[i].trace_spec() < rest.len());
            }
        }
        let ans = all_annotations(labelled);
        let rest_ans = all_annotations(rest);
        assert forall|i: int| 0 <= i < ans.len() implies (#[trigger] ans[i]).trace_spec()
            < labelled.len() by {
            if i < rest_ans.len() {
                assert(ans[i] == rest_ans[i]);
                assert(rest_ans[i].trace_spec() < rest.len());
            }
        }
    }
}

impl<T: Scalar> App<T> {
    /// Whether this is the state in which the viewer opens on the given traces.
    pub open spec fn opens(&self, labelled: Seq<(String, Trace<T>)>) -> bool {
        &&& self.consistent()
        &&& self.kernels@ == all_kernels(labelled)
        &&& self.annotations@ == all_annotations(labelled)
        &&& self.labels() == all_labels(labelled)
        &&& self.streams@ == all_streams(self.kernels@, self.annotations@)
        &&& lane::lane_views(self.lanes@) == all_lanes(
            self.kernels@,
            self.annotations@,
            self.traces@.len(),
        )
        &&& self.align_mode == AlignMode::Diff
        &&& self.alignment() == self.alignment_in(AlignMode::Diff)
        &&& self.active_lane == first_kernel_lane(lane::lane_views(self.lanes@), 0)
        &&& self.selected_item == 0
        &&& self.zoom_level == T::whole_spec(1)
        &&& self.lane_view_offset == 0
        &&& !self.search_active
        &&& self.search_query@.len() == 0
        &&& !self.search_no_match
        &&& self.search_matches@.len() == 0
        &&& self.search_match_idx == 0
        &&& self.sequence is None
        &&& self.sequence_status is None
        &&& self.status is None
        &&& self.lane_layout == no_layout::<T>()
    }

    /// The state in which the viewer opens on a single trace.
    pub fn new(trace: Trace<T>) -> (r: Self)
        ensures
            exists|label: String|
                label@ == "T0"@ && r.opens(#[trigger] seq![(label, trace)]),
    {
        let label = owned("T0");
        let ghost l = label;
        let mut labelled: Vec<(String, Trace<T>)> = Vec::new();
        labelled.push((label, trace));
        assert(labelled@ == seq![(l, trace)]);
        App::new_multi(labelled)
    }

    /// The state in which the viewer opens on one or more labelled traces. Each
    /// trace's events are stamped with its trace index, lanes are interleaved
    /// round-robin, and render positions are those of `recompute_alignment`
    /// (default: diff mode for exactly two traces, normal zero-base otherwise).
    /// The first kernel lane is active, so that the current selection is a
    /// kernel.
    pub fn new_multi(labelled: Vec<(String, Trace<T>)>) -> (r: Self)
        ensures
            r.opens(labelled@),
            labelled@.len() == 2 ==> alignment::scripts_sound(r.kernels@),
    {
        let ghost all = labelled@;
        let mut kernels: Vec<KernelEvent<T>> = Vec::new();
        let mut annotations: Vec<AnnotationEvent<T>> = Vec::new();
        let mut traces: Vec<TraceMeta> = Vec::new();
        let count: usize = labelled.len();
        let mut trace_id: usize = 0;
        for entry in it: labelled
            invariant
                it.seq() == all,
                all.len() == count,
                trace_id == it.index(),
                kernels@ == all_kernels(all.take(it.index())),
                annotations@ == all_annotations(all.take(it.index())),
                traces@.len() == it.index(),
                forall|t: int| 0 <= t < it.index() ==> (#[trigger] traces@[t]).label@ == all[t].0@,
        {
            let ghost at = it.index();
            let ghost ks = kernels@;
            let ghost ans = annotations@;
            let (label, trace) = entry;
            let ghost own = trace;
            assert(all.take(at + 1).drop_last() == all.take(at));
            assert(all.take(at + 1).last() == (label, trace));
            traces.push(TraceMeta { label });
            let Trace { kernels: own_kernels, annotations: own_annotations } = trace;
            let ghost stamp_k = |k: KernelEvent<T>| stamped_kernel(k, trace_id);
            for k in kit: own_kernels
                invariant
                    kit.seq() == own.kernels@,
                    stamp_k == (|k: KernelEvent<T>| stamped_kernel(k, trace_id)),
                    kernels@ == ks + own.kernels@.map_values(stamp_k).take(kit.index()),
            {
                let mut k = k;
                k.trace_id = trace_id;
                assert(own.kernels@.map_values(stamp_k).take(kit.index() + 1)
                    == own.kernels@.map_values(stamp_k).take(kit.index()).push(k));
                kernels.push(k);
            }
            assert(kernels@ == ks + own.kernels@.map_values(stamp_k)) by {
                assert(own.kernels@.map_values(stamp_k).take(own.kernels@.len() as int)
                    == own.kernels@.map_values(stamp_k));
            }
            let ghost stamp_a = |a: AnnotationEvent<T>| stamped_annotation(a, trace_id);
            for a in ait: own_annotations
                invariant
                    ait.seq() == own.annotations@,
                    stamp_a == (|a: AnnotationEvent<T>| stamped_annotation(a, trace_id)),
                    annotations@ == ans + own.annotations@.map_values(stamp_a).take(ait.index()),
            {
                let mut a = a;
                a.trace_id = trace_id;
                assert(own.annotations@.map_values(stamp_a).take(ait.index() + 1)
                    == own.annotations@.map_values(stamp_a).take(ait.index()).push(a));
                annotations.push(a);
            }
            assert(annotations@ == ans + own.annotations@.map_values(stamp_a)) by {
                assert(own.annotations@.map_values(stamp_a).take(own.annotations@.len() as int)
                    == own.annotations@.map_values(stamp_a));
            }
            trace_id = trace_id + 1;
        }
        assert(all.take(all.len() as int) == all);
        proof {
            lemma_all_in_traces(all);
        }
        if traces.len() == 0 {
            traces.push(TraceMeta { label: owned("T0") });
        }
        let trace_count: usize = traces.len();
        let mut streams: Vec<u64> = Vec::new();
        add_streams::<T, KernelEvent<T>>(&mut streams, Ghost(Seq::empty()), &kernels);
        assert(Seq::<u64>::empty() + alignment::streams_of::<T, KernelEvent<T>>(kernels@)
            == alignment::streams_of::<T, KernelEvent<T>>(kernels@));
        add_streams::<T, AnnotationEvent<T>>(
            &mut streams,
            Ghost(alignment::streams_of::<T, KernelEvent<T>>(kernels@)),
            &annotations,
        );
        if streams.len() == 0 {
            streams.push(0);
        }
        assert(streams@ == all_streams(kernels@, annotations@));
        let mut per_trace: Vec<Vec<Lane>> = Vec::new();
        let mut t: usize = 0;
        while t < trace_count
            invariant
                t <= trace_count,
                per_trace@.len() == t,
                forall|u: int|
                    0 <= u < t ==> lane::lane_views((#[trigger] per_trace@[u])@)
                        == lane::trace_lanes(kernels@, annotations@, u as usize),
            decreases trace_count - t,
        {
            per_trace.push(build_trace_lanes(kernels.as_slice(), annotations.as_slice(), t));
            t += 1;
        }
        assert(lane::per_trace_views(per_trace@) == Seq::new(
            trace_count as nat,
            |t: int| lane::trace_lanes(kernels@, annotations@, t as usize),
        ));
        let lanes = interleave_lanes(per_trace);
        let ghost views = lane::lane_views(lanes@);
        let mut initial: usize = 0;
        while initial < lanes.len() && lanes[initial].is_annotations()
            invariant
                initial <= lanes@.len(),
                views == lane::lane_views(lanes@),
                first_kernel_lane(views, 0) == first_kernel_lane(views, initial as int),
            decreases lanes@.len() - initial,
        {
            assert(views[initial as int] == lanes@[initial as int]@);
            initial += 1;
        }
        proof {
            if initial < lanes@.len() {
                assert(views[initial as int] == lanes@[initial as int]@);
            }
        }
        let active_lane: usize = if initial < lanes.len() {
            initial
        } else {
            0
        };
        let kernel_render_overrides: Vec<Option<T>> = no_entries(kernels.len());
        let annotation_render_overrides: Vec<Option<(T, T)>> = no_entries(annotations.len());
        let kernel_diff_status: Vec<Option<KernelDiff>> = no_entries(kernels.len());
        let mut app = App {
            kernels,
            annotations,
            streams,
            lanes,
            traces,
            align_mode: AlignMode::Diff,
            active_lane,
            selected_item: 0,
            zoom_level: T::whole(1),
            lane_view_offset: 0,
            search_active: false,
            search_query: String::new(),
            search_no_match: false,
            search_matches: Vec::new(),
            search_match_idx: 0,
            sequence: None,
            sequence_status: None,
            status: None,
            kernel_render_overrides,
            annotation_render_overrides,
            kernel_diff_status,
            lane_layout: LaneLayout::default(),
        };
        proof {
            assert(app.labels() == all_labels(all));
        }
        app.recompute_alignment();
        app.clamp_selected_item();
        app
    }
}

} // verus!
