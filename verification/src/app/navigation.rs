//! Moving through items and lanes, zooming, and the visible time window.
use vstd::prelude::*;
use vstd::string::StringExecFns;
use crate::app::App;
use crate::lane::{Lane, LaneView};
use crate::scalar::{self, Scalar};

verus! {

/// The item nearest to `target` among the first `n` starts, the first of those,
/// with its distance; the first item at the largest distance where there is
/// none. Items without a start are passed over.
pub open spec fn nearest_start<T: Scalar>(starts: Seq<Option<T>>, target: T, n: int) -> (int, T)
    decreases n,
{
    if n <= 0 {
        (0, T::largest_spec())
    } else {
        let before = nearest_start(starts, target, n - 1);
        match starts[n - 1] {
            Some(ts) => {
                let diff = ts.minus_spec(target).magnitude_spec();
                if diff.less_spec(before.1) {
                    (n - 1, diff)
                } else {
                    before
                }
            },
            None => before,
        }
    }
}

/// For ordered numbers no other item is nearer than the nearest one, and none as near
/// comes before it.
pub proof fn nearest_start_is_nearest<T: Scalar>(
    starts: Seq<Option<T>>,
    target: T,
    n: int,
    q: int,
)
    requires
        scalar::ordered_totally::<T>(),
        0 <= q < n <= starts.len(),
        starts[q] is Some,
        (starts[q]->0).minus_spec(target).magnitude_spec().less_spec(T::largest_spec()),
    ensures
        ({
            let (pos, diff) = nearest_start(starts, target, n);
            let other = (starts[q]->0).minus_spec(target).magnitude_spec();
            &&& 0 <= pos < n
            &&& starts[pos] is Some
            &&& diff == (starts[pos]->0).minus_spec(target).magnitude_spec()
            &&& diff.at_most_spec(other)
            &&& q < pos ==> diff.less_spec(other)
        }),
    decreases n,
{
    let other = (starts[q]->0).minus_spec(target).magnitude_spec();
    assert(other.at_most_spec(other));
    if q < n - 1 {
        nearest_start_is_nearest(starts, target, n - 1, q);
    } else {
        lemma_nearest_bound(starts, target, n - 1);
    }
}

proof fn lemma_nearest_bound<T: Scalar>(starts: Seq<Option<T>>, target: T, n: int)
    requires
        scalar::ordered_totally::<T>(),
        0 <= n <= starts.len(),
    ensures
        ({
            let (pos, diff) = nearest_start(starts, target, n);
            &&& diff.at_most_spec(T::largest_spec())
            &&& diff != T::largest_spec() ==> 0 <= pos < n && starts[pos] is Some && diff == (
            starts[pos]->0).minus_spec(target).magnitude_spec()
        }),
    decreases n,
{
    assert(T::largest_spec().at_most_spec(T::largest_spec()));
    if n > 0 {
        lemma_nearest_bound(starts, target, n - 1);
    }
}

/// The smaller of `init` and all of `numbers`, taken one after the other.
pub open spec fn least<T: Scalar>(numbers: Seq<T>, init: T) -> T
    decreases numbers.len(),
{
    if numbers.len() == 0 {
        init
    } else {
        least(numbers.drop_last(), init).smaller_spec(numbers.last())
    }
}

/// The larger of `init` and all of `numbers`, taken one after the other.
pub open spec fn greatest<T: Scalar>(numbers: Seq<T>, init: T) -> T
    decreases numbers.len(),
{
    if numbers.len() == 0 {
        init
    } else {
        greatest(numbers.drop_last(), init).larger_spec(numbers.last())
    }
}

/// The position behind `i` on a ring of `n`.
pub(crate) fn ring_next(i: usize, n: usize) -> (r: usize)
    requires
        0 < n,
    ensures
        r == (i + 1) % n as int,
        r < n,
{
    proof {
        vstd::arithmetic::div_mod::lemma_add_mod_noop(i as int, 1, n as int);
        if n == 1 {
            vstd::arithmetic::div_mod::lemma_mod_self_0(1);
        } else {
            vstd::arithmetic::div_mod::lemma_small_mod(1, n as nat);
        }
    }
    (i % n + 1) % n
}

/// The position before `i` on a ring of `n`.
pub(crate) fn ring_prev(i: usize, n: usize) -> (r: usize)
    requires
        0 < n,
    ensures
        r == (i + n - 1) % n as int,
        r < n,
{
    if i == 0 {
        proof {
            vstd::arithmetic::div_mod::lemma_small_mod((n - 1) as nat, n as nat);
        }
        n - 1
    } else {
        proof {
            vstd::arithmetic::div_mod::lemma_mod_add_multiples_vanish(i - 1, n as int);
        }
        (i - 1) % n
    }
}

impl<T: Scalar> App<T> {
    /// Selects the previous item of the active lane; stays on the first.
    pub fn prev_item(&mut self)
        ensures
            *final(self) == (App {
                selected_item: if old(self).selected_item > 0 {
                    (old(self).selected_item - 1) as usize
                } else {
                    0
                },
                ..*old(self)
            }),
    {
        if self.selected_item > 0 {
            self.selected_item = self.selected_item - 1;
        }
    }

    /// Selects the next item of the active lane; stays on the last.
    pub fn next_item(&mut self)
        ensures
            *final(self) == (App {
                selected_item: if old(self).selected_item + 1 < old(self).active_len() {
                    (old(self).selected_item + 1) as usize
                } else {
                    old(self).selected_item
                },
                ..*old(self)
            }),
    {
        let len: usize = self.active_lane_len();
        if self.selected_item < len && self.selected_item < len - 1 {
            self.selected_item = self.selected_item + 1;
        }
    }

    /// Where item `pos` of a lane starts on the shared axis, if it is an item at
    /// all.
    pub open spec fn item_start(&self, lane: LaneView, pos: int) -> Option<T> {
        if pos < lane.items.len() {
            let idx = lane.items[pos] as int;
            if lane.annotations {
                if idx < self.annotations@.len() {
                    Some(self.annotation_start(idx))
                } else {
                    None
                }
            } else if idx < self.kernels@.len() {
                Some(self.kernel_start(idx))
            } else {
                None
            }
        } else {
            None
        }
    }

    /// Where the items of a lane start on the shared axis.
    pub open spec fn item_starts(&self, lane: LaneView) -> Seq<Option<T>> {
        Seq::new(lane.items.len(), |pos: int| self.item_start(lane, pos))
    }

    /// Where the selected item starts, if one is selected.
    pub open spec fn selected_start(&self) -> Option<T> {
        match self.active() {
            Some(lane) => self.item_start(lane, self.selected_item as int),
            None => None,
        }
    }

    /// The item of the active lane that is nearest to a time; the first where
    /// there is none.
    pub open spec fn nearest_item(&self, target: T) -> usize {
        match self.active() {
            Some(lane) => nearest_start(
                self.item_starts(lane),
                target,
                lane.items.len() as int,
            ).0 as usize,
            None => 0,
        }
    }

    /// This state with another lane active: the selection jumps to the item that
    /// is nearest in time, or to the first where nothing was selected.
    pub open spec fn in_lane(self, target: usize) -> App<T> {
        let moved = App { active_lane: target, ..self };
        App {
            selected_item: match self.selected_start() {
                Some(ts) => moved.nearest_item(ts),
                None => 0,
            },
            ..moved
        }
    }

    /// Aligned start of the item at `pos` in `lane`, so that cross-trace
    /// navigation compares positions on the shared visual axis.
    pub fn item_render_ts(&self, lane: &Lane, pos: usize) -> (r: Option<T>)
        ensures
            r == self.item_start(lane@, pos as int),
    {
        let items = lane.item_indices();
        if pos >= items.len() {
            return None;
        }
        let idx: usize = items[pos];
        if lane.is_annotations() {
            if idx < self.annotations.len() {
                Some(self.annotation_render_ts(idx))
            } else {
                None
            }
        } else if idx < self.kernels.len() {
            Some(self.kernel_render_ts(idx))
        } else {
            None
        }
    }

    /// Aligned start of the selected item.
    pub fn selected_item_render_ts(&self) -> (r: Option<T>)
        ensures
            r == self.selected_start(),
    {
        if self.active_lane < self.lanes.len() {
            self.item_render_ts(&self.lanes[self.active_lane], self.selected_item)
        } else {
            None
        }
    }

    /// The item of the active lane that is nearest to a time.
    pub fn nearest_item_in_active_lane(&self, target_ts: T) -> (r: usize)
        ensures
            r == self.nearest_item(target_ts),
    {
        if self.active_lane >= self.lanes.len() {
            return 0;
        }
        let lane = &self.lanes[self.active_lane];
        let n: usize = lane.item_indices().len();
        let ghost starts = self.item_starts(lane@);
        let mut best: usize = 0;
        let mut best_diff = T::largest();
        let mut pos: usize = 0;
        while pos < n
            invariant
                pos <= n == lane@.items.len(),
                starts == self.item_starts(lane@),
                (best as int, best_diff) == nearest_start(starts, target_ts, pos as int),
            decreases n - pos,
        {
            if let Some(ts) = self.item_render_ts(lane, pos) {
                let diff = ts.minus(target_ts).magnitude();
                if diff.less(best_diff) {
                    best_diff = diff;
                    best = pos;
                }
            }
            pos += 1;
        }
        best
    }

    /// Makes another lane active; the selection jumps to the item nearest in
    /// time.
    pub fn move_to_lane(&mut self, target: usize)
        ensures
            *final(self) == old(self).in_lane(target),
    {
        let prev_ts = self.selected_item_render_ts();
        self.active_lane = target;
        self.selected_item =
        match prev_ts {
            Some(ts) => self.nearest_item_in_active_lane(ts),
            None => 0,
        };
    }

    /// Makes the next lane active, wrapping past the last to the first. With a
    /// single lane nothing happens.
    pub fn next_lane(&mut self)
        ensures
            *final(self) == if old(self).lanes@.len() <= 1 {
                *old(self)
            } else {
                old(self).in_lane(
                    ((old(self).active_lane + 1) % old(self).lanes@.len() as int) as usize,
                )
            },
    {
        let n: usize = self.lanes.len();
        if n <= 1 {
            return;
        }
        let target: usize = ring_next(self.active_lane, n);
        self.move_to_lane(target);
    }

    /// Makes the previous lane active, wrapping past the first to the last. With
    /// a single lane nothing happens.
    pub fn prev_lane(&mut self)
        ensures
            *final(self) == if old(self).lanes@.len() <= 1 {
                *old(self)
            } else {
                old(self).in_lane(
                    ((old(self).active_lane + old(self).lanes@.len() - 1) % old(self).lanes@.len() as int) as usize,
                )
            },
    {
        let n: usize = self.lanes.len();
        if n <= 1 {
            return;
        }
        let target: usize = ring_prev(self.active_lane, n);
        self.move_to_lane(target);
    }

    /// Zooms in by half as much again.
    pub fn zoom_in(&mut self)
        ensures
            *final(self) == (App {
                zoom_level: old(self).zoom_level.times_spec(T::ratio_spec(15, 10)),
                ..*old(self)
            }),
    {
        self.zoom_level = self.zoom_level.times(T::ratio(15, 10));
    }

    /// Zooms out by the same factor, down to a tenth.
    pub fn zoom_out(&mut self)
        ensures
            *final(self) == (App {
                zoom_level: old(self).zoom_level.over_spec(T::ratio_spec(15, 10)).larger_spec(
                    T::ratio_spec(1, 10),
                ),
                ..*old(self)
            }),
    {
        self.zoom_level = self.zoom_level.over(T::ratio(15, 10)).larger(T::ratio(1, 10));
    }

    /// Scrolls vertically just as far as it takes to show the active lane (one
    /// lane is one rendered row).
    pub fn ensure_active_lane_visible(&mut self, visible_rows: usize)
        ensures
            *final(self) == (App {
                lane_view_offset: if visible_rows == 0 {
                    old(self).lane_view_offset
                } else if old(self).active_lane < old(self).lane_view_offset {
                    old(self).active_lane
                } else if old(self).active_lane >= old(self).lane_view_offset + visible_rows {
                    (old(self).active_lane + 1 - visible_rows) as usize
                } else {
                    old(self).lane_view_offset
                },
                ..*old(self)
            }),
            visible_rows > 0 ==> final(self).lane_view_offset <= final(self).active_lane < final(self).lane_view_offset + visible_rows,
            visible_rows > 0 ==> forall|o: int|
                0 <= o <= old(self).active_lane < o + visible_rows ==> vstd::math::abs(
                    final(self).lane_view_offset - old(self).lane_view_offset,
                ) <= #[trigger] vstd::math::abs(o - old(self).lane_view_offset),
    {
        if visible_rows == 0 {
            return;
        }
        if self.active_lane < self.lane_view_offset {
            self.lane_view_offset = self.active_lane;
        } else if self.active_lane - self.lane_view_offset >= visible_rows {
            self.lane_view_offset = self.active_lane - (visible_rows - 1);
        }
    }

    /// Where all kernels start.
    pub open spec fn kernel_starts(&self) -> Seq<T> {
        Seq::new(self.kernels@.len(), |i: int| self.kernel_start(i))
    }

    /// Where all kernels end.
    pub open spec fn kernel_ends(&self) -> Seq<T> {
        Seq::new(self.kernels@.len(), |i: int| self.kernel_end(i))
    }

    /// Where all annotations start.
    pub open spec fn annotation_starts(&self) -> Seq<T> {
        Seq::new(self.annotations@.len(), |i: int| self.annotation_start(i))
    }

    /// Where all annotations end.
    pub open spec fn annotation_ends(&self) -> Seq<T> {
        Seq::new(self.annotations@.len(), |i: int| self.annotation_end(i))
    }

    /// The time that all events span, at least one wide; 0 to 1 without events.
    pub open spec fn time_bounds(&self) -> (T, T) {
        let start = least(
            self.annotation_starts(),
            least(self.kernel_starts(), T::largest_spec()),
        );
        let end = greatest(
            self.annotation_ends(),
            greatest(self.kernel_ends(), T::lowest_spec()),
        );
        if end.less_spec(start) {
            (T::whole_spec(0), T::whole_spec(1))
        } else {
            (start, end.larger_spec(start.plus_spec(T::whole_spec(1))))
        }
    }

    /// The time that all events span.
    pub fn global_time_bounds(&self) -> (r: (T, T))
        ensures
            r == self.time_bounds(),
    {
        let mut start = T::largest();
        let mut end = T::lowest();
        let mut i: usize = 0;
        while i < self.kernels.len()
            invariant
                i <= self.kernels@.len(),
                start == least(self.kernel_starts().take(i as int), T::largest_spec()),
                end == greatest(self.kernel_ends().take(i as int), T::lowest_spec()),
            decreases self.kernels@.len() - i,
        {
            assert(self.kernel_starts().take(i + 1).drop_last() == self.kernel_starts().take(
                i as int,
            ));
            assert(self.kernel_ends().take(i + 1).drop_last() == self.kernel_ends().take(i as int));
            start = start.smaller(self.kernel_render_ts(i));
            end = end.larger(self.kernel_render_end(i));
            i += 1;
        }
        assert(self.kernel_starts().take(i as int) == self.kernel_starts());
        assert(self.kernel_ends().take(i as int) == self.kernel_ends());
        let ghost s0 = start;
        let ghost e0 = end;
        let mut j: usize = 0;
        while j < self.annotations.len()
            invariant
                j <= self.annotations@.len(),
                start == least(self.annotation_starts().take(j as int), s0),
                end == greatest(self.annotation_ends().take(j as int), e0),
            decreases self.annotations@.len() - j,
        {
            assert(self.annotation_starts().take(j + 1).drop_last()
                == self.annotation_starts().take(j as int));
            assert(self.annotation_ends().take(j + 1).drop_last() == self.annotation_ends().take(
                j as int,
            ));
            start = start.smaller(self.annotation_render_ts(j));
            end = end.larger(self.annotation_render_end(j));
            j += 1;
        }
        assert(self.annotation_starts().take(j as int) == self.annotation_starts());
        assert(self.annotation_ends().take(j as int) == self.annotation_ends());
        if end.less(start) {
            (T::whole(0), T::whole(1))
        } else {
            (start, end.larger(start.plus(T::whole(1))))
        }
    }

    /// The middle of the selected item on the shared axis, if one is selected.
    pub open spec fn selected_center(&self) -> Option<T> {
        match self.selected_index() {
            Some(idx) => {
                let span = self.item_span(self.active()->0.annotations, idx as int);
                Some(span.0.plus_spec(span.1).over_spec(T::whole_spec(2)))
            },
            None => None,
        }
    }

    /// Aligned center of the selected item, used to center the visible window on
    /// the shared aligned axis.
    pub fn selected_render_center(&self) -> (r: Option<T>)
        ensures
            r == self.selected_center(),
    {
        if self.active_lane >= self.lanes.len() {
            return None;
        }
        let lane = &self.lanes[self.active_lane];
        if self.selected_item >= lane.item_indices().len() {
            return None;
        }
        let (start, end) = self.item_render_span(lane, self.selected_item);
        Some(start.plus(end).over(T::whole(2)))
    }

    /// The time window to show: the whole span over the zoom level, around the
    /// selected item, kept inside the whole span as far as its width allows.
    pub open spec fn visible_window(&self) -> (T, T) {
        let (g_start, g_end) = self.time_bounds();
        let total = g_end.minus_spec(g_start).larger_spec(T::whole_spec(1));
        let visible = total.over_spec(self.zoom_level).larger_spec(T::ratio_spec(1, 1000));
        let center = match self.selected_center() {
            Some(c) => c,
            None => g_start.plus_spec(total.over_spec(T::whole_spec(2))),
        };
        let half = visible.over_spec(T::whole_spec(2));
        let start = center.minus_spec(half).larger_spec(g_start);
        let end = center.plus_spec(half).smaller_spec(g_end);
        (start, end.larger_spec(start.plus_spec(visible)))
    }

    /// The time window to show.
    pub fn global_visible_window(&self) -> (r: (T, T))
        ensures
            r == self.visible_window(),
    {
        let (g_start, g_end) = self.global_time_bounds();
        let total = g_end.minus(g_start).larger(T::whole(1));
        let visible = total.over(self.zoom_level).larger(T::ratio(1, 1000));
        let center = match self.selected_render_center() {
            Some(c) => c,
            None => g_start.plus(total.over(T::whole(2))),
        };
        let half = visible.over(T::whole(2));
        let start = center.minus(half).larger(g_start);
        let end = center.plus(half).smaller(g_end);
        (start, end.larger(start.plus(visible)))
    }

    /// The zoom level as shown: whole from ten on, with one decimal place below.
    pub fn zoom_label(&self) -> (r: String)
        ensures
            r@ == self.zoom_level.show_places_spec(
                if T::whole_spec(10).at_most_spec(self.zoom_level) {
                    0
                } else {
                    1
                },
            ) + "x"@,
    {
        let places: usize = if T::whole(10).at_most(self.zoom_level) {
            0
        } else {
            1
        };
        let mut out = self.zoom_level.show_places(places);
        out.append("x");
        out
    }
}

/// Going to the next lane and back leads to the lane that was active before,
/// and so does going back and on.
pub proof fn lanes_are_a_ring(lane: int, n: int)
    requires
        0 <= lane < n,
    ensures
        ((lane + 1) % n + n - 1) % n == lane,
        ((lane + n - 1) % n + 1) % n == lane,
        0 <= (lane + 1) % n < n,
        0 <= (lane + n - 1) % n < n,
{
    if lane + 1 < n {
        vstd::arithmetic::div_mod::lemma_small_mod((lane + 1) as nat, n as nat);
        vstd::arithmetic::div_mod::lemma_mod_add_multiples_vanish(lane, n);
        vstd::arithmetic::div_mod::lemma_small_mod(lane as nat, n as nat);
    } else {
        vstd::arithmetic::div_mod::lemma_mod_self_0(n);
        vstd::arithmetic::div_mod::lemma_small_mod(lane as nat, n as nat);
    }
    if lane > 0 {
        vstd::arithmetic::div_mod::lemma_mod_add_multiples_vanish(lane - 1, n);
        vstd::arithmetic::div_mod::lemma_small_mod((lane - 1) as nat, n as nat);
        vstd::arithmetic::div_mod::lemma_small_mod(lane as nat, n as nat);
    } else {
        vstd::arithmetic::div_mod::lemma_small_mod((n - 1) as nat, n as nat);
        vstd::arithmetic::div_mod::lemma_mod_self_0(n);
    }
}

pub(crate) proof fn lemma_least<T: Scalar>(numbers: Seq<T>, init: T)
    requires
        scalar::ordered_totally::<T>(),
        scalar::picks_by_order::<T>(),
    ensures
        least(numbers, init).at_most_spec(init),
        forall|i: int|
            0 <= i < numbers.len() ==> least(numbers, init).at_most_spec(#[trigger] numbers[i]),
    decreases numbers.len(),
{
    assert(init.at_most_spec(init));
    if numbers.len() > 0 {
        lemma_least(numbers.drop_last(), init);
        let before = least(numbers.drop_last(), init);
        let last = numbers.last();
        assert(before.at_most_spec(before) && last.at_most_spec(last));
        assert(before.at_most_spec(last) || last.at_most_spec(before));
        assert(least(numbers, init).at_most_spec(before));
        assert forall|i: int| 0 <= i < numbers.len() implies least(numbers, init).at_most_spec(
            #[trigger] numbers[i],
        ) by {
            if i < numbers.len() - 1 {
                assert(numbers.drop_last()[i] == numbers[i]);
            }
        }
    }
}

pub(crate) proof fn lemma_greatest<T: Scalar>(numbers: Seq<T>, init: T)
    requires
        scalar::ordered_totally::<T>(),
        scalar::picks_by_order::<T>(),
    ensures
        init.at_most_spec(greatest(numbers, init)),
        forall|i: int|
            0 <= i < numbers.len() ==> (#[trigger] numbers[i]).at_most_spec(
                greatest(numbers, init),
            ),
    decreases numbers.len(),
{
    assert(init.at_most_spec(init));
    if numbers.len() > 0 {
        lemma_greatest(numbers.drop_last(), init);
        let before = greatest(numbers.drop_last(), init);
        let last = numbers.last();
        assert(before.at_most_spec(before) && last.at_most_spec(last));
        assert(before.at_most_spec(last) || last.at_most_spec(before));
        assert(before.at_most_spec(greatest(numbers, init)));
        assert forall|i: int| 0 <= i < numbers.len() implies (
        #[trigger] numbers[i]).at_most_spec(greatest(numbers, init)) by {
            if i < numbers.len() - 1 {
                assert(numbers.drop_last()[i] == numbers[i]);
            }
        }
    }
}

/// The bounds of the time axis enclose what lies between the earliest and the latest of
/// all times.
proof fn lemma_bounds<T: Scalar>(app: App<T>, start: T, end: T)
    requires
        scalar::ordered_totally::<T>(),
        scalar::picks_by_order::<T>(),
        start.at_most_spec(end),
        ({
            let first = least(
                app.annotation_starts(),
                least(app.kernel_starts(), T::largest_spec()),
            );
            first.at_most_spec(start)
        }),
        ({
            let last = greatest(
                app.annotation_ends(),
                greatest(app.kernel_ends(), T::lowest_spec()),
            );
            end.at_most_spec(last)
        }),
    ensures
        app.time_bounds().0.at_most_spec(start),
        end.at_most_spec(app.time_bounds().1),
{
    let first = least(app.annotation_starts(), least(app.kernel_starts(), T::largest_spec()));
    let last = greatest(app.annotation_ends(), greatest(app.kernel_ends(), T::lowest_spec()));
    let least_end = first.plus_spec(T::whole_spec(1));
    assert(first.at_most_spec(end));
    assert(first.at_most_spec(last));
    assert(last.at_most_spec(last));
    assert(last.at_most_spec(last.larger_spec(least_end)));
}

/// For ordered numbers the bounds of the time axis hold every kernel that does not
/// end before it starts.
pub proof fn the_bounds_hold_every_kernel<T: Scalar>(app: App<T>, i: int)
    requires
        scalar::ordered_totally::<T>(),
        scalar::picks_by_order::<T>(),
        0 <= i < app.kernels@.len(),
        app.kernel_start(i).at_most_spec(app.kernel_end(i)),
    ensures
        app.time_bounds().0.at_most_spec(app.kernel_start(i)),
        app.kernel_end(i).at_most_spec(app.time_bounds().1),
{
    lemma_least(app.kernel_starts(), T::largest_spec());
    lemma_least(app.annotation_starts(), least(app.kernel_starts(), T::largest_spec()));
    lemma_greatest(app.kernel_ends(), T::lowest_spec());
    lemma_greatest(app.annotation_ends(), greatest(app.kernel_ends(), T::lowest_spec()));
    assert(app.kernel_starts()[i] == app.kernel_start(i));
    assert(app.kernel_ends()[i] == app.kernel_end(i));
    lemma_bounds(app, app.kernel_start(i), app.kernel_end(i));
}

/// For ordered numbers the bounds of the time axis hold every annotation that does
/// not end before it starts.
pub proof fn the_bounds_hold_every_annotation<T: Scalar>(app: App<T>, i: int)
    requires
        scalar::ordered_totally::<T>(),
        scalar::picks_by_order::<T>(),
        0 <= i < app.annotations@.len(),
        app.annotation_start(i).at_most_spec(app.annotation_end(i)),
    ensures
        app.time_bounds().0.at_most_spec(app.annotation_start(i)),
        app.annotation_end(i).at_most_spec(app.time_bounds().1),
{
    lemma_least(app.annotation_starts(), least(app.kernel_starts(), T::largest_spec()));
    lemma_greatest(app.annotation_ends(), greatest(app.kernel_ends(), T::lowest_spec()));
    assert(app.annotation_starts()[i] == app.annotation_start(i));
    assert(app.annotation_ends()[i] == app.annotation_end(i));
    lemma_bounds(app, app.annotation_start(i), app.annotation_end(i));
}

/// Counted in ticks, the visible window starts inside the bounds of the time axis
/// and holds the middle of the selected item.
pub proof fn the_window_shows_the_selection(app: App<i64>)
    ensures
        app.time_bounds().0 <= app.visible_window().0 <= app.visible_window().1,
        app.selected_center() matches Some(c) ==> (app.time_bounds().0 <= c <= app.time_bounds().1
            ==> app.visible_window().0 <= c <= app.visible_window().1),
{
    let (g_start, g_end) = app.time_bounds();
    let total = g_end.minus_spec(g_start).larger_spec(i64::whole_spec(1));
    let visible = total.over_spec(app.zoom_level).larger_spec(i64::ratio_spec(1, 1000));
    assert(i64::ratio_spec(1, 1000) == 0) by {
        assert(1int / 1000 == 0);
    }
    let half = visible.over_spec(i64::whole_spec(2));
    assert(half >= 0) by {
        assert(visible as int / 2 >= 0);
    }
}

/// For numbers that count like reals, the visible window starts inside the bounds of the
/// time axis and holds the middle of the selected item.
pub proof fn the_window_holds_the_selection<T: Scalar>(app: App<T>)
    requires
        scalar::counts_like_reals::<T>(),
    ensures
        app.time_bounds().0.at_most_spec(app.visible_window().0),
        app.visible_window().0.at_most_spec(app.visible_window().1),
        app.selected_center() matches Some(c) ==> (app.time_bounds().0.at_most_spec(c)
            && c.at_most_spec(app.time_bounds().1) ==> app.visible_window().0.at_most_spec(c)
            && c.at_most_spec(app.visible_window().1)),
{
    let zero = T::whole_spec(0);
    let two = T::whole_spec(2);
    let (g_start, g_end) = app.time_bounds();
    let total = g_end.minus_spec(g_start).larger_spec(T::whole_spec(1));
    let part = T::ratio_spec(1, 1000);
    let share = total.over_spec(app.zoom_level);
    let visible = share.larger_spec(part);
    let center = match app.selected_center() {
        Some(c) => c,
        None => g_start.plus_spec(total.over_spec(two)),
    };
    let half = visible.over_spec(two);
    assert(zero.at_most_spec(part));
    assert(part.at_most_spec(part) && (share.at_most_spec(part) || part.at_most_spec(share)));
    assert(part.at_most_spec(visible));
    assert(zero.at_most_spec(visible));
    assert(zero.over_spec(two) == zero);
    assert(zero.at_most_spec(half));
    let left = center.minus_spec(half);
    let right = center.plus_spec(half);
    assert(half.plus_spec(left) == center);
    scalar::sums_group_freely(zero, left, zero);
    assert(left.plus_spec(zero) == left);
    assert(zero.plus_spec(left).at_most_spec(half.plus_spec(left)));
    assert(left.at_most_spec(center));
    assert(center.plus_spec(zero) == center);
    assert(center.plus_spec(zero).at_most_spec(center.plus_spec(half)));
    let start = left.larger_spec(g_start);
    assert(g_start.at_most_spec(g_start));
    assert(left.at_most_spec(g_start) || g_start.at_most_spec(left));
    assert(g_start.at_most_spec(start));
    let end = right.smaller_spec(g_end);
    let least_end = start.plus_spec(visible);
    assert(start.plus_spec(zero) == start);
    assert(start.plus_spec(zero).at_most_spec(least_end));
    assert(least_end.at_most_spec(least_end) && end.at_most_spec(end));
    assert(end.at_most_spec(least_end) || least_end.at_most_spec(end));
    let last = end.larger_spec(least_end);
    assert(least_end.at_most_spec(last) && end.at_most_spec(last));
}

} // verus!
