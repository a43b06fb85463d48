//! From times to terminal columns and back: what a lane shows in each column,
//! and which item a click means.
use vstd::prelude::*;
use crate::app::App;
use crate::lane::{ColumnClass, KernelDiff, Lane, LaneView};
use crate::scalar::Scalar;

verus! {

/// The column, not yet cut to a whole number, at which a time lies in a window
/// that starts at `ts_start`, spans `time_span` and is `width` columns wide.
pub open spec fn column_of<T: Scalar>(ts: T, ts_start: T, time_span: T, width: usize) -> T {
    ts.minus_spec(ts_start).over_spec(time_span).times_spec(T::whole_spec(width as u64))
}

/// The columns `start..end` that a span covers in the window `ts_start..ts_end`
/// of `width` columns; at least one where the span is in the window at all.
pub open spec fn columns_of<T: Scalar>(
    k_ts: T,
    k_end: T,
    ts_start: T,
    ts_end: T,
    width: usize,
) -> Option<(usize, usize)> {
    if k_end.at_most_spec(ts_start) || ts_end.at_most_spec(k_ts) {
        None
    } else {
        let time_span = ts_end.minus_spec(ts_start).larger_spec(T::whole_spec(1));
        let start = column_of(
            k_ts.larger_spec(ts_start),
            ts_start,
            time_span,
            width,
        ).rounded_down_spec().larger_spec(T::whole_spec(0)).index_spec();
        let end = column_of(
            k_end.smaller_spec(ts_end),
            ts_start,
            time_span,
            width,
        ).rounded_up_spec().index_spec();
        if start >= width {
            None
        } else if end <= start {
            Some((start, (start + 1) as usize))
        } else if end > width {
            Some((start, width))
        } else {
            Some((start, end))
        }
    }
}

/// The columns that a span covers in a window.
pub fn kernel_columns<T: Scalar>(
    k_ts: T,
    k_end: T,
    ts_start: T,
    ts_end: T,
    width: usize,
) -> (r: Option<(usize, usize)>)
    ensures
        r == columns_of(k_ts, k_end, ts_start, ts_end, width),
        r matches Some((start, end)) ==> start < end <= width,
{
    if k_end.at_most(ts_start) || ts_end.at_most(k_ts) {
        return None;
    }
    let time_span = ts_end.minus(ts_start).larger(T::whole(1));
    let columns = T::whole(width as u64);
    let start: usize = k_ts.larger(ts_start).minus(ts_start).over(time_span).times(
        columns,
    ).rounded_down().larger(T::whole(0)).to_index();
    let end: usize = k_end.smaller(ts_end).minus(ts_start).over(time_span).times(
        columns,
    ).rounded_up().to_index();
    if start >= width {
        return None;
    }
    let end: usize = if end <= start {
        start + 1
    } else if end > width {
        width
    } else {
        end
    };
    Some((start, end))
}

impl<T: Scalar> App<T> {
    /// The columns that item `pos` of a lane covers in a window.
    pub open spec fn item_columns(
        &self,
        lane: LaneView,
        pos: int,
        ts_start: T,
        ts_end: T,
        width: usize,
    ) -> Option<(usize, usize)> {
        let span = self.item_span(lane.annotations, lane.items[pos] as int);
        columns_of(span.0, span.1, ts_start, ts_end, width)
    }

    /// Whether item `pos` of a lane covers column `col` of a window.
    pub open spec fn covers(
        &self,
        lane: LaneView,
        pos: int,
        ts_start: T,
        ts_end: T,
        width: usize,
        col: int,
    ) -> bool {
        match self.item_columns(lane, pos, ts_start, ts_end, width) {
            Some((start, end)) => start <= col < end,
            None => false,
        }
    }

    /// The class in which item `pos` of lane `lane_idx` claims its columns.
    pub open spec fn class_of(
        &self,
        lane_idx: usize,
        lane: LaneView,
        pos: int,
        diff_active: bool,
    ) -> ColumnClass {
        if lane_idx == self.active_lane && pos == self.selected_item {
            ColumnClass::Selected
        } else if !diff_active {
            ColumnClass::Matched
        } else {
            match self.diff_of(lane.items[pos] as int) {
                Some(KernelDiff::Added) => ColumnClass::Added,
                Some(KernelDiff::Deleted) => ColumnClass::Deleted,
                None => ColumnClass::Matched,
            }
        }
    }

    /// Whether `cell` is what the first `n` items of a lane leave in column
    /// `col`: nothing where none covers it, else the item of the strongest class,
    /// the first of those.
    pub open spec fn wins(
        &self,
        lane_idx: usize,
        lane: LaneView,
        ts_start: T,
        ts_end: T,
        width: usize,
        diff_active: bool,
        n: int,
        col: int,
        cell: Option<(ColumnClass, usize)>,
    ) -> bool {
        match cell {
            None => forall|q: int|
                0 <= q < n ==> !#[trigger] self.covers(lane, q, ts_start, ts_end, width, col),
            Some((class, pos)) => {
                &&& pos < n
                &&& self.covers(lane, pos as int, ts_start, ts_end, width, col)
                &&& class == self.class_of(lane_idx, lane, pos as int, diff_active)
                &&& forall|q: int|
                    0 <= q < n && #[trigger] self.covers(lane, q, ts_start, ts_end, width, col)
                        ==> {
                        let rank = self.class_of(lane_idx, lane, q, diff_active).rank_spec();
                        rank <= class.rank_spec() && (q < pos ==> rank < class.rank_spec())
                    }
            },
        }
    }

    /// Rendered (start, end) timestamps of the item at `pos` in `lane`; of the
    /// item with index 0 where there is none at `pos`.
    pub fn item_render_span(&self, lane: &Lane, pos: usize) -> (r: (T, T))
        ensures
            r == self.item_span(
                lane@.annotations,
                if pos < lane@.items.len() {
                    lane@.items[pos as int] as int
                } else {
                    0
                },
            ),
    {
        let items = lane.item_indices();
        let idx: usize = if pos < items.len() {
            items[pos]
        } else {
            0
        };
        if lane.is_annotations() {
            (self.annotation_render_ts(idx), self.annotation_render_end(idx))
        } else {
            (self.kernel_render_ts(idx), self.kernel_render_end(idx))
        }
    }

    /// The class in which an item claims its columns.
    fn item_class(&self, lane_idx: usize, item_idx: usize, pos: usize, diff_active: bool) -> (r:
        ColumnClass)
        requires
            lane_idx < self.lanes@.len(),
            pos < self.lanes@[lane_idx as int]@.items.len(),
            item_idx == self.lanes@[lane_idx as int]@.items[pos as int],
        ensures
            r == self.class_of(lane_idx, self.lanes@[lane_idx as int]@, pos as int, diff_active),
    {
        if lane_idx == self.active_lane && pos == self.selected_item {
            ColumnClass::Selected
        } else if !diff_active {
            ColumnClass::Matched
        } else {
            match self.kernel_diff(item_idx) {
                Some(KernelDiff::Added) => ColumnClass::Added,
                Some(KernelDiff::Deleted) => ColumnClass::Deleted,
                None => ColumnClass::Matched,
            }
        }
    }

    /// Per-column winning `(class, owner_pos)` for a kernel lane at the given
    /// window and `width`, applying the priority order
    /// Selected > Deleted > Added > Matched. `owner_pos` indexes the lane's
    /// `item_indices()`. Columns with no kernel are `None`. When `diff_active` is
    /// false, every non-selected kernel column is `Matched`.
    pub fn lane_column_classes(
        &self,
        lane_idx: usize,
        ts_start: T,
        time_span: T,
        width: usize,
        diff_active: bool,
    ) -> (r: Vec<Option<(ColumnClass, usize)>>)
        ensures
            r@.len() == width,
            lane_idx >= self.lanes@.len() ==> forall|col: int|
                0 <= col < width ==> (#[trigger] r@[col]) is None,
            lane_idx < self.lanes@.len() ==> forall|col: int|
                0 <= col < width ==> {
                    let lane = self.lanes@[lane_idx as int]@;
                    self.wins(
                        lane_idx,
                        lane,
                        ts_start,
                        ts_start.plus_spec(time_span),
                        width,
                        diff_active,
                        lane.items.len() as int,
                        col,
                        #[trigger] r@[col],
                    )
                },
    {
        let mut cols: Vec<Option<(ColumnClass, usize)>> = Vec::new();
        let mut c: usize = 0;
        while c < width
            invariant
                c <= width,
                cols@.len() == c,
                forall|col: int| 0 <= col < c ==> (#[trigger] cols@[col]) is None,
            decreases width - c,
        {
            cols.push(None);
            c += 1;
        }
        if lane_idx >= self.lanes.len() {
            return cols;
        }
        let lane = &self.lanes[lane_idx];
        let ghost view = lane@;
        let items = lane.item_indices();
        let ts_end = ts_start.plus(time_span);
        let mut pos: usize = 0;
        while pos < items.len()
            invariant
                pos <= items@.len(),
                lane_idx < self.lanes@.len(),
                view == lane@,
                *lane == self.lanes@[lane_idx as int],
                items@ == view.items,
                ts_end == ts_start.plus_spec(time_span),
                cols@.len() == width,
                forall|col: int|
                    0 <= col < width ==> self.wins(
                        lane_idx,
                        view,
                        ts_start,
                        ts_end,
                        width,
                        diff_active,
                        pos as int,
                        col,
                        #[trigger] cols@[col],
                    ),
            decreases items@.len() - pos,
        {
            let class = self.item_class(lane_idx, items[pos], pos, diff_active);
            let (start, end) = self.item_render_span(lane, pos);
            let span = kernel_columns(start, end, ts_start, ts_end, width);
            assert(span == self.item_columns(view, pos as int, ts_start, ts_end, width));
            let (start_col, end_col) = match span {
                Some((s, e)) => (s, e),
                None => (0, 0),
            };
            assert(forall|col: int|
                self.covers(view, pos as int, ts_start, ts_end, width, col) <==> start_col <= col
                    < end_col);
            let ghost before = cols@;
            let mut col: usize = start_col;
            while col < end_col
                invariant
                    start_col <= col <= end_col <= width || (col == start_col && start_col
                        == end_col),
                    cols@.len() == width == before.len(),
                    forall|q: int|
                        0 <= q < width && !(start_col <= q < col) ==> #[trigger] cols@[q]
                            == before[q],
                    forall|q: int|
                        start_col <= q < col ==> #[trigger] cols@[q] == match before[q] {
                            Some((c, p)) => if class.rank_spec() > c.rank_spec() {
                                Some((class, pos))
                            } else {
                                Some((c, p))
                            },
                            None => Some((class, pos)),
                        },
                decreases end_col - col,
            {
                let win: bool = match cols[col] {
                    Some((c, _)) => class.rank() > c.rank(),
                    None => true,
                };
                if win {
                    cols.set(col, Some((class, pos)));
                }
                col += 1;
            }
            assert forall|q: int| 0 <= q < width implies self.wins(
                lane_idx,
                view,
                ts_start,
                ts_end,
                width,
                diff_active,
                pos + 1,
                q,
                #[trigger] cols@[q],
            ) by {
                assert(self.wins(
                    lane_idx,
                    view,
                    ts_start,
                    ts_end,
                    width,
                    diff_active,
                    pos as int,
                    q,
                    before[q],
                ));
            }
            pos += 1;
        }
        cols
    }

    /// The lane shown at terminal row `row`, if the row falls within the rendered
    /// lane area and maps to an existing lane.
    pub open spec fn row_lane(&self, row: u16) -> Option<usize> {
        let lo = self.lane_layout;
        if row < lo.inner_y || row >= lo.inner_y + lo.inner_h {
            None
        } else if lo.view_offset + (row - lo.inner_y) < self.lanes@.len() {
            Some((lo.view_offset + (row - lo.inner_y)) as usize)
        } else {
            None
        }
    }

    /// Lane index shown at terminal row `row`, if the row falls within the
    /// rendered lane area and maps to an existing lane.
    pub fn lane_at_row(&self, row: u16) -> (r: Option<usize>)
        ensures
            r == self.row_lane(row),
    {
        let lo = &self.lane_layout;
        if row < lo.inner_y || row as u32 >= lo.inner_y as u32 + lo.inner_h as u32 {
            return None;
        }
        let down: usize = (row - lo.inner_y) as usize;
        let n: usize = self.lanes.len();
        if lo.view_offset < n && down < n - lo.view_offset {
            Some(lo.view_offset + down)
        } else {
            None
        }
    }

    /// Whether a click at column `col` lands in the timeline of a lane that has
    /// items.
    pub open spec fn clickable(&self, lane_idx: usize, col: u16) -> bool {
        let lo = self.lane_layout;
        &&& lane_idx < self.lanes@.len()
        &&& self.lanes@[lane_idx as int]@.items.len() > 0
        &&& col >= lo.inner_x + lo.label_width
        &&& lo.lane_width > 0
    }

    /// The columns of item `pos` of a lane in the lane area.
    pub open spec fn shown_columns(&self, lane_idx: usize, pos: int) -> Option<(usize, usize)> {
        let lo = self.lane_layout;
        self.item_columns(
            self.lanes@[lane_idx as int]@,
            pos,
            lo.ts_start,
            lo.ts_start.plus_spec(lo.time_span),
            lo.lane_width as usize,
        )
    }

    /// How far the middle of the columns of an item is from a column.
    pub open spec fn distance(columns: (usize, usize), click: int) -> int {
        vstd::math::abs((columns.0 + columns.1) / 2 - click) as int
    }

    /// Whether a click at column `col` of a lane means item `pos`: the first item
    /// under the click; where there is none, the shown item whose middle is
    /// nearest, the first of those; where no item is shown, the first.
    pub open spec fn means(&self, lane_idx: usize, col: u16, pos: int) -> bool {
        let lo = self.lane_layout;
        let click = col - (lo.inner_x + lo.label_width);
        let n = self.lanes@[lane_idx as int]@.items.len();
        &&& 0 <= pos < n
        &&& if exists|q: int| 0 <= q < n && #[trigger] self.is_under(lane_idx, q, click) {
            &&& self.is_under(lane_idx, pos, click)
            &&& forall|q: int| 0 <= q < pos ==> !#[trigger] self.is_under(lane_idx, q, click)
        } else if exists|q: int| 0 <= q < n && (#[trigger] self.shown_columns(lane_idx, q)) is Some {
            &&& self.shown_columns(lane_idx, pos) is Some
            &&& forall|q: int|
                0 <= q < n && (#[trigger] self.shown_columns(lane_idx, q)) is Some ==> {
                    let own = Self::distance(self.shown_columns(lane_idx, pos)->0, click);
                    let other = Self::distance(self.shown_columns(lane_idx, q)->0, click);
                    own <= other && (q < pos ==> own < other)
                }
        } else {
            pos == 0
        }
    }

    /// Whether the columns of item `pos` cover a column of the lane area.
    pub open spec fn is_under(&self, lane_idx: usize, pos: int, click: int) -> bool {
        match self.shown_columns(lane_idx, pos) {
            Some((start, end)) => start <= click < end,
            None => false,
        }
    }

    /// Item position within `lane_idx` whose rendered columns cover terminal
    /// column `col`, or the nearest item's position when the click lands on empty
    /// timeline space. `None` only if the lane has no items or the click is left
    /// of the timeline gutter.
    pub fn item_at_col(&self, lane_idx: usize, col: u16) -> (r: Option<usize>)
        ensures
            match r {
                Some(pos) => self.clickable(lane_idx, col) && self.means(
                    lane_idx,
                    col,
                    pos as int,
                ),
                None => !self.clickable(lane_idx, col),
            },
    {
        let lo = &self.lane_layout;
        if lane_idx >= self.lanes.len() {
            return None;
        }
        let lane = &self.lanes[lane_idx];
        let n: usize = lane.item_indices().len();
        if n == 0 {
            return None;
        }
        let x0: u32 = lo.inner_x as u32 + lo.label_width as u32;
        if (col as u32) < x0 || lo.lane_width == 0 {
            return None;
        }
        let click: usize = (col as u32 - x0) as usize;
        let width: usize = lo.lane_width as usize;
        let ts_end = lo.ts_start.plus(lo.time_span);
        let mut nearest: usize = 0;
        let mut nearest_dist: usize = usize::MAX;
        let mut found: bool = false;
        let mut pos: usize = 0;
        while pos < n
            invariant
                pos <= n,
                n > 0,
                *lo == self.lane_layout,
                lane_idx < self.lanes@.len(),
                *lane == self.lanes@[lane_idx as int],
                n == lane@.items.len(),
                self.clickable(lane_idx, col),
                click == col - (lo.inner_x + lo.label_width),
                width == lo.lane_width,
                ts_end == lo.ts_start.plus_spec(lo.time_span),
                forall|q: int|
                    0 <= q < pos ==> !#[trigger] self.is_under(lane_idx, q, click as int),
                found ==> nearest < pos && self.shown_columns(lane_idx, nearest as int) is Some
                    && nearest_dist == Self::distance(
                    self.shown_columns(lane_idx, nearest as int)->0,
                    click as int,
                ) && nearest_dist <= 0x2_0000,
                !found ==> nearest == 0 && nearest_dist == usize::MAX,
                forall|q: int|
                    0 <= q < pos && (#[trigger] self.shown_columns(lane_idx, q)) is Some ==> {
                        let other = Self::distance(
                            self.shown_columns(lane_idx, q)->0,
                            click as int,
                        );
                        found && nearest_dist <= other && (q < nearest ==> nearest_dist < other)
                    },
            decreases n - pos,
        {
            let (start, end) = self.item_render_span(lane, pos);
            let span = kernel_columns(start, end, lo.ts_start, ts_end, width);
            assert(span == self.shown_columns(lane_idx, pos as int));
            if let Some((s, e)) = span {
                if click >= s && click < e {
                    assert(self.is_under(lane_idx, pos as int, click as int));
                    return Some(pos);
                }
                let center: usize = (s + e) / 2;
                let dist: usize = if center >= click {
                    center - click
                } else {
                    click - center
                };
                assert(dist == Self::distance((s, e), click as int));
                if dist < nearest_dist {
                    nearest_dist = dist;
                    nearest = pos;
                    found = true;
                }
            }
            pos += 1;
        }
        Some(nearest)
    }

    /// This state with lane `lane_idx` active and the selection moved back into
    /// it.
    pub open spec fn with_lane(self, lane_idx: usize) -> App<T> {
        let moved = App { active_lane: lane_idx, ..self };
        App { selected_item: moved.clamped(self.selected_item), ..moved }
    }

    /// Handles a left click at terminal `(col, row)`. A click in a lane's timeline
    /// selects the item under (or nearest to) the cursor; a click in the label
    /// gutter just activates that lane. Returns whether anything was selected.
    pub fn click_select(&mut self, col: u16, row: u16) -> (r: bool)
        ensures
            match old(self).row_lane(row) {
                None => !r && *final(self) == *old(self),
                Some(lane_idx) => r && if old(self).clickable(lane_idx, col) {
                    &&& *final(self) == (App {
                        active_lane: lane_idx,
                        selected_item: final(self).selected_item,
                        ..*old(self)
                    })
                    &&& old(self).means(lane_idx, col, final(self).selected_item as int)
                } else {
                    *final(self) == old(self).with_lane(lane_idx)
                },
            },
    {
        let lane_idx: usize = match self.lane_at_row(row) {
            Some(l) => l,
            None => {
                return false;
            },
        };
        let hit: Option<usize> = self.item_at_col(lane_idx, col);
        self.active_lane = lane_idx;
        match hit {
            Some(pos) => {
                self.selected_item = pos;
            },
            None => {
                self.clamp_selected_item();
            },
        }
        true
    }
}

/// The selected item of the active lane owns every column that it covers.
pub proof fn the_selection_owns_its_columns<T: Scalar>(
    app: App<T>,
    lane: LaneView,
    ts_start: T,
    ts_end: T,
    width: usize,
    diff_active: bool,
    col: int,
    cell: Option<(ColumnClass, usize)>,
)
    requires
        app.selected_item < lane.items.len(),
        app.covers(lane, app.selected_item as int, ts_start, ts_end, width, col),
        app.wins(
            app.active_lane,
            lane,
            ts_start,
            ts_end,
            width,
            diff_active,
            lane.items.len() as int,
            col,
            cell,
        ),
    ensures
        cell == Some((ColumnClass::Selected, app.selected_item)),
{
}

/// A kernel that stands in one trace only is never hidden behind matched ones:
/// a column that it covers is not drawn as matched.
pub proof fn matched_kernels_hide_no_difference<T: Scalar>(
    app: App<T>,
    lane_idx: usize,
    lane: LaneView,
    ts_start: T,
    ts_end: T,
    width: usize,
    pos: int,
    col: int,
    cell: Option<(ColumnClass, usize)>,
)
    requires
        0 <= pos < lane.items.len(),
        app.diff_of(lane.items[pos] as int) is Some,
        app.covers(lane, pos, ts_start, ts_end, width, col),
        app.wins(
            lane_idx,
            lane,
            ts_start,
            ts_end,
            width,
            true,
            lane.items.len() as int,
            col,
            cell,
        ),
    ensures
        cell matches Some((class, _)) && class != ColumnClass::Matched,
{
}

/// Only one cell fits a column.
pub proof fn columns_are_settled<T: Scalar>(
    app: App<T>,
    lane_idx: usize,
    lane: LaneView,
    ts_start: T,
    ts_end: T,
    width: usize,
    diff_active: bool,
    n: int,
    col: int,
    a: Option<(ColumnClass, usize)>,
    b: Option<(ColumnClass, usize)>,
)
    requires
        app.wins(lane_idx, lane, ts_start, ts_end, width, diff_active, n, col, a),
        app.wins(lane_idx, lane, ts_start, ts_end, width, diff_active, n, col, b),
    ensures
        a == b,
{
}

} // verus!
