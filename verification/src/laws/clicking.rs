//! What the mouse does.
use vstd::prelude::*;
use crate::app::App;
use crate::input::{self, Mouse};
use crate::laws::drawing::{self, columns_taken, items_exist, takes};
use crate::laws::keys::{halves_by_ratio, same_events, same_search, same_selection};
use crate::scalar::{self, Scalar};

verus! {

/// The times between which the lanes were last drawn.
pub open spec fn drawn_window<T: Scalar>(app: App<T>) -> (T, T) {
    (app.lane_layout.ts_start, app.lane_layout.ts_start.plus_spec(app.lane_layout.time_span))
}

/// Whether a click hits the row of a lane.
pub open spec fn hits<T>(app: App<T>, row: u16, lane: int) -> bool {
    let lo = app.lane_layout;
    lo.inner_y <= row < lo.inner_y + lo.inner_h && lane == row - lo.inner_y + lo.view_offset && 0
        <= lane < app.lanes@.len()
}

/// How far the middle of some columns, rounded down to a whole column, is from a column.
pub open spec fn off(cols: (usize, usize), col: int) -> int {
    let middle = (cols.0 + cols.1) / 2;
    if middle < col {
        col - middle
    } else {
        middle - col
    }
}

/// A click makes the lane in its row the active one; outside of the rows of the lanes
/// nothing happens. A click behind the labels selects the first item in the column clicked;
/// where there is none, no item of the lane is nearer to the click than the selected one.
/// A click on the label keeps the position in the lane as far as the lane goes.
pub proof fn a_click_selects_what_is_under_it<T: Scalar>(
    before: App<T>,
    col: u16,
    row: u16,
    after: App<T>,
    l: int,
    q: int,
)
    requires
        input::mouse_step(before, Mouse::Click { col, row }, after),
        before.sequence is None,
        before.consistent(),
        before.lanes@.len() <= usize::MAX,
        0 <= l < before.lanes@.len(),
        items_exist(before, before.lanes@[l]@),
        before.lanes@[l]@.items.len() <= usize::MAX,
    ensures
        same_events(before, after),
        same_search(before, after),
        after.zoom_level == before.zoom_level,
        (forall|k: int| !#[trigger] hits(before, row, k)) ==> after == before,
        hits(before, row, l) ==> after.active_lane == l,
        hits(before, row, l) ==> {
            let lo = before.lane_layout;
            let lane = before.lanes@[l]@;
            let n = lane.items.len();
            let x = col - lo.inner_x - lo.label_width;
            let width = lo.lane_width as usize;
            let window = drawn_window(before);
            let p = after.selected_item as int;
            &&& n > 0 ==> p < n
            &&& n > 0 && x >= 0 && width > 0 && 0 <= q < n && takes(
                before,
                lane,
                q,
                window,
                width,
                x,
            ) ==> takes(before, lane, p, window, width, x) && p <= q
            &&& n > 0 && x >= 0 && width > 0 && 0 <= q < n && columns_taken(
                before,
                lane,
                q,
                window,
                width,
            ) is Some && !takes(before, lane, p, window, width, x) ==> columns_taken(
                before,
                lane,
                p,
                window,
                width,
            ) is Some && off(columns_taken(before, lane, p, window, width)->0, x) <= off(
                columns_taken(before, lane, q, window, width)->0,
                x,
            )
            &&& n > 0 && x < 0 && before.selected_item < n ==> p == before.selected_item
            &&& n > 0 && x < 0 && before.selected_item >= n ==> p == n - 1
        },
{
    let lo = before.lane_layout;
    let lane = before.lanes@[l]@;
    let n = lane.items.len() as int;
    let x = col - lo.inner_x - lo.label_width;
    let width = lo.lane_width as usize;
    let window = drawn_window(before);
    if forall|k: int| !#[trigger] hits(before, row, k) {
        let k = row - lo.inner_y + lo.view_offset;
        assert(!hits(before, row, k));
        assert(before.row_lane(row) is None);
    }
    if hits(before, row, l) {
        assert(before.row_lane(row) == Some(l as usize));
        assert forall|k: int| 0 <= k < n implies #[trigger] before.shown_columns(l as usize, k)
            == columns_taken(before, lane, k, window, width) && before.is_under(l as usize, k, x)
            == takes(before, lane, k, window, width, x) by {
            drawing::lemma_takes(before, lane, k, window, width, x);
        }
        if before.clickable(l as usize, col) {
            assert(before.means(l as usize, col, after.selected_item as int));
            let p = after.selected_item as int;
            assert(before.shown_columns(l as usize, p) == columns_taken(
                before,
                lane,
                p,
                window,
                width,
            ));
            if 0 <= q < n {
                assert(before.shown_columns(l as usize, q) == columns_taken(
                    before,
                    lane,
                    q,
                    window,
                    width,
                ));
                if takes(before, lane, q, window, width, x) {
                    assert(before.is_under(l as usize, q, x));
                }
            }
        }
    }
}

/// The wheel zooms as the zoom keys do: up by half as much again, and down again.
pub proof fn the_wheel_zooms<T: Scalar>(before: App<T>, mouse: Mouse, after: App<T>)
    requires
        scalar::counts_like_reals::<T>(),
        halves_by_ratio::<T>(),
        input::mouse_step(before, mouse, after),
        mouse is WheelUp || mouse is WheelDown,
    ensures
        same_events(before, after),
        same_selection(before, after),
        same_search(before, after),
        before.sequence is Some ==> after == before,
        before.sequence is None && mouse is WheelUp ==> after.zoom_level
            == before.zoom_level.plus_spec(before.zoom_level.over_spec(T::whole_spec(2))),
        before.sequence is None && mouse is WheelDown ==> forall|z: T|
            before.zoom_level == #[trigger] z.plus_spec(z.over_spec(T::whole_spec(2)))
                && T::ratio_spec(1, 10).at_most_spec(z) ==> after.zoom_level == z,
        before.sequence is None && mouse is WheelDown ==> T::ratio_spec(1, 10).at_most_spec(
            after.zoom_level,
        ),
{
    let least = T::ratio_spec(1, 10);
    let out = before.zoom_level.over_spec(T::ratio_spec(15, 10));
    assert(least.at_most_spec(least));
    assert(least.at_most_spec(out) || out.at_most_spec(least));
    assert forall|z: T|
        before.zoom_level == #[trigger] z.plus_spec(z.over_spec(T::whole_spec(2)))
            && least.at_most_spec(z) implies out.larger_spec(least) == z by {
        assert(z.times_spec(T::ratio_spec(15, 10)) == before.zoom_level);
        assert(out == z);
        if z.at_most_spec(least) {
            assert(z == least);
        }
    }
}

} // verus!
