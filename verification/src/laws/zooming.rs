//! The shared time window.
use vstd::prelude::*;
use crate::app::App;
use crate::scalar::{self, Scalar};

verus! {

/// For numbers that count like reals and have halves, the visible window is as wide as the whole span
/// over the zoom level, a thousandth at least; it lies around the middle of the selected
/// item wherever it does not run over the bounds of the time axis, and is moved to start
/// at the earlier bound where it would start before it.
pub proof fn the_window_is_as_wide_as_the_zoom_level_says<T: Scalar>(app: App<T>)
    requires
        scalar::counts_like_reals::<T>(),
        scalar::halves_exactly::<T>(),
    ensures
        ({
            let (first, last) = app.time_bounds();
            let (from, to) = app.visible_window();
            let span = last.minus_spec(first);
            let share = span.over_spec(app.zoom_level);
            let least = T::ratio_spec(1, 1000);
            let width = to.minus_spec(from);
            &&& T::whole_spec(1).at_most_spec(span) && least.at_most_spec(share) ==> width == share
            &&& T::whole_spec(1).at_most_spec(span) && share.at_most_spec(least) ==> width == least
            &&& app.selected_center() matches Some(c) ==> {
                let left = c.minus_spec(width.over_spec(T::whole_spec(2)));
                &&& first.at_most_spec(left) ==> from == left
                &&& left.at_most_spec(first) ==> from == first
            }
            &&& app.selected_center() is None ==> {
                let total = if T::whole_spec(1).at_most_spec(span) {
                    span
                } else {
                    T::whole_spec(1)
                };
                let left = first.plus_spec(total.over_spec(T::whole_spec(2))).minus_spec(
                    width.over_spec(T::whole_spec(2)),
                );
                &&& first.at_most_spec(left) ==> from == left
                &&& left.at_most_spec(first) ==> from == first
            }
        }),
{
    let zero = T::whole_spec(0);
    let one = T::whole_spec(1);
    let two = T::whole_spec(2);
    let (g_start, g_end) = app.time_bounds();
    let span = g_end.minus_spec(g_start);
    let total = span.larger_spec(one);
    assert(one.at_most_spec(span) || span.at_most_spec(one));
    assert(one.at_most_spec(span) ==> total == span);
    let part = T::ratio_spec(1, 1000);
    let share = total.over_spec(app.zoom_level);
    let visible = share.larger_spec(part);
    assert(share.at_most_spec(part) || part.at_most_spec(share));
    let center = match app.selected_center() {
        Some(c) => c,
        None => g_start.plus_spec(total.over_spec(two)),
    };
    let half = visible.over_spec(two);
    let left = center.minus_spec(half);
    let right = center.plus_spec(half);
    let start = left.larger_spec(g_start);
    let end = right.smaller_spec(g_end);
    let to = start.plus_spec(visible);
    assert(left.at_most_spec(g_start) || g_start.at_most_spec(left));
    assert(left.at_most_spec(start)) by {
        assert(left.at_most_spec(left));
    }
    assert(right.at_most_spec(right) && right.at_most_spec(g_end) || g_end.at_most_spec(right));
    assert(end.at_most_spec(right));
    assert(half.plus_spec(half) == visible);
    assert(half.plus_spec(left) == center);
    scalar::sums_group_freely(half, left, half);
    scalar::sums_group_freely(left, half, half);
    assert(right == left.plus_spec(visible));
    assert(left.plus_spec(visible).at_most_spec(to));
    assert(end.at_most_spec(to));
    assert(to.at_most_spec(to));
    assert(end.larger_spec(to) == to);
    assert(app.visible_window() == (start, to));
    assert(to.minus_spec(start) == visible);
}

} // verus!
