//! What the time axis and the list of lanes show.
use vstd::prelude::*;
use crate::app::{export, navigation, App};
use crate::laws::drawing::{drawn_span, items_exist};
use crate::panels::{self, HeaderView};
use crate::scalar::{self, Scalar};
use crate::text;

verus! {

/// Where a kernel is drawn: where it was moved to, else where it is.
pub open spec fn kernel_span<T: Scalar>(app: App<T>, i: int) -> (T, T) {
    let start = match app.kernel_render_overrides@[i] {
        Some(start) => start,
        None => app.kernels@[i].ts,
    };
    (start, start.plus_spec(app.kernels@[i].dur))
}

/// Where an annotation is drawn: where it was moved to, else where it is.
pub open spec fn annotation_span<T: Scalar>(app: App<T>, i: int) -> (T, T) {
    match app.annotation_render_overrides@[i] {
        Some(span) => span,
        None => (app.annotations@[i].ts, app.annotations@[i].ts.plus_spec(app.annotations@[i].dur)),
    }
}

/// Whether some event is drawn from a time on.
pub open spec fn starts_somewhere<T: Scalar>(app: App<T>, t: T) -> bool {
    ||| exists|i: int| 0 <= i < app.kernels@.len() && (#[trigger] kernel_span(app, i)).0 == t
    ||| exists|i: int|
        0 <= i < app.annotations@.len() && (#[trigger] annotation_span(app, i)).0 == t
}

/// Whether some event is drawn up to a time.
pub open spec fn ends_somewhere<T: Scalar>(app: App<T>, t: T) -> bool {
    ||| exists|i: int| 0 <= i < app.kernels@.len() && (#[trigger] kernel_span(app, i)).1 == t
    ||| exists|i: int|
        0 <= i < app.annotations@.len() && (#[trigger] annotation_span(app, i)).1 == t
}

proof fn lemma_least_is_one<T: Scalar>(numbers: Seq<T>, init: T)
    requires
        scalar::picks_by_order::<T>(),
    ensures
        navigation::least(numbers, init) == init || exists|i: int|
            0 <= i < numbers.len() && navigation::least(numbers, init) == #[trigger] numbers[i],
    decreases numbers.len(),
{
    if numbers.len() > 0 {
        let rest = numbers.drop_last();
        lemma_least_is_one(rest, init);
        let before = navigation::least(rest, init);
        let all = navigation::least(numbers, init);
        if all == numbers.last() {
            assert(numbers[numbers.len() - 1] == all);
        } else if before != init {
            let i = choose|i: int| 0 <= i < rest.len() && before == #[trigger] rest[i];
            assert(numbers[i] == all);
        }
    }
}

proof fn lemma_greatest_is_one<T: Scalar>(numbers: Seq<T>, init: T)
    requires
        scalar::picks_by_order::<T>(),
    ensures
        navigation::greatest(numbers, init) == init || exists|i: int|
            0 <= i < numbers.len() && navigation::greatest(numbers, init) == #[trigger] numbers[i],
    decreases numbers.len(),
{
    if numbers.len() > 0 {
        let rest = numbers.drop_last();
        lemma_greatest_is_one(rest, init);
        let before = navigation::greatest(rest, init);
        let all = navigation::greatest(numbers, init);
        if all == numbers.last() {
            assert(numbers[numbers.len() - 1] == all);
        } else if before != init {
            let i = choose|i: int| 0 <= i < rest.len() && before == #[trigger] rest[i];
            assert(numbers[i] == all);
        }
    }
}

/// The time axis reaches from where the first event is drawn to where the last one ends, or
/// to one behind its start where that is later: an event starts at its one end, and all of
/// them lie on it. Without events it reaches from zero to one.
pub proof fn the_axis_reaches_from_the_first_event_to_the_last<T: Scalar>(app: App<T>, i: int)
    requires
        scalar::ordered_totally::<T>(),
        scalar::picks_by_order::<T>(),
        app.consistent(),
    ensures
        ({
            let (first, last) = app.time_bounds();
            let empty = (first, last) == (T::whole_spec(0), T::whole_spec(1));
            &&& app.kernels@.len() == 0 && app.annotations@.len() == 0
                && T::lowest_spec().less_spec(T::largest_spec()) ==> empty
            &&& empty || first == T::largest_spec() || starts_somewhere(app, first)
            &&& empty || last == T::lowest_spec() || last == first.plus_spec(T::whole_spec(1))
                || ends_somewhere(app, last)
            &&& empty || first.plus_spec(T::whole_spec(1)).at_most_spec(last)
            &&& 0 <= i < app.kernels@.len() && !empty ==> first.at_most_spec(kernel_span(app, i).0)
                && kernel_span(app, i).1.at_most_spec(last)
            &&& 0 <= i < app.annotations@.len() && !empty ==> first.at_most_spec(
                annotation_span(app, i).0,
            ) && annotation_span(app, i).1.at_most_spec(last)
        }),
{
    let ks = app.kernel_starts();
    let ke = app.kernel_ends();
    let an = app.annotation_starts();
    let ae = app.annotation_ends();
    assert forall|p: int| 0 <= p < app.kernels@.len() implies (ks[p], ke[p])
        == #[trigger] kernel_span(app, p) by {}
    assert forall|p: int| 0 <= p < app.annotations@.len() implies (an[p], ae[p])
        == #[trigger] annotation_span(app, p) by {}
    let s0 = navigation::least(ks, T::largest_spec());
    let start = navigation::least(an, s0);
    let e0 = navigation::greatest(ke, T::lowest_spec());
    let end = navigation::greatest(ae, e0);
    navigation::lemma_least(ks, T::largest_spec());
    navigation::lemma_least(an, s0);
    navigation::lemma_greatest(ke, T::lowest_spec());
    navigation::lemma_greatest(ae, e0);
    lemma_least_is_one(ks, T::largest_spec());
    lemma_least_is_one(an, s0);
    lemma_greatest_is_one(ke, T::lowest_spec());
    lemma_greatest_is_one(ae, e0);
    if start != T::largest_spec() {
        if start != s0 {
            let p = choose|p: int| 0 <= p < an.len() && start == #[trigger] an[p];
            assert(annotation_span(app, p).0 == start);
        } else {
            let p = choose|p: int| 0 <= p < ks.len() && s0 == #[trigger] ks[p];
            assert(kernel_span(app, p).0 == start);
        }
        assert(starts_somewhere(app, start));
    }
    if end != T::lowest_spec() {
        if end != e0 {
            let p = choose|p: int| 0 <= p < ae.len() && end == #[trigger] ae[p];
            assert(annotation_span(app, p).1 == end);
        } else {
            let p = choose|p: int| 0 <= p < ke.len() && e0 == #[trigger] ke[p];
            assert(kernel_span(app, p).1 == end);
        }
        assert(ends_somewhere(app, end));
    }
    let one = start.plus_spec(T::whole_spec(1));
    assert(end.at_most_spec(one) || one.at_most_spec(end));
    assert(one.at_most_spec(one) && end.at_most_spec(end));
    let last = end.larger_spec(one);
    assert(end.at_most_spec(last) && one.at_most_spec(last));
    if 0 <= i < app.kernels@.len() {
        assert((ks[i], ke[i]) == kernel_span(app, i));
        assert(s0.at_most_spec(ks[i]));
        assert(ke[i].at_most_spec(e0));
        assert(ke[i].at_most_spec(end));
    }
    if 0 <= i < app.annotations@.len() {
        assert((an[i], ae[i]) == annotation_span(app, i));
        assert(start.at_most_spec(an[i]));
        assert(ae[i].at_most_spec(end));
    }
}

/// The window is laid around the middle of the selected item: as far behind the item's start
/// as before its end.
pub proof fn the_centre_is_the_middle_of_the_selection<T: Scalar>(app: App<T>)
    requires
        scalar::halves_exactly::<T>(),
        app.consistent(),
        app.active_lane < app.lanes@.len(),
        items_exist(app, app.lanes@[app.active_lane as int]@),
    ensures
        ({
            let lane = app.lanes@[app.active_lane as int]@;
            let span = drawn_span(app, lane, app.selected_item as int);
            &&& app.selected_item >= lane.items.len() ==> app.selected_center() is None
            &&& app.selected_item < lane.items.len() ==> (app.selected_center() matches Some(c)
                && c.plus_spec(c) == span.0.plus_spec(span.1))
        }),
{
    let lane = app.lanes@[app.active_lane as int]@;
    if app.selected_item < lane.items.len() {
        crate::laws::drawing::lemma_takes(
            app,
            lane,
            app.selected_item as int,
            drawn_span(app, lane, app.selected_item as int),
            0,
            0,
        );
    }
}

/// The first lane shown is the one scrolled to, or the last where that lies behind it.
pub proof fn the_first_lane_shown_exists<T: Scalar>(app: App<T>)
    ensures
        app.lanes@.len() > 0 ==> 0 <= panels::first_shown(app) < app.lanes@.len(),
        app.lane_view_offset < app.lanes@.len() ==> panels::first_shown(app)
            == app.lane_view_offset,
        app.lanes@.len() > 0 && app.lane_view_offset >= app.lanes@.len() ==> panels::first_shown(
            app,
        ) == app.lanes@.len() - 1,
{
}

/// The lane opened for a stream is the first that shows kernels of that stream.
pub proof fn the_lane_of_a_stream_is_its_first(
    lanes: Seq<crate::lane::Lane>,
    stream: u64,
    from: int,
)
    requires
        0 <= from <= lanes.len(),
    ensures
        ({
            let l = export::kernel_lane_from(lanes, stream, from);
            &&& from <= l <= lanes.len()
            &&& l < lanes.len() ==> lanes[l]@.stream_id == stream && !lanes[l]@.annotations
            &&& forall|k: int|
                from <= k < l ==> (#[trigger] lanes[k])@.stream_id != stream
                    || lanes[k]@.annotations
        }),
    decreases lanes.len() - from,
{
    if from < lanes.len() && !(!lanes[from]@.annotations && lanes[from]@.stream_id == stream) {
        the_lane_of_a_stream_is_its_first(lanes, stream, from + 1);
    }
}

/// The header tells a status before anything else. During a search it shows the query with
/// a cursor behind it, and the number of the match among all of them. Otherwise it names the
/// keys, the mode key only where there is something to compare.
pub proof fn the_header_tells_status_then_search_then_keys<T: Scalar>(app: App<T>)
    ensures
        match app.status {
            Some(s) => panels::header_of(app) == HeaderView::Status(s@),
            None => if app.search_active {
                panels::header_of(app) matches HeaderView::Search { query, failed, note }
                    && query.drop_last() == app.search_query@ && failed == app.search_no_match
                    && note == panels::search_note(app)
            } else {
                panels::header_of(app) is Help
            },
        },
        !app.search_no_match && app.search_matches@.len() > 0 ==> text::occurs_at(
            panels::search_note(app),
            text::decimal_text((app.search_match_idx + 1) as nat) + "/"@ + text::decimal_text(
                app.search_matches@.len(),
            ),
            2,
        ),
        app.search_no_match ==> panels::search_note(app) == "  (no match)"@,
{
    if app.status is None && app.search_active {
        assert(app.search_query@.push('\u{2588}').drop_last() == app.search_query@);
    }
    if !app.search_no_match && app.search_matches@.len() > 0 {
        reveal_strlit("  ");
        let count = text::decimal_text((app.search_match_idx + 1) as nat) + "/"@
            + text::decimal_text(app.search_matches@.len());
        let note = panels::search_note(app);
        assert(note.subrange(2, 2 + count.len() as int) == count);
    }
}

} // verus!
