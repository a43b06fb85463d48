//! What keys do, and how they undo each other.
use vstd::prelude::*;
use crate::app::navigation;
use crate::app::App;
use crate::input::{self, Action, Key};
use crate::lane::{AlignMode, LaneView};
use crate::scalar::{self, Scalar};
use crate::text;

verus! {

/// Whether neither the sequence popup nor a search takes the keys.
pub open spec fn in_main_view<T>(app: App<T>) -> bool {
    app.sequence is None && !app.search_active
}

/// Whether two states hold the same events, in the same lanes and at the same places.
pub open spec fn same_events<T>(a: App<T>, b: App<T>) -> bool {
    &&& a.kernels == b.kernels
    &&& a.annotations == b.annotations
    &&& a.streams == b.streams
    &&& a.lanes == b.lanes
    &&& a.traces == b.traces
    &&& a.kernel_render_overrides == b.kernel_render_overrides
    &&& a.annotation_render_overrides == b.annotation_render_overrides
    &&& a.kernel_diff_status == b.kernel_diff_status
    &&& a.align_mode == b.align_mode
}

/// Whether two states select the same item.
pub open spec fn same_selection<T>(a: App<T>, b: App<T>) -> bool {
    a.active_lane == b.active_lane && a.selected_item == b.selected_item
}

/// Whether two states show the same search.
pub open spec fn same_search<T>(a: App<T>, b: App<T>) -> bool {
    &&& a.search_active == b.search_active
    &&& a.search_query == b.search_query
    &&& a.search_no_match == b.search_no_match
    &&& a.search_matches == b.search_matches
    &&& a.search_match_idx == b.search_match_idx
}

/// Every key clears the status line, unless an export just failed; no key but the mode
/// key moves or changes an event, and nothing but the quit keys of the main view ends the
/// program.
pub proof fn keys_leave_the_events_alone<T: Scalar>(
    before: App<T>,
    key: Key,
    height: usize,
    after: App<T>,
    action: Action,
)
    requires
        input::key_step(before, key, height, after, action),
    ensures
        after.kernels == before.kernels,
        after.annotations == before.annotations,
        after.lanes == before.lanes,
        after.traces == before.traces,
        !(in_main_view(before) && (key == Key::Char('g') || key == Key::Char('G')))
            ==> same_events(before, after),
        !(in_main_view(before) && (key == Key::Char('e') || key == Key::Char('E')))
            ==> after.status is None,
        action is Quit <==> in_main_view(before) && (key == Key::Char('q') || key == Key::Char('Q')
            || key == Key::Esc),
        action is Copy <==> before.sequence is Some && (key == Key::Char('y') || key == Key::Char(
            'Y',
        )),
        action is Export ==> in_main_view(before) && (key == Key::Char('e') || key == Key::Char(
            'E',
        )),
{
}

/// `A` and Left select the item before the selected one, `D` and Right the one behind it;
/// both stop at the ends of the lane and keep everything else.
pub proof fn item_keys_walk_the_lane<T: Scalar>(
    before: App<T>,
    key: Key,
    height: usize,
    after: App<T>,
    action: Action,
)
    requires
        input::key_step(before, key, height, after, action),
        in_main_view(before),
        before.active_lane < before.lanes@.len(),
        before.selected_item < before.lanes@[before.active_lane as int]@.items.len() <= usize::MAX,
    ensures
        ({
            let n = before.lanes@[before.active_lane as int]@.items.len();
            let back = key == Key::Char('a') || key == Key::Char('A') || key == Key::Left;
            let on = key == Key::Char('d') || key == Key::Char('D') || key == Key::Right;
            &&& back || on ==> action is Stay && after.active_lane == before.active_lane
                && after.zoom_level == before.zoom_level && same_search(before, after)
                && after.sequence is None
            &&& back && before.selected_item > 0 ==> after.selected_item + 1
                == before.selected_item
            &&& back && before.selected_item == 0 ==> after.selected_item == 0
            &&& on && before.selected_item + 1 < n ==> after.selected_item
                == before.selected_item + 1
            &&& on && before.selected_item + 1 == n ==> after.selected_item
                == before.selected_item
        }),
{
}

/// The item key on and then the item key back lead to the item that was selected, unless
/// it was the last.
pub proof fn item_keys_undo_each_other<T: Scalar>(
    a: App<T>,
    b: App<T>,
    c: App<T>,
    height: usize,
    x: Action,
    y: Action,
)
    requires
        in_main_view(a),
        a.active_lane < a.lanes@.len(),
        a.selected_item + 1 < a.lanes@[a.active_lane as int]@.items.len() <= usize::MAX,
        input::key_step(a, Key::Char('d'), height, b, x),
        input::key_step(b, Key::Char('a'), height, c, y),
    ensures
        same_selection(a, c),
        !same_selection(a, b),
{
}

/// Whether taking a number half as much again is what the ratio of three to two does, and
/// a division by it undoes that.
pub open spec fn halves_by_ratio<T: Scalar>() -> bool {
    &&& forall|a: T| #[trigger] a.times_spec(T::ratio_spec(15, 10)) == a.plus_spec(
        a.over_spec(T::whole_spec(2)),
    )
    &&& forall|a: T|
        (#[trigger] a.times_spec(T::ratio_spec(15, 10))).over_spec(T::ratio_spec(15, 10)) == a
}

/// `W` and Up zoom in by half as much again, `S` and Down zoom out again, though not
/// below a tenth; the selection stays.
pub proof fn zoom_keys_zoom<T: Scalar>(
    before: App<T>,
    key: Key,
    height: usize,
    after: App<T>,
    action: Action,
)
    requires
        scalar::counts_like_reals::<T>(),
        halves_by_ratio::<T>(),
        input::key_step(before, key, height, after, action),
        in_main_view(before),
    ensures
        ({
            let closer = key == Key::Char('w') || key == Key::Char('W') || key == Key::Up;
            let back = key == Key::Char('s') || key == Key::Char('S') || key == Key::Down;
            &&& closer || back ==> action is Stay && same_selection(before, after) && same_search(
                before,
                after,
            ) && after.sequence is None
            &&& closer ==> after.zoom_level == before.zoom_level.plus_spec(
                before.zoom_level.over_spec(T::whole_spec(2)),
            )
            &&& back ==> T::ratio_spec(1, 10).at_most_spec(after.zoom_level)
            &&& back ==> forall|z: T|
                before.zoom_level == #[trigger] z.plus_spec(z.over_spec(T::whole_spec(2)))
                    && T::ratio_spec(1, 10).at_most_spec(z) ==> after.zoom_level == z
            &&& !closer && !back ==> after.zoom_level == before.zoom_level
        }),
{
    let least = T::ratio_spec(1, 10);
    let out = before.zoom_level.over_spec(T::ratio_spec(15, 10));
    assert(least.at_most_spec(least));
    assert(least.at_most_spec(out) || out.at_most_spec(least));
    assert forall|z: T|
        before.zoom_level == #[trigger] z.plus_spec(z.over_spec(T::whole_spec(2)))
            && least.at_most_spec(z) implies out.larger_spec(least) == z by {
        assert(z.times_spec(T::ratio_spec(15, 10)) == before.zoom_level);
        assert(out == z);
        if z.at_most_spec(least) {
            assert(z == least);
        }
    }
}

/// Zooming in and then out leads back, unless a tenth had been undercut.
pub proof fn zoom_keys_undo_each_other<T: Scalar>(
    a: App<T>,
    b: App<T>,
    c: App<T>,
    height: usize,
    x: Action,
    y: Action,
)
    requires
        scalar::counts_like_reals::<T>(),
        halves_by_ratio::<T>(),
        in_main_view(a),
        T::ratio_spec(1, 10).at_most_spec(a.zoom_level),
        input::key_step(a, Key::Char('w'), height, b, x),
        input::key_step(b, Key::Char('s'), height, c, y),
    ensures
        c.zoom_level == a.zoom_level,
{
    zoom_keys_zoom(a, Key::Char('w'), height, b, x);
    zoom_keys_zoom(b, Key::Char('s'), height, c, y);
    assert(b.zoom_level == a.zoom_level.plus_spec(a.zoom_level.over_spec(T::whole_spec(2))));
}

/// Where an item of a lane is drawn.
pub open spec fn drawn_start<T: Scalar>(app: App<T>, lane: LaneView, pos: int) -> T {
    let i = lane.items[pos] as int;
    if lane.annotations {
        match app.annotation_render_overrides@[i] {
            Some(span) => span.0,
            None => app.annotations@[i].ts,
        }
    } else {
        match app.kernel_render_overrides@[i] {
            Some(start) => start,
            None => app.kernels@[i].ts,
        }
    }
}

/// Whether every item of a lane is an event that has its place.
pub open spec fn items_exist<T: Scalar>(app: App<T>, lane: LaneView) -> bool {
    forall|p: int|
        0 <= p < lane.items.len() ==> (#[trigger] lane.items[p]) < if lane.annotations {
            app.annotations@.len()
        } else {
            app.kernels@.len()
        }
}

proof fn lemma_drawn_start<T: Scalar>(app: App<T>, lane: LaneView, pos: int)
    requires
        app.consistent(),
        items_exist(app, lane),
        0 <= pos < lane.items.len(),
    ensures
        app.item_start(lane, pos) == Some(drawn_start(app, lane, pos)),
{
    assert(lane.items[pos] < if lane.annotations {
        app.annotations@.len()
    } else {
        app.kernels@.len()
    });
}

/// Tab leads to the next lane and Shift+Tab to the previous one, in a ring. The selection
/// jumps to the item that is drawn nearest in time to the one selected before, the first
/// of those.
pub proof fn lane_keys_go_round_and_stay_in_time<T: Scalar>(
    before: App<T>,
    key: Key,
    height: usize,
    after: App<T>,
    action: Action,
    q: int,
)
    requires
        scalar::ordered_totally::<T>(),
        input::key_step(before, key, height, after, action),
        in_main_view(before),
        before.consistent(),
        key == Key::Tab || key == Key::BackTab,
        1 < before.lanes@.len(),
        before.active_lane < before.lanes@.len() <= usize::MAX,
        forall|l: int|
            0 <= l < before.lanes@.len() ==> items_exist(before, (#[trigger] before.lanes@[l])@)
                && before.lanes@[l]@.items.len() <= usize::MAX,
        before.selected_item < before.lanes@[before.active_lane as int]@.items.len(),
        ({
            let lane = before.lanes@[after.active_lane as int]@;
            let from = drawn_start(
                before,
                before.lanes@[before.active_lane as int]@,
                before.selected_item as int,
            );
            0 <= q < lane.items.len() && drawn_start(before, lane, q).minus_spec(
                from,
            ).magnitude_spec().less_spec(T::largest_spec())
        }),
    ensures
        action is Stay,
        key == Key::Tab ==> after.active_lane == if before.active_lane + 1 < before.lanes@.len() {
            before.active_lane + 1
        } else {
            0
        },
        key == Key::BackTab ==> after.active_lane == if before.active_lane > 0 {
            before.active_lane - 1
        } else {
            before.lanes@.len() - 1
        },
        ({
            let lane = before.lanes@[after.active_lane as int]@;
            let from = drawn_start(
                before,
                before.lanes@[before.active_lane as int]@,
                before.selected_item as int,
            );
            let chosen = drawn_start(before, lane, after.selected_item as int).minus_spec(
                from,
            ).magnitude_spec();
            let other = drawn_start(before, lane, q).minus_spec(from).magnitude_spec();
            &&& after.selected_item < lane.items.len()
            &&& chosen.at_most_spec(other)
            &&& q < after.selected_item ==> chosen.less_spec(other)
        }),
{
    let n = before.lanes@.len() as int;
    let a = before.active_lane as int;
    let cleared = App { status: None, ..before };
    navigation::lanes_are_a_ring(a, n);
    if a + 1 < n {
        vstd::arithmetic::div_mod::lemma_small_mod((a + 1) as nat, n as nat);
    } else {
        vstd::arithmetic::div_mod::lemma_mod_self_0(n);
    }
    if a > 0 {
        vstd::arithmetic::div_mod::lemma_mod_add_multiples_vanish(a - 1, n);
        vstd::arithmetic::div_mod::lemma_small_mod((a - 1) as nat, n as nat);
    } else {
        vstd::arithmetic::div_mod::lemma_small_mod((n - 1) as nat, n as nat);
    }
    let lane = before.lanes@[after.active_lane as int]@;
    let own = before.lanes@[a]@;
    assert(items_exist(before, lane));
    assert(items_exist(before, own));
    lemma_drawn_start(before, own, before.selected_item as int);
    let from = drawn_start(before, own, before.selected_item as int);
    assert(cleared.item_start(own, before.selected_item as int) == before.item_start(
        own,
        before.selected_item as int,
    ));
    assert(cleared.selected_start() == Some(from));
    let moved = App { active_lane: after.active_lane, ..cleared };
    let starts = moved.item_starts(lane);
    assert forall|p: int| 0 <= p < lane.items.len() implies #[trigger] starts[p] == Some(
        drawn_start(before, lane, p),
    ) by {
        lemma_drawn_start(before, lane, p);
        assert(moved.item_start(lane, p) == before.item_start(lane, p));
    }
    assert(starts[q] == Some(drawn_start(before, lane, q)));
    navigation::nearest_start_is_nearest(starts, from, lane.items.len() as int, q);
    let pos = navigation::nearest_start(starts, from, lane.items.len() as int).0;
    assert(starts[pos] == Some(drawn_start(before, lane, pos)));
    assert(after.selected_item == pos as usize);
}

/// `G` toggles between diff and normal mode where exactly two traces are open, and does
/// nothing otherwise; pressing it twice leads back to the mode it started in.
pub proof fn the_mode_key_toggles<T: Scalar>(
    a: App<T>,
    b: App<T>,
    c: App<T>,
    height: usize,
    x: Action,
    y: Action,
)
    requires
        in_main_view(a),
        input::key_step(a, Key::Char('g'), height, b, x),
        input::key_step(b, Key::Char('G'), height, c, y),
    ensures
        x is Stay && y is Stay,
        a.traces@.len() == 2 ==> (a.align_mode == AlignMode::Diff <==> b.align_mode
            == AlignMode::Normal) && c.align_mode == a.align_mode,
        a.traces@.len() != 2 ==> b.align_mode == a.align_mode && same_events(a, b),
        same_selection(a, b),
        b.zoom_level == a.zoom_level,
{
}

/// `/` starts a search with nothing in it. While it runs, characters are added to the
/// query and Backspace takes the last one off, whatever they do elsewhere; Tab ends it on
/// the match it has reached, and Esc ends it and forgets it.
pub proof fn search_keys_make_the_query<T: Scalar>(
    before: App<T>,
    key: Key,
    height: usize,
    after: App<T>,
    action: Action,
)
    requires
        input::key_step(before, key, height, after, action),
        before.sequence is None,
    ensures
        !before.search_active && key == Key::Char('/') ==> after.search_active
            && after.search_query@.len() == 0 && after.search_matches@.len() == 0
            && !after.search_no_match && same_selection(before, after),
        !before.search_active && key != Key::Char('/') ==> !after.search_active,
        before.search_active ==> action is Stay && after.zoom_level == before.zoom_level
            && after.sequence is None,
        before.search_active ==> (key matches Key::Char(c) ==> after.search_active
            && after.search_query@ == before.search_query@.push(c)),
        before.search_active && key == Key::Backspace ==> after.search_active
            && after.search_query@ == if before.search_query@.len() > 0 {
            before.search_query@.drop_last()
        } else {
            before.search_query@
        },
        before.search_active && key == Key::Tab ==> !after.search_active && same_selection(
            before,
            after,
        ) && after.search_query == before.search_query && after.search_matches
            == before.search_matches,
        before.search_active && key == Key::Esc ==> !after.search_active
            && after.search_query@.len() == 0 && after.search_matches@.len() == 0
            && same_selection(before, after),
{
}

/// Enter leads from match to match and Shift+Enter back, in a ring, and each match is
/// selected when it is reached.
pub proof fn enter_goes_through_the_matches<T: Scalar>(
    before: App<T>,
    shift: bool,
    height: usize,
    after: App<T>,
    action: Action,
)
    requires
        input::key_step(before, Key::Enter { shift }, height, after, action),
        before.sequence is None,
        before.search_active,
        before.search_match_idx < before.search_matches@.len() <= usize::MAX,
    ensures
        ({
            let n = before.search_matches@.len();
            &&& after.search_active
            &&& after.search_matches == before.search_matches
            &&& after.search_query == before.search_query
            &&& !shift ==> after.search_match_idx == if before.search_match_idx + 1 < n {
                before.search_match_idx + 1
            } else {
                0
            }
            &&& shift ==> after.search_match_idx == if before.search_match_idx > 0 {
                before.search_match_idx - 1
            } else {
                n - 1
            }
            &&& (after.active_lane, after.selected_item)
                == before.search_matches@[after.search_match_idx as int]
        }),
{
    let n = before.search_matches@.len() as int;
    let a = before.search_match_idx as int;
    if a + 1 < n {
        vstd::arithmetic::div_mod::lemma_small_mod((a + 1) as nat, n as nat);
    } else {
        vstd::arithmetic::div_mod::lemma_mod_self_0(n);
    }
    if a > 0 {
        vstd::arithmetic::div_mod::lemma_mod_add_multiples_vanish(a - 1, n);
        vstd::arithmetic::div_mod::lemma_small_mod((a - 1) as nat, n as nat);
    } else {
        vstd::arithmetic::div_mod::lemma_small_mod((n - 1) as nat, n as nat);
    }
}

/// The popup keys: Esc and `N` close it, the arrows scroll a row and the page keys a
/// viewport, within its rows, and `Y` copies it. Nothing else happens while it is open.
pub proof fn popup_keys_scroll_and_close<T: Scalar>(
    before: App<T>,
    key: Key,
    height: usize,
    after: App<T>,
    action: Action,
)
    requires
        input::key_step(before, key, height, after, action),
        before.sequence matches Some(seq) && seq.rows@.len() <= usize::MAX,
    ensures
        same_selection(before, after),
        after.zoom_level == before.zoom_level,
        same_search(before, after),
        (key == Key::Esc || key == Key::Char('n') || key == Key::Char('N')) <==> after.sequence is None,
        after.sequence matches Some(seq) ==> {
            let old_seq = before.sequence->0;
            let n = old_seq.rows@.len();
            let shown = crate::panels::viewport_of(
                height as int,
                before.sequence_status is Some,
            );
            &&& seq.rows == old_seq.rows
            &&& seq.median == old_seq.median
            &&& seq.reps_found == old_seq.reps_found
            &&& key == Key::Up ==> seq.scroll == if old_seq.scroll > 0 {
                old_seq.scroll - 1
            } else {
                0
            }
            &&& key == Key::PageUp ==> seq.scroll == if old_seq.scroll > shown {
                old_seq.scroll - shown
            } else {
                0
            }
            &&& key == Key::Down || key == Key::PageDown ==> {
                let to = old_seq.scroll + if key == Key::Down {
                    1
                } else {
                    shown
                };
                &&& to + shown <= n ==> seq.scroll == to
                &&& to + shown > n ==> seq.scroll == 0 || seq.scroll + shown == n
                &&& seq.scroll == 0 ==> to == 0 || n <= shown
            }
            &&& !(key == Key::Up || key == Key::Down || key == Key::PageUp || key
                == Key::PageDown) ==> seq.scroll == old_seq.scroll
        },
{
}

/// The export key writes the table of the active lane of kernels to a file named after its
/// stream and, where several traces are open, its trace. A lane of annotations is not
/// exported, and the status line says so.
pub proof fn exports_go_to_a_file_of_their_own<T: Scalar>(
    before: App<T>,
    key: Key,
    height: usize,
    after: App<T>,
    action: Action,
)
    requires
        input::key_step(before, key, height, after, action),
        in_main_view(before),
        key == Key::Char('e') || key == Key::Char('E'),
        before.active_lane < before.lanes@.len(),
    ensures
        ({
            let lane = before.lanes@[before.active_lane as int]@;
            let stream = "lane-cuda"@ + text::decimal_text(lane.stream_id as nat);
            &&& lane.annotations ==> action is Stay && after.status is Some
            &&& !lane.annotations ==> action is Export && same_selection(before, after)
            &&& action matches Action::Export { file_name, csv } ==> {
                &&& before.traces@.len() <= 1 ==> file_name@ == stream + ".csv"@
                &&& before.traces@.len() > 1 ==> file_name@ == stream + "-trace"@
                    + text::decimal_text(lane.trace_id as nat) + ".csv"@
                &&& csv@
                    == "idx,annotation,stage,name,ts,dur,end_ts,stream,device,grid,block,shared_memory,registers_per_thread,correlation\n"@
                    + before.lane_lines(lane.items, lane.items.len() as int)
            }
        }),
{
    let cleared = App { status: None, ..before };
    lemma_same_lines(before, cleared, before.lanes@[before.active_lane as int]@.items, before.lanes@[
        before.active_lane as int
    ]@.items.len() as int);
}

proof fn lemma_same_lines<T: Scalar>(a: App<T>, b: App<T>, items: Seq<usize>, n: int)
    requires
        a.kernels == b.kernels,
        a.annotations == b.annotations,
    ensures
        a.lane_lines(items, n) == b.lane_lines(items, n),
    decreases n,
{
    if n > 0 {
        lemma_same_lines(a, b, items, n - 1);
    }
}

} // verus!
