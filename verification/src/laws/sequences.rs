//! Kernel sequences, their repetitions and their medians.
use vstd::prelude::*;
use crate::app::sequence;
use crate::app::{App, Sequence};
use crate::scalar::{self, Scalar};
use crate::sort::{self, SortKey, Totally};
use crate::trace::KernelEvent;

verus! {

/// Whether every item of a lane is a kernel.
pub open spec fn items_are_kernels<T>(kernels: Seq<KernelEvent<T>>, items: Seq<usize>) -> bool {
    forall|p: int| 0 <= p < items.len() ==> #[trigger] items[p] < kernels.len()
}

/// Whether the kernels of a lane from `start` on bear the given names.
pub open spec fn stands_from<T>(
    kernels: Seq<KernelEvent<T>>,
    items: Seq<usize>,
    start: int,
    names: Seq<Seq<char>>,
) -> bool {
    &&& 0 <= start
    &&& start + names.len() <= items.len()
    &&& forall|o: int|
        0 <= o < names.len() ==> kernels[items[start + o] as int].name@ == #[trigger] names[o]
}

/// Whether `reps` are all repetitions of a block of names from `start` on that a reader
/// finds who goes on behind each: the block stands at each of them, they come one behind
/// the other without overlap, and wherever else it stands it overlaps one of them that
/// comes before.
pub open spec fn all_repetitions<T>(
    kernels: Seq<KernelEvent<T>>,
    items: Seq<usize>,
    start: int,
    names: Seq<Seq<char>>,
    reps: Seq<int>,
) -> bool {
    &&& forall|i: int|
        0 <= i < reps.len() ==> start <= #[trigger] reps[i] && stands_from(
            kernels,
            items,
            reps[i],
            names,
        )
    &&& forall|i: int, j: int|
        0 <= i < j < reps.len() ==> #[trigger] reps[i] + names.len() <= #[trigger] reps[j]
    &&& forall|p: int|
        start <= p && #[trigger] stands_from(kernels, items, p, names) ==> exists|i: int|
            0 <= i < reps.len() && #[trigger] reps[i] <= p < reps[i] + names.len()
}

proof fn lemma_block_at<T>(
    kernels: Seq<KernelEvent<T>>,
    items: Seq<usize>,
    start: int,
    names: Seq<Seq<char>>,
)
    requires
        items_are_kernels(kernels, items),
        0 <= start,
    ensures
        sequence::block_at(kernels, items, start, names) == stands_from(
            kernels,
            items,
            start,
            names,
        ),
{
    if sequence::block_at(kernels, items, start, names) {
        assert forall|o: int| 0 <= o < names.len() implies kernels[items[start + o] as int].name@
            == #[trigger] names[o] by {
            assert(sequence::named_at(kernels, items, start + o, names[o]));
        }
    }
    if stands_from(kernels, items, start, names) {
        assert forall|o: int| 0 <= o < names.len() implies #[trigger] sequence::named_at(
            kernels,
            items,
            start + o,
            names[o],
        ) by {
            assert(items[start + o] < kernels.len());
            assert(kernels[items[start + o] as int].name@ == names[o]);
        }
    }
}

/// No repetition is missed: the block of names stands wherever a repetition is found,
/// repetitions do not overlap, and wherever else from the start on the block stands, it
/// overlaps a repetition that was found.
pub proof fn no_repetition_is_missed<T>(
    kernels: Seq<KernelEvent<T>>,
    items: Seq<usize>,
    start: int,
    names: Seq<Seq<char>>,
)
    requires
        items_are_kernels(kernels, items),
        0 <= start,
        0 < names.len(),
    ensures
        all_repetitions(
            kernels,
            items,
            start,
            names,
            sequence::repetitions(kernels, items, start, names),
        ),
    decreases items.len() - start,
{
    let reps = sequence::repetitions(kernels, items, start, names);
    if start + names.len() <= items.len() {
        lemma_block_at(kernels, items, start, names);
        if stands_from(kernels, items, start, names) {
            let rest = sequence::repetitions(kernels, items, start + names.len(), names);
            no_repetition_is_missed(kernels, items, start + names.len(), names);
            assert(reps == seq![start] + rest);
            assert forall|i: int| 0 <= i < reps.len() implies start <= #[trigger] reps[i]
                && stands_from(kernels, items, reps[i], names) by {
                if i > 0 {
                    assert(reps[i] == rest[i - 1]);
                }
            }
            assert forall|i: int, j: int| 0 <= i < j < reps.len() implies #[trigger] reps[i]
                + names.len() <= #[trigger] reps[j] by {
                assert(reps[j] == rest[j - 1]);
                if i > 0 {
                    assert(reps[i] == rest[i - 1]);
                }
            }
            assert forall|p: int|
                start <= p && #[trigger] stands_from(kernels, items, p, names) implies exists|
                i: int,
            |
                0 <= i < reps.len() && #[trigger] reps[i] <= p < reps[i] + names.len() by {
                if p < start + names.len() {
                    assert(reps[0] == start);
                } else {
                    let i = choose|i: int|
                        0 <= i < rest.len() && #[trigger] rest[i] <= p < rest[i] + names.len();
                    assert(reps[i + 1] == rest[i]);
                }
            }
        } else {
            let rest = sequence::repetitions(kernels, items, start + 1, names);
            no_repetition_is_missed(kernels, items, start + 1, names);
            assert(reps == rest);
            assert forall|i: int| 0 <= i < reps.len() implies start <= #[trigger] reps[i]
                && stands_from(kernels, items, reps[i], names) by {
                assert(start + 1 <= rest[i]);
            }
            assert forall|p: int|
                start <= p && #[trigger] stands_from(kernels, items, p, names) implies exists|
                i: int,
            |
                0 <= i < reps.len() && #[trigger] reps[i] <= p < reps[i] + names.len() by {
                assert(p != start);
                let i = choose|i: int|
                    0 <= i < rest.len() && #[trigger] rest[i] <= p < rest[i] + names.len();
                assert(reps[i] == rest[i]);
            }
        }
    }
}

/// The kernel lane that is active.
pub open spec fn active_items<T: Scalar>(app: App<T>) -> Seq<usize> {
    app.lanes@[app.active_lane as int]@.items
}

/// Exactly where a kernel is selected a sequence starts.
pub proof fn sequences_start_at_kernels<T: Scalar>(app: App<T>)
    ensures
        app.can_start_sequence() <==> app.active_lane < app.lanes@.len() && !app.lanes@[
            app.active_lane as int
        ]@.annotations && app.selected_item < active_items(app).len() && active_items(app)[
            app.selected_item as int
        ] < app.kernels@.len(),
{
}

/// A sequence lists the kernels of the active lane from the selected one on, with their
/// names and durations and numbered from one, up to the next kernel of the same name or
/// the end of the lane.
pub proof fn a_sequence_runs_to_the_next_of_its_name<T: Scalar>(app: App<T>, seq: Sequence<T>)
    requires
        app.can_start_sequence(),
        app.starts(seq),
        items_are_kernels(app.kernels@, active_items(app)),
    ensures
        ({
            let items = active_items(app);
            let start = app.selected_item as int;
            let kernel = |o: int| app.kernels@[items[start + o] as int];
            let n = seq.rows@.len() as int;
            &&& 0 < n <= items.len() - start
            &&& forall|o: int|
                0 <= o < n ==> (#[trigger] seq.rows@[o]).0 == o + 1 && seq.rows@[o].1@ == kernel(
                    o,
                ).name@ && seq.rows@[o].2 == kernel(o).dur
            &&& forall|o: int| 0 < o < n ==> (#[trigger] seq.rows@[o]).1@ != seq.rows@[0].1@
            &&& start + n < items.len() ==> kernel(n).name@ == seq.rows@[0].1@
            &&& seq.source_lane == app.active_lane
            &&& seq.source_start == app.selected_item
            &&& seq.scroll == 0
        }),
{
    let items = active_items(app);
    let start = app.selected_item as int;
    let name = sequence::kernel_at(app.kernels@, items, start)->0.name@;
    let end = sequence::next_named(app.kernels@, items, start + 1, name);
    let rows = sequence::block_rows(app.kernels@, items, start, end);
    sequence::the_next_of_a_name_is_the_first(app.kernels@, items, start + 1, name);
    sequence::lemma_block_rows(app.kernels@, items, start, end);
    let bare = choose|bare: Sequence<T>|
        {
            &&& sequence::row_views(bare.rows@) == rows
            &&& bare.median is None
            &&& bare.reps_found == 1
            &&& bare.source_lane == app.active_lane
            &&& bare.source_start == start
            &&& bare.scroll == 0
            &&& #[trigger] app.extended(bare, seq)
        };
    assert(seq.rows@ == bare.rows@);
    assert(sequence::row_views(seq.rows@) == rows);
    assert forall|o: int| 0 <= o < seq.rows@.len() implies (#[trigger] seq.rows@[o]).0 == o + 1
        && seq.rows@[o].1@ == app.kernels@[items[start + o] as int].name@ && seq.rows@[o].2
        == app.kernels@[items[start + o] as int].dur by {
        assert(sequence::row_views(seq.rows@)[o] == rows[o]);
    }
    assert forall|o: int| 0 < o < seq.rows@.len() implies (#[trigger] seq.rows@[o]).1@
        != seq.rows@[0].1@ by {
        assert(!sequence::named_at(app.kernels@, items, start + o, name));
        assert(items[start + o] < app.kernels@.len());
    }
    if end < items.len() {
        assert(sequence::named_at(app.kernels@, items, end, name));
    }
}

/// The names of the rows of a sequence.
pub open spec fn names_of<T>(seq: Sequence<T>) -> Seq<Seq<char>> {
    Seq::new(seq.rows@.len(), |o: int| seq.rows@[o].1@)
}

/// The medians of a sequence are taken over all repetitions of its block in its lane:
/// each row has the median of the durations that its kernel has in them, and they are
/// counted.
pub proof fn medians_cover_every_repetition<T: Scalar>(
    app: App<T>,
    before: Sequence<T>,
    after: Sequence<T>,
) -> (reps: Seq<int>)
    requires
        app.extended(before, after),
        before.rows@.len() > 0,
        before.source_lane < app.lanes@.len(),
        !app.lanes@[before.source_lane as int]@.annotations,
        app.lanes@[before.source_lane as int]@.items.len() <= usize::MAX,
        items_are_kernels(app.kernels@, app.lanes@[before.source_lane as int]@.items),
    ensures
        ({
            let items = app.lanes@[before.source_lane as int]@.items;
            &&& all_repetitions(
                app.kernels@,
                items,
                before.source_start as int,
                names_of(before),
                reps,
            )
            &&& after.rows == before.rows
            &&& after.reps_found == reps.len()
            &&& after.median is Some
            &&& (after.median->0)@.len() == before.rows@.len()
            &&& forall|o: int|
                0 <= o < before.rows@.len() ==> (#[trigger] (after.median->0)@[o]).0@
                    == before.rows@[o].1@ && (after.median->0)@[o].1 == sequence::median(
                    Seq::new(
                        reps.len(),
                        |i: int| app.kernels@[items[reps[i] + o] as int].dur,
                    ),
                )
        }),
{
    let items = app.lanes@[before.source_lane as int]@.items;
    let rows = sequence::row_views(before.rows@);
    let pattern = sequence::row_names(rows);
    let start = before.source_start as int;
    assert(pattern == names_of(before));
    let reps = sequence::repetitions(app.kernels@, items, start, pattern);
    no_repetition_is_missed(app.kernels@, items, start, pattern);
    lemma_few_repetitions(app.kernels@, items, start, pattern);
    let medians = sequence::block_medians(app.kernels@, items, reps, pattern);
    assert(sequence::median_views((after.median->0)@) == medians);
    assert forall|o: int| 0 <= o < before.rows@.len() implies (
    #[trigger] (after.median->0)@[o]).0@ == before.rows@[o].1@ && (after.median->0)@[o].1
        == sequence::median(
        Seq::new(reps.len(), |i: int| app.kernels@[items[reps[i] + o] as int].dur),
    ) by {
        assert(sequence::median_views((after.median->0)@)[o] == medians[o]);
        assert(sequence::durations_at(app.kernels@, items, reps, o) == Seq::new(
            reps.len(),
            |i: int| app.kernels@[items[reps[i] + o] as int].dur,
        ));
    }
    reps
}

proof fn lemma_few_repetitions<T>(
    kernels: Seq<KernelEvent<T>>,
    items: Seq<usize>,
    start: int,
    pattern: Seq<Seq<char>>,
)
    requires
        0 <= start,
    ensures
        start <= items.len() ==> sequence::repetitions(kernels, items, start, pattern).len()
            <= items.len() - start,
        start > items.len() ==> sequence::repetitions(kernels, items, start, pattern).len() == 0,
    decreases items.len() - start,
{
    if pattern.len() > 0 && start + pattern.len() <= items.len() {
        if sequence::block_at(kernels, items, start, pattern) {
            lemma_few_repetitions(kernels, items, start + pattern.len(), pattern);
        } else {
            lemma_few_repetitions(kernels, items, start + 1, pattern);
        }
    }
}

/// Whether the total order of numbers is their order.
pub open spec fn total_order_agrees<T: Scalar>() -> bool {
    forall|a: T, b: T| #[trigger] a.total_less_spec(b) == a.less_spec(b)
}

/// Whether numbers ascend.
pub open spec fn ascends<T: Scalar>(numbers: Seq<T>) -> bool {
    forall|i: int, j: int|
        #![trigger numbers[i], numbers[j]]
        0 <= i < j < numbers.len() ==> numbers[i].at_most_spec(numbers[j])
}

proof fn lemma_finite_among<T: Scalar>(numbers: Seq<T>)
    ensures
        sequence::finite_among(numbers) == numbers.filter(|x: T| x.finite_spec()),
    decreases numbers.len(),
{
    reveal(Seq::filter);
    if numbers.len() > 0 {
        lemma_finite_among(numbers.drop_last());
    }
}

/// For ordered numbers the median is the middle one of the finite numbers when they are
/// put in order, or halfway between the two middle ones; zero where there is none.
pub proof fn the_median_is_the_middle<T: Scalar>(numbers: Seq<T>) -> (sorted: Seq<T>)
    requires
        scalar::ordered_totally::<T>(),
        total_order_agrees::<T>(),
        numbers.len() <= usize::MAX,
    ensures
        sorted.to_multiset() == numbers.filter(|x: T| x.finite_spec()).to_multiset(),
        ascends(sorted),
        sorted.len() % 2 == 1 ==> sequence::median(numbers) == sorted[sorted.len() as int / 2],
        sorted.len() % 2 == 0 && sorted.len() > 0 ==> sequence::median(numbers) == sorted[
            sorted.len() as int / 2 - 1
        ].plus_spec(sorted[sorted.len() as int / 2]).over_spec(T::whole_spec(2)),
        sorted.len() == 0 ==> sequence::median(numbers) == T::whole_spec(0),
{
    let finite = sequence::finite_among(numbers);
    lemma_finite_among(numbers);
    lemma_few_finite(numbers);
    let keys = finite.map_values(|x: T| Totally(x));
    let order = sort::sorted_order(keys);
    let sorted = sequence::in_total_order(finite);
    sort::sorting_rearranges(keys);
    sort::picking_keeps_the_items(finite, order);
    assert(sort::orderly(keys)) by {
        assert forall|i: int, j: int|
            0 <= i < keys.len() && 0 <= j < keys.len() && #[trigger] keys[i].before_spec(
                &keys[j],
            ) implies !keys[j].before_spec(&keys[i]) by {
            assert(finite[i].total_less_spec(finite[j]));
            assert(finite[i].less_spec(finite[j]));
            assert(finite[i].at_most_spec(finite[j]));
            assert(finite[j].total_less_spec(finite[i]) == finite[j].less_spec(finite[i]));
        }
        assert forall|i: int, j: int, k: int|
            #![trigger keys[j].before_spec(&keys[i]), keys[k].before_spec(&keys[j])]
            0 <= i < keys.len() && 0 <= j < keys.len() && 0 <= k < keys.len()
                && !keys[j].before_spec(&keys[i]) && !keys[k].before_spec(
                &keys[j],
            ) implies !keys[k].before_spec(&keys[i]) by {
            assert(finite[j].total_less_spec(finite[i]) == finite[j].less_spec(finite[i]));
            assert(finite[k].total_less_spec(finite[j]) == finite[k].less_spec(finite[j]));
            assert(finite[k].total_less_spec(finite[i]) == finite[k].less_spec(finite[i]));
            assert(finite[i].at_most_spec(finite[j]));
            assert(finite[j].at_most_spec(finite[k]));
            assert(finite[i].at_most_spec(finite[k]));
        }
    }
    sort::sorting_is_stable(keys);
    assert forall|i: int, j: int|
        #![trigger sorted[i], sorted[j]]
        0 <= i < j < sorted.len() implies sorted[i].at_most_spec(sorted[j]) by {
        let a = order[i] as int;
        let b = order[j] as int;
        assert(order[i] != order[j]);
        assert(sort::precedes(keys, order[i], order[j]));
        assert(sorted[i] == finite[a] && sorted[j] == finite[b]);
        assert(finite[a].total_less_spec(finite[b]) == finite[a].less_spec(finite[b]));
        assert(finite[b].total_less_spec(finite[a]) == finite[b].less_spec(finite[a]));
        if !keys[a].before_spec(&keys[b]) {
            assert(!keys[b].before_spec(&keys[a]));
        } else {
            assert(finite[a].less_spec(finite[b]));
        }
    }
    assert(sorted.len() == finite.len());
    sorted
}

proof fn lemma_few_finite<T: Scalar>(numbers: Seq<T>)
    ensures
        sequence::finite_among(numbers).len() <= numbers.len(),
    decreases numbers.len(),
{
    if numbers.len() > 0 {
        lemma_few_finite(numbers.drop_last());
    }
}

} // verus!
