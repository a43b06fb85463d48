//! The overview of a trace.
use vstd::prelude::*;
use crate::app::navigation;
use crate::csv;
use crate::mcp_core::{self, TraceSummary};
use crate::scalar::{self, Scalar};
use crate::sort;
use crate::stage::Stage;
use crate::trace::{AnnotationEvent, KernelEvent, Trace};

verus! {

/// The least of numbers that lie at or below `init` is one of them.
proof fn lemma_least_is_met<T: Scalar>(numbers: Seq<T>, init: T)
    requires
        scalar::ordered_totally::<T>(),
        scalar::picks_by_order::<T>(),
        forall|i: int| 0 <= i < numbers.len() ==> (#[trigger] numbers[i]).at_most_spec(init),
    ensures
        numbers.len() > 0 ==> numbers.contains(navigation::least(numbers, init)),
        numbers.len() == 0 ==> navigation::least(numbers, init) == init,
    decreases numbers.len(),
{
    if numbers.len() > 0 {
        let rest = numbers.drop_last();
        let last = numbers.last();
        assert forall|i: int| 0 <= i < rest.len() implies (#[trigger] rest[i]).at_most_spec(
            init,
        ) by {
            assert(rest[i] == numbers[i]);
        }
        lemma_least_is_met(rest, init);
        let before = navigation::least(rest, init);
        assert(numbers[numbers.len() - 1] == last);
        assert(last.at_most_spec(init));
        if before.at_most_spec(last) {
            if rest.len() > 0 {
                let i = choose|i: int| 0 <= i < rest.len() && rest[i] == before;
                assert(numbers[i] == before);
            } else {
                assert(before == last);
            }
        }
    }
}

/// The greatest of numbers that lie at or above `init` is one of them.
proof fn lemma_greatest_is_met<T: Scalar>(numbers: Seq<T>, init: T)
    requires
        scalar::ordered_totally::<T>(),
        scalar::picks_by_order::<T>(),
        forall|i: int| 0 <= i < numbers.len() ==> init.at_most_spec(#[trigger] numbers[i]),
    ensures
        numbers.len() > 0 ==> numbers.contains(navigation::greatest(numbers, init)),
        numbers.len() == 0 ==> navigation::greatest(numbers, init) == init,
    decreases numbers.len(),
{
    if numbers.len() > 0 {
        let rest = numbers.drop_last();
        let last = numbers.last();
        assert forall|i: int| 0 <= i < rest.len() implies init.at_most_spec(
            #[trigger] rest[i],
        ) by {
            assert(rest[i] == numbers[i]);
        }
        lemma_greatest_is_met(rest, init);
        let before = navigation::greatest(rest, init);
        assert(numbers[numbers.len() - 1] == last);
        assert(init.at_most_spec(last));
        if !before.at_most_spec(last) {
            if rest.len() > 0 {
                let i = choose|i: int| 0 <= i < rest.len() && rest[i] == before;
                assert(numbers[i] == before);
            } else {
                assert(before == init);
            }
        }
    }
}

/// For ordered numbers an overview spans exactly the kernels of its trace: none starts
/// before its start or ends behind its end, one starts and one ends exactly there, and
/// its duration is what lies between. A trace without kernels spans nothing.
pub proof fn an_overview_spans_its_kernels<T: Scalar>(trace: Trace<T>, r: TraceSummary<T>)
    requires
        scalar::ordered_totally::<T>(),
        scalar::picks_by_order::<T>(),
        mcp_core::summarises(trace, r),
        forall|i: int|
            0 <= i < trace.kernels@.len() ==> (#[trigger] trace.kernels@[i]).ts.at_most_spec(
                T::infinity_spec(),
            ) && T::neg_infinity_spec().at_most_spec(
                trace.kernels@[i].ts.plus_spec(trace.kernels@[i].dur),
            ),
    ensures
        forall|i: int|
            0 <= i < trace.kernels@.len() ==> r.start_ts.at_most_spec(
                (#[trigger] trace.kernels@[i]).ts,
            ) && trace.kernels@[i].ts.plus_spec(trace.kernels@[i].dur).at_most_spec(r.end_ts),
        trace.kernels@.len() > 0 ==> exists|i: int|
            0 <= i < trace.kernels@.len() && (#[trigger] trace.kernels@[i]).ts == r.start_ts,
        trace.kernels@.len() > 0 ==> exists|i: int|
            0 <= i < trace.kernels@.len() && (#[trigger] trace.kernels@[i]).ts.plus_spec(
                trace.kernels@[i].dur,
            ) == r.end_ts,
        r.duration == r.end_ts.minus_spec(r.start_ts),
        trace.kernels@.len() == 0 ==> r.start_ts == T::whole_spec(0) && r.end_ts == T::whole_spec(
            0,
        ),
{
    let kernels = trace.kernels@;
    let starts = mcp_core::starts_of(kernels);
    let ends = mcp_core::ends_of(kernels);
    assert forall|i: int| 0 <= i < starts.len() implies (#[trigger] starts[i]).at_most_spec(
        T::infinity_spec(),
    ) by {
        assert(starts[i] == kernels[i].ts);
    }
    assert forall|i: int| 0 <= i < ends.len() implies T::neg_infinity_spec().at_most_spec(
        #[trigger] ends[i],
    ) by {
        assert(ends[i] == kernels[i].ts.plus_spec(kernels[i].dur));
    }
    navigation::lemma_least(starts, T::infinity_spec());
    navigation::lemma_greatest(ends, T::neg_infinity_spec());
    lemma_least_is_met(starts, T::infinity_spec());
    lemma_greatest_is_met(ends, T::neg_infinity_spec());
    assert forall|i: int| 0 <= i < kernels.len() implies r.start_ts.at_most_spec(
        (#[trigger] kernels[i]).ts,
    ) && kernels[i].ts.plus_spec(kernels[i].dur).at_most_spec(r.end_ts) by {
        assert(starts[i] == kernels[i].ts);
        assert(ends[i] == kernels[i].ts.plus_spec(kernels[i].dur));
    }
    if kernels.len() > 0 {
        let i = choose|i: int| 0 <= i < starts.len() && starts[i] == r.start_ts;
        assert(kernels[i].ts == r.start_ts);
        let j = choose|j: int| 0 <= j < ends.len() && ends[j] == r.end_ts;
        assert(kernels[j].ts.plus_spec(kernels[j].dur) == r.end_ts);
    }
}

/// An overview counts all events of its trace and lists each of their streams once, in
/// ascending order, and no other stream.
pub proof fn an_overview_lists_the_streams_of_its_events<T: Scalar>(
    trace: Trace<T>,
    r: TraceSummary<T>,
)
    requires
        mcp_core::summarises(trace, r),
    ensures
        r.kernel_count == trace.kernels@.len(),
        r.annotation_count == trace.annotations@.len(),
        forall|i: int, j: int| 0 <= i < j < r.streams@.len() ==> r.streams@[i] < r.streams@[j],
        forall|x: u64| #[trigger]
            r.streams@.contains(x) <==> (exists|i: int|
                0 <= i < trace.kernels@.len() && (#[trigger] trace.kernels@[i]).stream == x)
                || (exists|i: int|
                0 <= i < trace.annotations@.len() && (#[trigger] trace.annotations@[i]).stream
                    == x),
{
    let ks = trace.kernels@.map_values(|k: KernelEvent<T>| k.stream);
    let ans = trace.annotations@.map_values(|a: AnnotationEvent<T>| a.stream);
    let source = ks + ans;
    sort::distinct_sorted_is_ascending(source);
    assert forall|x: u64| #[trigger] r.streams@.contains(x) <==> (exists|i: int|
        0 <= i < trace.kernels@.len() && (#[trigger] trace.kernels@[i]).stream == x) || (exists|
        i: int,
    |
        0 <= i < trace.annotations@.len() && (#[trigger] trace.annotations@[i]).stream == x) by {
        if source.contains(x) {
            let q = choose|q: int| 0 <= q < source.len() && source[q] == x;
            if q < ks.len() {
                assert(trace.kernels@[q].stream == x);
            } else {
                assert(trace.annotations@[q - ks.len()].stream == x);
            }
        }
        if exists|i: int| 0 <= i < trace.kernels@.len() && (#[trigger] trace.kernels@[i]).stream
            == x {
            let i = choose|i: int|
                0 <= i < trace.kernels@.len() && (#[trigger] trace.kernels@[i]).stream == x;
            assert(source[i] == x);
        }
        if exists|i: int|
            0 <= i < trace.annotations@.len() && (#[trigger] trace.annotations@[i]).stream == x {
            let i = choose|i: int|
                0 <= i < trace.annotations@.len() && (#[trigger] trace.annotations@[i]).stream
                    == x;
            assert(source[ks.len() + i] == x);
        }
    }
}

/// How many kernels of a trace are of a stage.
spec fn kernels_of_stage<T: Scalar>(trace: Trace<T>, stage: Option<Stage>, n: int) -> Set<int> {
    Set::new(
        |i: int|
            0 <= i < n && csv::kernel_stage(trace.annotations@, trace.kernels@[i]) == stage,
    )
}

proof fn lemma_stage_count<T: Scalar>(trace: Trace<T>, stage: Option<Stage>, n: int)
    requires
        0 <= n,
    ensures
        kernels_of_stage(trace, stage, n).finite(),
        kernels_of_stage(trace, stage, n).len() == mcp_core::stage_count(trace, stage, n),
    decreases n,
{
    let all = kernels_of_stage(trace, stage, n);
    if n > 0 {
        lemma_stage_count(trace, stage, n - 1);
        let rest = kernels_of_stage(trace, stage, n - 1);
        if csv::kernel_stage(trace.annotations@, trace.kernels@[n - 1]) == stage {
            assert(all =~= rest.insert(n - 1));
        } else {
            assert(all =~= rest);
        }
    } else {
        assert(all =~= Set::empty());
    }
}

/// An overview counts for each stage the kernels that belong to it, and the four counts
/// make up all kernels.
pub proof fn an_overview_counts_each_stage<T: Scalar>(trace: Trace<T>, r: TraceSummary<T>)
    requires
        mcp_core::summarises(trace, r),
        trace.kernels@.len() <= usize::MAX,
    ensures
        ({
            let n = trace.kernels@.len() as int;
            let stage_at = |i: int| csv::kernel_stage(trace.annotations@, trace.kernels@[i]);
            &&& r.stages.prefill == Set::new(
                |i: int| 0 <= i < n && stage_at(i) == Some(Stage::Prefill),
            ).len()
            &&& r.stages.decode == Set::new(
                |i: int| 0 <= i < n && stage_at(i) == Some(Stage::Decode),
            ).len()
            &&& r.stages.mixed == Set::new(
                |i: int| 0 <= i < n && stage_at(i) == Some(Stage::Mixed),
            ).len()
            &&& r.stages.none == Set::new(|i: int| 0 <= i < n && stage_at(i) is None).len()
            &&& r.stages.prefill + r.stages.decode + r.stages.mixed + r.stages.none == n
        }),
{
    let n = trace.kernels@.len() as int;
    let stage_at = |i: int| csv::kernel_stage(trace.annotations@, trace.kernels@[i]);
    mcp_core::stage_counts_add_up(trace, n);
    lemma_stage_count(trace, Some(Stage::Prefill), n);
    lemma_stage_count(trace, Some(Stage::Decode), n);
    lemma_stage_count(trace, Some(Stage::Mixed), n);
    lemma_stage_count(trace, None, n);
    assert(Set::new(|i: int| 0 <= i < n && stage_at(i) == Some(Stage::Prefill))
        =~= kernels_of_stage(trace, Some(Stage::Prefill), n));
    assert(Set::new(|i: int| 0 <= i < n && stage_at(i) == Some(Stage::Decode))
        =~= kernels_of_stage(trace, Some(Stage::Decode), n));
    assert(Set::new(|i: int| 0 <= i < n && stage_at(i) == Some(Stage::Mixed))
        =~= kernels_of_stage(trace, Some(Stage::Mixed), n));
    assert(Set::new(|i: int| 0 <= i < n && stage_at(i) is None) =~= kernels_of_stage(
        trace,
        None,
        n,
    ));
}

} // verus!
