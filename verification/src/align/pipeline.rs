//! The whole block alignment: detect blocks, pair them, rate the pairs, and warp
//! every trace onto the first.
use vstd::prelude::*;
use std::ops::Range;
use crate::align::match_blocks::{self, match_blocks};
use crate::align::nw::{self, align_block_pair};
use crate::align::warp::{self, build_time_maps, precompute_display_times};
use crate::align::{
    self, detect_blocks, AlignedBlock, AlignedTraceBlock, AlignmentMode, AlignmentState,
};
use crate::scalar::Scalar;
use crate::trace::{AnnotationEvent, KernelEvent};

verus! {

/// The kernels of one trace, in their order.
pub open spec fn trace_kernels<T>(kernels: Seq<KernelEvent<T>>, trace_id: usize) -> Seq<
    KernelEvent<T>,
>
    decreases kernels.len(),
{
    if kernels.len() == 0 {
        Seq::empty()
    } else if kernels.last().trace_id == trace_id {
        trace_kernels(kernels.drop_last(), trace_id).push(kernels.last())
    } else {
        trace_kernels(kernels.drop_last(), trace_id)
    }
}

/// The kernels of one trace in a range of positions; none where the range is
/// turned round.
pub open spec fn range_kernels<T>(
    kernels: Seq<KernelEvent<T>>,
    range: Range<usize>,
    trace_id: usize,
) -> Seq<KernelEvent<T>> {
    let end = if range.end < kernels.len() {
        range.end as int
    } else {
        kernels.len() as int
    };
    if range.start <= end {
        trace_kernels(kernels.subrange(range.start as int, end), trace_id)
    } else {
        Seq::empty()
    }
}

/// The blocks of one trace.
pub open spec fn trace_blocks<T: Scalar>(kernels: Seq<KernelEvent<T>>, trace_id: usize) -> Seq<
    (T, T, Range<usize>),
> {
    align::blocks_of_line(kernels, align::timeline(kernels, trace_id))
}

/// The pairs of blocks of the first trace with blocks of another.
pub open spec fn trace_pairs<T: Scalar, C: Scalar>(
    kernels: Seq<KernelEvent<T>>,
    trace_id: usize,
) -> Seq<(usize, usize)> {
    match_blocks::block_pairs::<T, C>(
        trace_blocks(kernels, 0),
        trace_blocks(kernels, trace_id),
        trace_kernels(kernels, 0),
        trace_kernels(kernels, trace_id),
    )
}

/// The block that is paired with block `id`, the last one named.
pub open spec fn partner(pairs: Seq<(usize, usize)>, id: usize) -> Option<usize>
    decreases pairs.len(),
{
    if pairs.len() == 0 {
        None
    } else if pairs.last().0 == id {
        Some(pairs.last().1)
    } else {
        partner(pairs.drop_last(), id)
    }
}

/// The block of a trace that stands beside block `id` of the first trace. The
/// first trace's own blocks are certain; a block of another trace is as certain
/// as the kernels of the two blocks align.
pub open spec fn block_beside<T: Scalar, C: Scalar>(
    kernels: Seq<KernelEvent<T>>,
    id: int,
    trace_id: usize,
) -> Option<AlignedTraceBlock<T, C>> {
    let own = trace_blocks(kernels, 0)[id];
    if trace_id == 0 {
        Some(
            AlignedTraceBlock {
                raw_start: own.0,
                raw_end: own.1,
                kernel_indices: own.2,
                confidence: C::whole_spec(1),
            },
        )
    } else {
        match partner(trace_pairs::<T, C>(kernels, trace_id), id as usize) {
            Some(oi) => {
                let other = trace_blocks(kernels, trace_id)[oi as int];
                Some(
                    AlignedTraceBlock {
                        raw_start: other.0,
                        raw_end: other.1,
                        kernel_indices: other.2,
                        confidence: nw::confidence::<C>(
                            nw::names_of(range_kernels(kernels, own.2, 0)),
                            nw::names_of(range_kernels(kernels, other.2, trace_id)),
                        ),
                    },
                )
            },
            None => None,
        }
    }
}

/// Whether there is a block structure to warp by: at least two traces, and two
/// blocks in the first and in some other trace.
pub open spec fn has_structure<T: Scalar>(kernels: Seq<KernelEvent<T>>, trace_count: usize) -> bool {
    &&& trace_count >= 2
    &&& trace_blocks(kernels, 0).len() >= 2
    &&& exists|t: int|
        1 <= t < trace_count && (#[trigger] trace_blocks(kernels, t as usize)).len() >= 2
}

impl<T: Scalar, C: Scalar> AlignmentState<T, C> {
    /// Whether all traces are warped onto the first, block by block.
    pub open spec fn is_warped(
        &self,
        kernels: Seq<KernelEvent<T>>,
        annotations: Seq<AnnotationEvent<T>>,
        trace_count: usize,
    ) -> bool {
        let own = trace_blocks(kernels, 0);
        let maps = self.time_maps@;
        &&& self.mode == AlignmentMode::PiecewiseWarp
        &&& self.reference_trace_id == 0
        &&& self.blocks@.len() == own.len()
        &&& forall|id: int|
            0 <= id < own.len() ==> {
                let block = #[trigger] self.blocks@[id];
                &&& block.id == id
                &&& block.display_start == own[id].0
                &&& block.display_end == own[id].1
                &&& block.per_trace@ == Seq::new(
                    trace_count as nat,
                    |t: int| block_beside::<T, C>(kernels, id, t as usize),
                )
            }
        &&& maps.len() == trace_count
        &&& forall|t: int|
            0 <= t < trace_count ==> (#[trigger] maps[t]).trace_id == t && maps[t].segments@
                == warp::by_raw_start(warp::segments_of(self.blocks@, t as usize))
        &&& self.display_kernel_times@.len() == trace_count
        &&& forall|t: int|
            0 <= t < trace_count ==> (#[trigger] self.display_kernel_times@[t])@
                == warp::kernel_displays(maps, kernels, t as usize, kernels.len() as int)
        &&& self.display_annotation_times@.len() == trace_count
        &&& forall|t: int|
            0 <= t < trace_count ==> (#[trigger] self.display_annotation_times@[t])@
                == warp::annotation_displays(
                maps,
                annotations,
                t as usize,
                annotations.len() as int,
            )
        &&& self.kernel_local_idx@.len() == kernels.len()
        &&& forall|i: int|
            0 <= i < kernels.len() ==> #[trigger] self.kernel_local_idx@[i] == warp::count_by::<
                T,
                KernelEvent<T>,
            >(
                kernels,
                maps.len(),
                warp::map_of::<T, KernelEvent<T>>(kernels[i], maps.len()),
                i,
            )
        &&& self.annotation_local_idx@.len() == annotations.len()
        &&& forall|i: int|
            0 <= i < annotations.len() ==> #[trigger] self.annotation_local_idx@[i]
                == warp::count_by::<T, AnnotationEvent<T>>(
                annotations,
                maps.len(),
                warp::map_of::<T, AnnotationEvent<T>>(annotations[i], maps.len()),
                i,
            )
    }
}

/// Copies the kernels of one trace in the positions `from..to`.
fn copy_kernels<T: Scalar>(
    kernels: &[KernelEvent<T>],
    from: usize,
    to: usize,
    trace_id: usize,
) -> (r: Vec<KernelEvent<T>>)
    requires
        from <= to <= kernels@.len(),
    ensures
        r@ == trace_kernels(kernels@.subrange(from as int, to as int), trace_id),
{
    let ghost part = kernels@.subrange(from as int, to as int);
    let mut out: Vec<KernelEvent<T>> = Vec::new();
    let mut i: usize = from;
    assert(part.take(0) == Seq::<KernelEvent<T>>::empty());
    while i < to
        invariant
            from <= i <= to <= kernels@.len(),
            part == kernels@.subrange(from as int, to as int),
            out@ == trace_kernels(part.take(i - from), trace_id),
        decreases to - i,
    {
        assert(part.take(i + 1 - from).drop_last() == part.take(i - from));
        assert(part.take(i + 1 - from).last() == kernels@[i as int]);
        if kernels[i].trace_id == trace_id {
            out.push(kernels[i].duplicate());
        }
        i += 1;
    }
    assert(part.take(part.len() as int) == part);
    out
}

/// Copies the kernels of one trace.
fn copy_trace<T: Scalar>(kernels: &[KernelEvent<T>], trace_id: usize) -> (r: Vec<KernelEvent<T>>)
    ensures
        r@ == trace_kernels(kernels@, trace_id),
{
    let r = copy_kernels(kernels, 0, kernels.len(), trace_id);
    assert(kernels@.subrange(0, kernels@.len() as int) == kernels@);
    r
}

/// Copies the kernels of one trace in a range of positions.
fn copy_range<T: Scalar>(kernels: &[KernelEvent<T>], range: &Range<usize>, trace_id: usize) -> (r:
    Vec<KernelEvent<T>>)
    ensures
        r@ == range_kernels(kernels@, *range, trace_id),
{
    let end: usize = if range.end < kernels.len() {
        range.end
    } else {
        kernels.len()
    };
    if range.start <= end {
        copy_kernels(kernels, range.start, end, trace_id)
    } else {
        Vec::new()
    }
}

/// The block that is paired with block `id`.
fn find_partner(pairs: &Vec<(usize, usize)>, id: usize) -> (r: Option<usize>)
    ensures
        r == partner(pairs@, id),
        r matches Some(oi) ==> exists|k: int|
            0 <= k < pairs@.len() && (#[trigger] pairs@[k]).1 == oi,
{
    let mut i: usize = pairs.len();
    assert(pairs@.take(pairs@.len() as int) == pairs@);
    while i > 0
        invariant
            i <= pairs@.len(),
            partner(pairs@, id) == partner(pairs@.take(i as int), id),
        decreases i,
    {
        assert(pairs@.take(i as int).drop_last() == pairs@.take(i - 1));
        assert(pairs@.take(i as int).last() == pairs@[i - 1]);
        if pairs[i - 1].0 == id {
            return Some(pairs[i - 1].1);
        }
        i -= 1;
    }
    None
}

/// The block of a trace that stands beside block `id` of the first trace.
fn make_block_beside<T: Scalar, C: Scalar>(
    kernels: &[KernelEvent<T>],
    own: &Vec<(T, T, Range<usize>)>,
    other: &Vec<(T, T, Range<usize>)>,
    pairs: &Vec<(usize, usize)>,
    id: usize,
    trace_id: usize,
) -> (r: Option<AlignedTraceBlock<T, C>>)
    requires
        trace_id > 0,
        id < own@.len(),
        own@ == trace_blocks(kernels@, 0),
        other@ == trace_blocks(kernels@, trace_id),
        pairs@ == trace_pairs::<T, C>(kernels@, trace_id),
        forall|k: int| 0 <= k < pairs@.len() ==> (#[trigger] pairs@[k]).1 < other@.len(),
    ensures
        r == block_beside::<T, C>(kernels@, id as int, trace_id),
{
    let oi: usize = match find_partner(pairs, id) {
        Some(oi) => oi,
        None => {
            return None;
        },
    };
    let ref_slice = copy_range(kernels, &own[id].2, 0);
    let oth_slice = copy_range(kernels, &other[oi].2, trace_id);
    let confidence: C = align_block_pair(ref_slice.as_slice(), oth_slice.as_slice());
    Some(
        AlignedTraceBlock {
            raw_start: other[oi].0,
            raw_end: other[oi].1,
            kernel_indices: Range { start: other[oi].2.start, end: other[oi].2.end },
            confidence,
        },
    )
}

/// Full pipeline: detect per-trace blocks, match them across traces, align the
/// pairs, build piecewise time maps, precompute display times. Falls back to
/// moving traces as a whole when there are fewer than two traces or no
/// multi-block structure is found.
pub fn build_alignment<T: Scalar, C: Scalar>(
    kernels: &[KernelEvent<T>],
    annotations: &[AnnotationEvent<T>],
    trace_count: usize,
) -> (r: AlignmentState<T, C>)
    ensures
        if has_structure(kernels@, trace_count) {
            r.is_warped(kernels@, annotations@, trace_count)
        } else {
            r.is_offset_only(0, trace_count)
        },
{
    if trace_count < 2 {
        return AlignmentState::offset_only(0, trace_count);
    }
    let mut per_trace: Vec<Vec<(T, T, Range<usize>)>> = Vec::new();
    let mut structured: bool = false;
    let mut t: usize = 0;
    while t < trace_count
        invariant
            t <= trace_count,
            per_trace@.len() == t,
            forall|u: int|
                0 <= u < t ==> (#[trigger] per_trace@[u])@ == trace_blocks(kernels@, u as usize),
            structured == exists|u: int|
                1 <= u < t && (#[trigger] trace_blocks(kernels@, u as usize)).len() >= 2,
        decreases trace_count - t,
    {
        let blocks = detect_blocks(kernels, t);
        assert(blocks@ == trace_blocks(kernels@, t));
        if t >= 1 && blocks.len() >= 2 {
            structured = true;
            assert(trace_blocks(kernels@, t as int as usize).len() >= 2);
        }
        per_trace.push(blocks);
        t += 1;
    }
    if per_trace[0].len() < 2 || !structured {
        return AlignmentState::offset_only(0, trace_count);
    }
    let own = &per_trace[0];
    let ref_kernels = copy_trace(kernels, 0);
    let mut pairs: Vec<Vec<(usize, usize)>> = Vec::new();
    pairs.push(Vec::new());
    let mut t: usize = 1;
    while t < trace_count
        invariant
            1 <= t <= trace_count,
            per_trace@.len() == trace_count,
            *own == per_trace@[0],
            ref_kernels@ == trace_kernels(kernels@, 0),
            forall|u: int|
                0 <= u < trace_count ==> (#[trigger] per_trace@[u])@ == trace_blocks(
                    kernels@,
                    u as usize,
                ),
            pairs@.len() == t,
            forall|u: int|
                1 <= u < t ==> (#[trigger] pairs@[u])@ == trace_pairs::<T, C>(
                    kernels@,
                    u as usize,
                ),
            forall|u: int, k: int|
                1 <= u < t && 0 <= k < pairs@[u]@.len() ==> (#[trigger] pairs@[u]@[k]).1
                    < per_trace@[u]@.len(),
        decreases trace_count - t,
    {
        let other_kernels = copy_trace(kernels, t);
        let found = match_blocks::<T, C>(
            own.as_slice(),
            per_trace[t].as_slice(),
            ref_kernels.as_slice(),
            other_kernels.as_slice(),
        );
        pairs.push(found);
        t += 1;
    }
    let mut blocks: Vec<AlignedBlock<T, C>> = Vec::new();
    let mut id: usize = 0;
    while id < own.len()
        invariant
            id <= own@.len(),
            own@ == trace_blocks(kernels@, 0),
            trace_count >= 2,
            per_trace@.len() == trace_count,
            pairs@.len() == trace_count,
            forall|u: int|
                0 <= u < trace_count ==> (#[trigger] per_trace@[u])@ == trace_blocks(
                    kernels@,
                    u as usize,
                ),
            forall|u: int|
                1 <= u < trace_count ==> (#[trigger] pairs@[u])@ == trace_pairs::<T, C>(
                    kernels@,
                    u as usize,
                ),
            forall|u: int, k: int|
                1 <= u < trace_count && 0 <= k < pairs@[u]@.len() ==> (#[trigger] pairs@[u]@[k]).1
                    < per_trace@[u]@.len(),
            blocks@.len() == id,
            forall|b: int|
                0 <= b < id ==> {
                    let block = #[trigger] blocks@[b];
                    &&& block.id == b
                    &&& block.display_start == own@[b].0
                    &&& block.display_end == own@[b].1
                    &&& block.per_trace@ == Seq::new(
                        trace_count as nat,
                        |t: int| block_beside::<T, C>(kernels@, b, t as usize),
                    )
                },
        decreases own@.len() - id,
    {
        let ghost goal = Seq::new(
            trace_count as nat,
            |t: int| block_beside::<T, C>(kernels@, id as int, t as usize),
        );
        let mut beside: Vec<Option<AlignedTraceBlock<T, C>>> = Vec::new();
        beside.push(
            Some(
                AlignedTraceBlock {
                    raw_start: own[id].0,
                    raw_end: own[id].1,
                    kernel_indices: Range { start: own[id].2.start, end: own[id].2.end },
                    confidence: C::whole(1),
                },
            ),
        );
        assert(beside@ == goal.take(1));
        let mut t: usize = 1;
        while t < trace_count
            invariant
                1 <= t <= trace_count,
                id < own@.len(),
                own@ == trace_blocks(kernels@, 0),
                per_trace@.len() == trace_count,
                pairs@.len() == trace_count,
                forall|u: int|
                    0 <= u < trace_count ==> (#[trigger] per_trace@[u])@ == trace_blocks(
                        kernels@,
                        u as usize,
                    ),
                forall|u: int|
                    1 <= u < trace_count ==> (#[trigger] pairs@[u])@ == trace_pairs::<T, C>(
                        kernels@,
                        u as usize,
                    ),
                forall|u: int, k: int|
                    1 <= u < trace_count && 0 <= k < pairs@[u]@.len() ==> (
                    #[trigger] pairs@[u]@[k]).1 < per_trace@[u]@.len(),
                goal == Seq::new(
                    trace_count as nat,
                    |t: int| block_beside::<T, C>(kernels@, id as int, t as usize),
                ),
                beside@ == goal.take(t as int),
            decreases trace_count - t,
        {
            beside.push(make_block_beside(kernels, own, &per_trace[t], &pairs[t], id, t));
            t += 1;
            assert(beside@ == goal.take(t as int));
        }
        assert(goal.take(trace_count as int) == goal);
        blocks.push(
            AlignedBlock {
                id,
                display_start: own[id].0,
                display_end: own[id].1,
                per_trace: beside,
            },
        );
        id += 1;
    }
    assert(warp::within_traces(blocks@, trace_count as int)) by {
        assert forall|b: int, t: int|
            0 <= b < blocks@.len() && trace_count <= t < blocks@[b].per_trace@.len() implies (
        #[trigger] blocks@[b].per_trace@[t]) is None by {
            assert(blocks@[b].per_trace@.len() == trace_count);
        }
    }
    let time_maps = build_time_maps(blocks.as_slice(), trace_count);
    let (k_disp, a_disp, k_local, a_local) = precompute_display_times(
        kernels,
        annotations,
        time_maps.as_slice(),
    );
    AlignmentState {
        mode: AlignmentMode::PiecewiseWarp,
        reference_trace_id: 0,
        blocks,
        time_maps,
        display_kernel_times: k_disp,
        display_annotation_times: a_disp,
        kernel_local_idx: k_local,
        annotation_local_idx: a_local,
    }
}

} // verus!
