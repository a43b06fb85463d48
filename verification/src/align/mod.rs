//! Block alignment: traces are cut into blocks of kernels, matching blocks are
//! paired, and each trace is warped block by block onto the first one.
use vstd::prelude::*;
use std::ops::Range;
use crate::lane;
use crate::scalar::Scalar;
use crate::sort::{self, sort_order, Rising};
use crate::trace::KernelEvent;

pub mod match_blocks;
pub mod nw;
pub mod pipeline;
pub mod warp;

verus! {

/// A stretch of raw time and the stretch of display time it is drawn on.
#[derive(Debug, Clone)]
pub struct TimeSegment<T> {
    pub trace_id: usize,
    pub block_id: usize,
    pub raw_start: T,
    pub raw_end: T,
    pub display_start: T,
    pub display_end: T,
}

/// The segments of one trace, in the order of their raw starts.
#[derive(Debug, Clone)]
pub struct TraceTimeMap<T> {
    pub trace_id: usize,
    pub segments: Vec<TimeSegment<T>>,
}

/// Where an event is drawn.
#[derive(Debug, Clone)]
pub struct DisplayKernelTime<T> {
    pub display_start: T,
    pub display_end: T,
}

/// The block of one trace that is paired with a block of the first.
#[derive(Debug)]
pub struct AlignedTraceBlock<T, C> {
    pub raw_start: T,
    pub raw_end: T,
    pub kernel_indices: Range<usize>,
    pub confidence: C,
}

/// A block of the first trace and what is paired with it, by trace.
#[derive(Debug)]
pub struct AlignedBlock<T, C> {
    pub id: usize,
    pub display_start: T,
    pub display_end: T,
    pub per_trace: Vec<Option<AlignedTraceBlock<T, C>>>,
}

/// How traces are laid out on one axis.
#[derive(Debug, Clone, Copy, PartialEq, Eq, Structural)]
pub enum AlignmentMode {
    /// Each trace is moved as a whole.
    OffsetOnly,
    /// Each trace is warped block by block.
    PiecewiseWarp,
}

/// The outcome of aligning traces.
#[derive(Debug)]
pub struct AlignmentState<T, C> {
    pub mode: AlignmentMode,
    pub reference_trace_id: usize,
    pub blocks: Vec<AlignedBlock<T, C>>,
    pub time_maps: Vec<TraceTimeMap<T>>,
    pub display_kernel_times: Vec<Vec<DisplayKernelTime<T>>>,
    pub display_annotation_times: Vec<Vec<DisplayKernelTime<T>>>,
    pub kernel_local_idx: Vec<usize>,
    pub annotation_local_idx: Vec<usize>,
}

/// `n` empty lists.
pub(crate) fn empty_lists<E>(n: usize) -> (r: Vec<Vec<E>>)
    ensures
        r@.len() == n,
        forall|i: int| 0 <= i < n ==> (#[trigger] r@[i])@.len() == 0,
{
    let mut out: Vec<Vec<E>> = Vec::new();
    let mut i: usize = 0;
    while i < n
        invariant
            i <= n,
            out@.len() == i,
            forall|j: int| 0 <= j < i ==> (#[trigger] out@[j])@.len() == 0,
        decreases n - i,
    {
        out.push(Vec::new());
        i += 1;
    }
    out
}

impl<T: Scalar, C: Scalar> AlignmentState<T, C> {
    /// Whether traces are merely moved: no blocks, no maps, and one empty list of
    /// display times per trace.
    pub open spec fn is_offset_only(&self, reference_trace_id: usize, trace_count: usize) -> bool {
        &&& self.mode == AlignmentMode::OffsetOnly
        &&& self.reference_trace_id == reference_trace_id
        &&& self.blocks@.len() == 0
        &&& self.time_maps@.len() == 0
        &&& self.display_kernel_times@.len() == trace_count
        &&& forall|i: int|
            0 <= i < trace_count ==> (#[trigger] self.display_kernel_times@[i])@.len() == 0
        &&& self.display_annotation_times@.len() == trace_count
        &&& forall|i: int|
            0 <= i < trace_count ==> (#[trigger] self.display_annotation_times@[i])@.len() == 0
        &&& self.kernel_local_idx@.len() == 0
        &&& self.annotation_local_idx@.len() == 0
    }

    /// The outcome in which traces are merely moved.
    pub fn offset_only(reference_trace_id: usize, trace_count: usize) -> (r: Self)
        ensures
            r.is_offset_only(reference_trace_id, trace_count),
    {
        AlignmentState {
            mode: AlignmentMode::OffsetOnly,
            reference_trace_id,
            blocks: Vec::new(),
            time_maps: Vec::new(),
            display_kernel_times: empty_lists(trace_count),
            display_annotation_times: empty_lists(trace_count),
            kernel_local_idx: Vec::new(),
            annotation_local_idx: Vec::new(),
        }
    }
}

/// The positions of the kernels of one trace, ascending.
pub open spec fn trace_members<T>(kernels: Seq<KernelEvent<T>>, trace_id: usize) -> Seq<usize>
    decreases kernels.len(),
{
    if kernels.len() == 0 {
        Seq::empty()
    } else if kernels.last().trace_id == trace_id {
        trace_members(kernels.drop_last(), trace_id).push((kernels.len() - 1) as usize)
    } else {
        trace_members(kernels.drop_last(), trace_id)
    }
}

/// The positions of the kernels of one trace, in the order of their starts.
pub open spec fn timeline<T: Scalar>(kernels: Seq<KernelEvent<T>>, trace_id: usize) -> Seq<usize> {
    let at = trace_members(kernels, trace_id);
    sort::picked(
        at,
        sort::sorted_order(lane::start_keys::<T, KernelEvent<T>>(kernels, at)),
    )
}

/// The idle times between neighbouring kernels; none is negative.
pub open spec fn idle_gaps<T: Scalar>(kernels: Seq<KernelEvent<T>>, line: Seq<usize>) -> Seq<T> {
    Seq::new(
        (line.len() - 1) as nat,
        |i: int|
            kernels[line[i + 1] as int].ts.minus_spec(
                kernels[line[i] as int].end_spec(),
            ).larger_spec(T::whole_spec(0)),
    )
}

/// Numbers in ascending order.
pub open spec fn rising<T: Scalar>(numbers: Seq<T>) -> Seq<T> {
    sort::picked(numbers, sort::sorted_order(numbers.map_values(|x: T| Rising(x))))
}

/// The median of some numbers: the middle one, or the mean of the two middle
/// ones.
pub open spec fn middle<T: Scalar>(numbers: Seq<T>) -> T {
    let sorted = rising(numbers);
    let n = sorted.len() as int;
    if n % 2 == 0 {
        sorted[n / 2 - 1].plus_spec(sorted[n / 2]).over_spec(T::whole_spec(2))
    } else {
        sorted[n / 2]
    }
}

/// The idle time above which two kernels belong to different blocks: ten times the
/// median gap.
pub open spec fn gap_threshold<T: Scalar>(gaps: Seq<T>) -> T {
    middle(gaps).times_spec(T::whole_spec(10))
}

/// The positions behind those of the first `n` gaps that exceed a threshold.
pub open spec fn split_points<T: Scalar>(gaps: Seq<T>, threshold: T, n: int) -> Seq<usize>
    decreases n,
{
    if n <= 0 {
        Seq::empty()
    } else if threshold.less_spec(gaps[n - 1]) {
        split_points(gaps, threshold, n - 1).push(n as usize)
    } else {
        split_points(gaps, threshold, n - 1)
    }
}

/// The kernels `s..e` of a timeline as a block: from the start of the first to
/// the end of the last, with the range of their positions.
pub open spec fn block_of<T: Scalar>(
    kernels: Seq<KernelEvent<T>>,
    line: Seq<usize>,
    s: int,
    e: int,
) -> (T, T, Range<usize>) {
    (
        kernels[line[s] as int].ts,
        kernels[line[e - 1] as int].end_spec(),
        Range { start: line[s], end: (line[e - 1] + 1) as usize },
    )
}

/// The blocks that end at the first `n` of the given bounds, each starting where
/// the one before ends.
pub open spec fn blocks_between<T: Scalar>(
    kernels: Seq<KernelEvent<T>>,
    line: Seq<usize>,
    bounds: Seq<usize>,
    n: int,
) -> Seq<(T, T, Range<usize>)>
    decreases n,
{
    if n <= 0 {
        Seq::empty()
    } else {
        let s = if n == 1 {
            0
        } else {
            bounds[n - 2] as int
        };
        blocks_between(kernels, line, bounds, n - 1).push(
            block_of(kernels, line, s, bounds[n - 1] as int),
        )
    }
}

/// Whether a list of names repeats every `p` names, a whole number of times.
pub open spec fn repeats_every(names: Seq<Seq<char>>, p: int) -> bool {
    &&& p > 0
    &&& names.len() as int % p == 0
    &&& forall|i: int| p <= i < names.len() ==> #[trigger] names[i] == names[i % p]
}

/// The shortest period from `p` on with which names repeat at least twice.
pub open spec fn shortest_period(names: Seq<Seq<char>>, p: int) -> Option<int>
    decreases names.len() - p,
{
    if p < 1 || p > names.len() / 2 {
        None
    } else if repeats_every(names, p) {
        Some(p)
    } else {
        shortest_period(names, p + 1)
    }
}

/// The names of the kernels of a timeline.
pub open spec fn line_names<T>(kernels: Seq<KernelEvent<T>>, line: Seq<usize>) -> Seq<Seq<char>> {
    line.map_values(|i: usize| kernels[i as int].name@)
}

/// The first `n` blocks of `p` kernels each.
pub open spec fn tiled_blocks<T: Scalar>(
    kernels: Seq<KernelEvent<T>>,
    line: Seq<usize>,
    p: int,
    n: nat,
) -> Seq<(T, T, Range<usize>)> {
    Seq::new(n, |b: int| block_of(kernels, line, b * p, b * p + p))
}

/// The blocks of a timeline: cut at long idle times; where there is none, cut
/// into repetitions of the shortest period of names; else a single block.
pub open spec fn blocks_of_line<T: Scalar>(
    kernels: Seq<KernelEvent<T>>,
    line: Seq<usize>,
) -> Seq<(T, T, Range<usize>)> {
    let n = line.len() as int;
    if n == 0 {
        Seq::empty()
    } else if n == 1 {
        seq![block_of(kernels, line, 0, 1)]
    } else {
        let gaps = idle_gaps(kernels, line);
        let splits = split_points(gaps, gap_threshold(gaps), gaps.len() as int);
        if splits.len() > 0 {
            let bounds = splits.push(n as usize);
            blocks_between(kernels, line, bounds, bounds.len() as int)
        } else {
            match shortest_period(line_names(kernels, line), 1) {
                Some(p) => tiled_blocks(kernels, line, p, (n / p) as nat),
                None => seq![block_of(kernels, line, 0, n)],
            }
        }
    }
}

/// The positions of the kernels of one trace, in the order of their starts.
fn trace_timeline<T: Scalar>(kernels: &[KernelEvent<T>], trace_id: usize) -> (r: Vec<usize>)
    ensures
        r@ == timeline(kernels@, trace_id),
        forall|i: int| 0 <= i < r@.len() ==> #[trigger] r@[i] < kernels@.len(),
        r@.len() <= kernels@.len(),
{
    let mut at: Vec<usize> = Vec::new();
    let mut keys: Vec<Rising<T>> = Vec::new();
    let mut i: usize = 0;
    while i < kernels.len()
        invariant
            i <= kernels@.len(),
            at@ == trace_members(kernels@.take(i as int), trace_id),
            at@.len() == keys@.len(),
            at@.len() <= i,
            forall|k: int|
                0 <= k < at@.len() ==> #[trigger] at@[k] < i && keys@[k] == Rising(
                    kernels@[at@[k] as int].ts,
                ),
        decreases kernels@.len() - i,
    {
        assert(kernels@.take(i + 1).drop_last() == kernels@.take(i as int));
        if kernels[i].trace_id == trace_id {
            at.push(i);
            keys.push(Rising(kernels[i].ts));
        }
        i += 1;
    }
    assert(kernels@.take(kernels@.len() as int) == kernels@);
    assert(keys@ == lane::start_keys::<T, KernelEvent<T>>(kernels@, at@));
    let order = sort_order(&keys);
    let mut out: Vec<usize> = Vec::new();
    let mut k: usize = 0;
    while k < order.len()
        invariant
            k <= order@.len() == at@.len(),
            sort::arranges(order@, 0, at@.len() as int),
            forall|k: int| 0 <= k < at@.len() ==> #[trigger] at@[k] < kernels@.len(),
            out@ == sort::picked(at@, order@).take(k as int),
            forall|i: int| 0 <= i < out@.len() ==> #[trigger] out@[i] < kernels@.len(),
        decreases order@.len() - k,
    {
        out.push(at[order[k]]);
        k += 1;
        assert(out@ == sort::picked(at@, order@).take(k as int));
    }
    assert(out@ == sort::picked(at@, order@));
    out
}

/// The median of some numbers.
fn middle_of<T: Scalar>(numbers: &Vec<T>) -> (r: T)
    requires
        numbers@.len() > 0,
    ensures
        r == middle(numbers@),
{
    let mut keys: Vec<Rising<T>> = Vec::new();
    let n: usize = numbers.len();
    let mut i: usize = 0;
    while i < n
        invariant
            i <= n == numbers@.len(),
            keys@ == numbers@.map_values(|x: T| Rising(x)).take(i as int),
        decreases n - i,
    {
        keys.push(Rising(numbers[i]));
        i += 1;
        assert(keys@ == numbers@.map_values(|x: T| Rising(x)).take(i as int));
    }
    assert(keys@ == numbers@.map_values(|x: T| Rising(x)));
    let order = sort_order(&keys);
    let ghost sorted = rising(numbers@);
    assert forall|p: int| 0 <= p < n implies #[trigger] sorted[p] == numbers@[order@[p] as int] by {}
    if n % 2 == 0 {
        numbers[order[n / 2 - 1]].plus(numbers[order[n / 2]]).over(T::whole(2))
    } else {
        numbers[order[n / 2]]
    }
}

/// The kernels `s..e` of a timeline as a block.
fn make_block<T: Scalar>(kernels: &[KernelEvent<T>], line: &Vec<usize>, s: usize, e: usize) -> (r: (
    T,
    T,
    Range<usize>,
))
    requires
        s < e <= line@.len(),
        forall|i: int| 0 <= i < line@.len() ==> #[trigger] line@[i] < kernels@.len(),
    ensures
        r == block_of(kernels@, line@, s as int, e as int),
{
    let n: usize = kernels.len();
    assert(line@[e - 1] < n);
    let last: usize = line[e - 1];
    (kernels[line[s]].ts, kernels[last].end_ts(), Range { start: line[s], end: last + 1 })
}

/// Whether the names of a timeline repeat every `p` names.
fn names_repeat<T: Scalar>(kernels: &[KernelEvent<T>], line: &Vec<usize>, p: usize) -> (r: bool)
    requires
        p > 0,
        forall|i: int| 0 <= i < line@.len() ==> #[trigger] line@[i] < kernels@.len(),
    ensures
        r == repeats_every(line_names(kernels@, line@), p as int),
{
    let ghost names = line_names(kernels@, line@);
    if line.len() % p != 0 {
        return false;
    }
    let mut i: usize = p;
    while i < line.len()
        invariant
            p > 0,
            p <= i,
            names == line_names(kernels@, line@),
            forall|i: int| 0 <= i < line@.len() ==> #[trigger] line@[i] < kernels@.len(),
            forall|j: int| p <= j < i ==> #[trigger] names[j] == names[j % p as int],
            i <= line@.len() || i == p,
        decreases line@.len() - i,
    {
        proof {
            vstd::arithmetic::div_mod::lemma_mod_bound(i as int, p as int);
        }
        if kernels[line[i]].name != kernels[line[i % p]].name {
            assert(names[i as int] != names[(i % p) as int]);
            return false;
        }
        i += 1;
    }
    true
}

/// Returns `(raw_start, raw_end, global_index_range)` blocks for one trace.
/// Primary: split at idle gaps where gap > median_gap * 10. Fallback: detect the
/// shortest repeating name period and tile into equal blocks.
pub fn detect_blocks<T: Scalar>(kernels: &[KernelEvent<T>], trace_id: usize) -> (r: Vec<
    (T, T, Range<usize>),
>)
    ensures
        r@ == blocks_of_line(kernels@, timeline(kernels@, trace_id)),
{
    let line = trace_timeline(kernels, trace_id);
    let n: usize = line.len();
    let mut blocks: Vec<(T, T, Range<usize>)> = Vec::new();
    if n == 0 {
        return blocks;
    }
    if n == 1 {
        blocks.push(make_block(kernels, &line, 0, 1));
        assert(blocks@ == seq![block_of(kernels@, line@, 0, 1)]);
        return blocks;
    }
    let mut gaps: Vec<T> = Vec::new();
    let mut i: usize = 0;
    while i < n - 1
        invariant
            i <= n - 1,
            n == line@.len(),
            forall|i: int| 0 <= i < line@.len() ==> #[trigger] line@[i] < kernels@.len(),
            gaps@ == idle_gaps(kernels@, line@).take(i as int),
        decreases n - i,
    {
        let gap = kernels[line[i + 1]].ts.minus(kernels[line[i]].end_ts()).larger(T::whole(0));
        gaps.push(gap);
        i += 1;
        assert(gaps@ == idle_gaps(kernels@, line@).take(i as int));
    }
    assert(gaps@ == idle_gaps(kernels@, line@));
    let threshold = middle_of(&gaps).times(T::whole(10));
    let mut bounds: Vec<usize> = Vec::new();
    let mut g: usize = 0;
    while g < gaps.len()
        invariant
            g <= gaps@.len() == n - 1,
            bounds@ == split_points(gaps@, threshold, g as int),
            forall|k: int| 0 <= k < bounds@.len() ==> 0 < #[trigger] bounds@[k] <= g,
            forall|k: int, l: int| 0 <= k < l < bounds@.len() ==> bounds@[k] < bounds@[l],
        decreases gaps@.len() - g,
    {
        if threshold.less(gaps[g]) {
            bounds.push(g + 1);
        }
        g += 1;
    }
    if bounds.len() > 0 {
        bounds.push(n);
        let mut start: usize = 0;
        let mut b: usize = 0;
        while b < bounds.len()
            invariant
                b <= bounds@.len(),
                n == line@.len(),
                forall|i: int| 0 <= i < line@.len() ==> #[trigger] line@[i] < kernels@.len(),
                forall|k: int| 0 <= k < bounds@.len() ==> 0 < #[trigger] bounds@[k] <= n,
                forall|k: int, l: int| 0 <= k < l < bounds@.len() ==> bounds@[k] < bounds@[l],
                start == if b == 0 {
                    0
                } else {
                    bounds@[b - 1]
                },
                blocks@ == blocks_between(kernels@, line@, bounds@, b as int),
            decreases bounds@.len() - b,
        {
            let end: usize = bounds[b];
            blocks.push(make_block(kernels, &line, start, end));
            start = end;
            b += 1;
        }
        return blocks;
    }
    let ghost names = line_names(kernels@, line@);
    let mut p: usize = 1;
    while p <= n / 2 && !names_repeat(kernels, &line, p)
        invariant
            1 <= p,
            n == line@.len() == names.len(),
            n > 1,
            names == line_names(kernels@, line@),
            forall|i: int| 0 <= i < line@.len() ==> #[trigger] line@[i] < kernels@.len(),
            shortest_period(names, 1) == shortest_period(names, p as int),
        decreases n + 1 - p,
    {
        p += 1;
    }
    if p <= n / 2 {
        let count: usize = n / p;
        let mut b: usize = 0;
        proof {
            vstd::arithmetic::div_mod::lemma_fundamental_div_mod(n as int, p as int);
        }
        while b < count
            invariant
                b <= count,
                p > 0,
                n == line@.len(),
                n == p * count,
                forall|i: int| 0 <= i < line@.len() ==> #[trigger] line@[i] < kernels@.len(),
                blocks@ == tiled_blocks(kernels@, line@, p as int, b as nat),
            decreases count - b,
        {
            assert(0 <= b * p && b * p + p <= n) by (nonlinear_arith)
                requires
                    0 <= b < count,
                    p > 0,
                    n == p * count,
            ;
            let s: usize = b * p;
            blocks.push(make_block(kernels, &line, s, s + p));
            b += 1;
            assert(blocks@ == tiled_blocks(kernels@, line@, p as int, b as nat));
        }
        return blocks;
    }
    blocks.push(make_block(kernels, &line, 0, n));
    assert(blocks@ == seq![block_of(kernels@, line@, 0, n as int)]);
    blocks
}

} // verus!
