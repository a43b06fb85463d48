//! Bounded trace analysis: every list that is given out is paged by `offset` and
//! `limit`, so that no caller can pull an unbounded dump out of a large trace.
use vstd::prelude::*;
use vstd::string::StringExecFns;
use crate::app::navigation;
use crate::app::sequence::{self, median_of};
use crate::csv::{self, annotation_for_kernel, new_kernel_table, push_kernel_line};
use crate::scalar::Scalar;
use crate::sort::{self, add_number};
use crate::stage::{self, stage_of_annotation, Stage};
use crate::text::{self, owned, push_decimal};
use crate::trace::{AnnotationEvent, KernelEvent, Trace};

verus! {

/// Hard ceiling on rows any single call may return, regardless of the requested
/// `limit`. Keeps responses bounded even on a caller mistake.
pub const MAX_ROWS: usize = 1000;

/// Default page size when a caller omits `limit`.
pub const DEFAULT_LIMIT: usize = 100;

/// How many rows a page holds at most.
pub open spec fn page_size(limit: Option<usize>) -> usize {
    let asked = match limit {
        Some(n) => n,
        None => DEFAULT_LIMIT,
    };
    if asked > MAX_ROWS {
        MAX_ROWS
    } else {
        asked
    }
}

/// How many rows a page holds at most.
pub fn effective_limit(limit: Option<usize>) -> (r: usize)
    ensures
        r == page_size(limit),
        r <= MAX_ROWS,
{
    let asked: usize = match limit {
        Some(n) => n,
        None => DEFAULT_LIMIT,
    };
    if asked > MAX_ROWS {
        MAX_ROWS
    } else {
        asked
    }
}

/// The first row of a page among `n` rows.
pub open spec fn page_start(n: int, offset: usize) -> int {
    if offset > n {
        n
    } else {
        offset as int
    }
}

/// The row behind the last one of a page among `n` rows.
pub open spec fn page_end(n: int, offset: usize, limit: Option<usize>) -> int {
    let end = page_start(n, offset) + page_size(limit);
    if end > n {
        n
    } else {
        end
    }
}

/// No page holds more than the maximum number of rows, whatever is asked for.
pub proof fn pages_are_bounded(n: int, offset: usize, limit: Option<usize>)
    requires
        0 <= n,
    ensures
        0 <= page_start(n, offset) <= page_end(n, offset, limit) <= n,
        page_end(n, offset, limit) - page_start(n, offset) <= MAX_ROWS,
{
}

/// Two pages of which the second starts where the first is full meet without gap
/// or overlap.
pub proof fn pages_meet(n: int, offset: usize, limit: Option<usize>)
    requires
        0 <= n,
        offset + page_size(limit) <= usize::MAX,
    ensures
        page_start(n, (offset + page_size(limit)) as usize) == page_end(n, offset, limit),
{
}

/// The page of `n` rows that is asked for.
fn page(n: usize, offset: usize, limit: Option<usize>) -> (r: (usize, usize))
    ensures
        r.0 == page_start(n as int, offset),
        r.1 == page_end(n as int, offset, limit),
        r.0 <= r.1 <= n,
        r.1 - r.0 <= MAX_ROWS,
{
    let cap: usize = effective_limit(limit);
    let start: usize = if offset > n {
        n
    } else {
        offset
    };
    let end: usize = if cap > n - start {
        n
    } else {
        start + cap
    };
    (start, end)
}

/// The positions of the kernels on a stream, in the order of the trace.
pub open spec fn stream_positions<T>(kernels: Seq<KernelEvent<T>>, stream: u64) -> Seq<usize>
    decreases kernels.len(),
{
    if kernels.len() == 0 {
        Seq::empty()
    } else if kernels.last().stream == stream {
        stream_positions(kernels.drop_last(), stream).push((kernels.len() - 1) as usize)
    } else {
        stream_positions(kernels.drop_last(), stream)
    }
}

/// The positions of the kernels on a stream.
fn positions_on<T: Scalar>(kernels: &Vec<KernelEvent<T>>, stream: u64) -> (r: Vec<usize>)
    ensures
        r@ == stream_positions(kernels@, stream),
        forall|i: int| 0 <= i < r@.len() ==> #[trigger] r@[i] < kernels@.len(),
{
    let mut out: Vec<usize> = Vec::new();
    let mut i: usize = 0;
    while i < kernels.len()
        invariant
            i <= kernels@.len(),
            out@ == stream_positions(kernels@.take(i as int), stream),
            forall|k: int| 0 <= k < out@.len() ==> #[trigger] out@[k] < i,
        decreases kernels@.len() - i,
    {
        assert(kernels@.take(i + 1).drop_last() == kernels@.take(i as int));
        if kernels[i].stream == stream {
            out.push(i);
        }
        i += 1;
    }
    assert(kernels@.take(kernels@.len() as int) == kernels@);
    out
}

/// Those of some kernels that belong to a stage.
pub open spec fn of_stage<T: Scalar>(trace: Trace<T>, at: Seq<usize>, stage: Option<Stage>) -> Seq<
    usize,
>
    decreases at.len(),
{
    if at.len() == 0 {
        Seq::empty()
    } else if csv::kernel_stage(trace.annotations@, trace.kernels@[at.last() as int]) == stage {
        of_stage(trace, at.drop_last(), stage).push(at.last())
    } else {
        of_stage(trace, at.drop_last(), stage)
    }
}

/// Those of some kernels that a stage filter lets through; all of them without a
/// filter.
pub open spec fn filtered<T: Scalar>(trace: Trace<T>, at: Seq<usize>, filter: Option<Stage>) -> Seq<
    usize,
> {
    match filter {
        Some(_) => of_stage(trace, at, filter),
        None => at,
    }
}

/// The stage of the annotation that covers a kernel.
fn stage_of_kernel<T: Scalar>(annotations: &Vec<AnnotationEvent<T>>, k: &KernelEvent<T>) -> (r:
    Option<Stage>)
    ensures
        r == csv::kernel_stage(annotations@, *k),
{
    match annotation_for_kernel(annotations.as_slice(), k.stream, k.trace_id, k.ts) {
        Some(a) => stage_of_annotation(a.name.as_str()),
        None => None,
    }
}

/// Whether two stages are the same.
fn same_stage(a: Option<Stage>, b: Option<Stage>) -> (r: bool)
    ensures
        r == (a == b),
{
    match (a, b) {
        (Some(x), Some(y)) => x == y,
        (None, None) => true,
        _ => false,
    }
}

/// Those of some kernels that belong to a stage.
fn keep_stage<T: Scalar>(trace: &Trace<T>, at: &Vec<usize>, stage: Option<Stage>) -> (r: Vec<usize>)
    requires
        forall|i: int| 0 <= i < at@.len() ==> #[trigger] at@[i] < trace.kernels@.len(),
    ensures
        r@ == of_stage(*trace, at@, stage),
        forall|i: int| 0 <= i < r@.len() ==> #[trigger] r@[i] < trace.kernels@.len(),
{
    let mut out: Vec<usize> = Vec::new();
    let mut i: usize = 0;
    while i < at.len()
        invariant
            i <= at@.len(),
            forall|i: int| 0 <= i < at@.len() ==> #[trigger] at@[i] < trace.kernels@.len(),
            out@ == of_stage(*trace, at@.take(i as int), stage),
            forall|k: int| 0 <= k < out@.len() ==> #[trigger] out@[k] < trace.kernels@.len(),
        decreases at@.len() - i,
    {
        assert(at@.take(i + 1).drop_last() == at@.take(i as int));
        let s = stage_of_kernel(&trace.annotations, &trace.kernels[at[i]]);
        if same_stage(s, stage) {
            out.push(at[i]);
        }
        i += 1;
    }
    assert(at@.take(at@.len() as int) == at@);
    out
}

/// Those of some kernels that a stage filter lets through.
fn apply_filter<T: Scalar>(trace: &Trace<T>, at: Vec<usize>, filter: Option<Stage>) -> (r: Vec<
    usize,
>)
    requires
        forall|i: int| 0 <= i < at@.len() ==> #[trigger] at@[i] < trace.kernels@.len(),
    ensures
        r@ == filtered(*trace, at@, filter),
        forall|i: int| 0 <= i < r@.len() ==> #[trigger] r@[i] < trace.kernels@.len(),
{
    match filter {
        Some(_) => keep_stage(trace, &at, filter),
        None => at,
    }
}

/// The rows `from..to` of a kernel table, numbered from one at row zero.
pub open spec fn table_lines<T: Scalar>(trace: Trace<T>, at: Seq<usize>, from: int, to: int) -> Seq<
    char,
>
    decreases to - from,
{
    if to <= from {
        Seq::empty()
    } else {
        table_lines(trace, at, from, to - 1) + csv::kernel_line(
            to as nat,
            trace.annotations@,
            trace.kernels@[at[to - 1] as int],
        )
    }
}

/// The page of the kernel table of a stream that is asked for.
pub open spec fn table_page<T: Scalar>(
    trace: Trace<T>,
    stream: u64,
    offset: usize,
    limit: Option<usize>,
    filter: Option<Stage>,
) -> Seq<char> {
    let at = filtered(trace, stream_positions(trace.kernels@, stream), filter);
    let n = at.len() as int;
    csv::kernel_table_header() + table_lines(
        trace,
        at,
        page_start(n, offset),
        page_end(n, offset, limit),
    )
}

/// CSV (same columns as the export of a lane, including `annotation` and
/// `stage`) for the kernels of one stream, paginated by `offset`/`limit`. Rows
/// preserve timeline order.
pub fn lane_kernels_csv_for<T: Scalar>(
    trace: &Trace<T>,
    stream: u64,
    offset: usize,
    limit: Option<usize>,
) -> (r: String)
    ensures
        r@ == table_page(*trace, stream, offset, limit, None),
{
    lane_kernels_csv_in_stage(trace, stream, offset, limit, None)
}

/// Like `lane_kernels_csv_for`, for the kernels of one stage only where a stage
/// is given; rows are numbered among those.
pub fn lane_kernels_csv_in_stage<T: Scalar>(
    trace: &Trace<T>,
    stream: u64,
    offset: usize,
    limit: Option<usize>,
    filter: Option<Stage>,
) -> (r: String)
    ensures
        r@ == table_page(*trace, stream, offset, limit, filter),
{
    let all = positions_on(&trace.kernels, stream);
    let at = apply_filter(trace, all, filter);
    let (start, end) = page(at.len(), offset, limit);
    let mut out = new_kernel_table();
    let mut i: usize = start;
    assert(out@ == csv::kernel_table_header() + table_lines(
        *trace,
        at@,
        start as int,
        start as int,
    ));
    while i < end
        invariant
            start <= i <= end <= at@.len(),
            forall|i: int| 0 <= i < at@.len() ==> #[trigger] at@[i] < trace.kernels@.len(),
            out@ == csv::kernel_table_header() + table_lines(*trace, at@, start as int, i as int),
        decreases end - i,
    {
        push_kernel_line(&mut out, i + 1, trace.annotations.as_slice(), &trace.kernels[at[i]]);
        i += 1;
        assert(out@ == csv::kernel_table_header() + table_lines(
            *trace,
            at@,
            start as int,
            i as int,
        ));
    }
    out
}

/// A kernel as row number `row` of a sequence.
pub open spec fn duration_line<T: Scalar>(row: nat, k: KernelEvent<T>) -> Seq<char> {
    text::decimal_text(row) + "\t"@ + k.name@ + "\t"@ + k.dur.show_places_spec(2) + "\n"@
}

/// The rows `from..to` of a sequence, numbered from one at row zero.
pub open spec fn duration_lines<T: Scalar>(
    kernels: Seq<KernelEvent<T>>,
    at: Seq<usize>,
    from: int,
    to: int,
) -> Seq<char>
    decreases to - from,
{
    if to <= from {
        Seq::empty()
    } else {
        duration_lines(kernels, at, from, to - 1) + duration_line(
            to as nat,
            kernels[at[to - 1] as int],
        )
    }
}

/// The positions of a stream's kernels from the first of a name up to the next
/// of that name; none where no kernel bears it.
pub open spec fn named_block<T>(
    kernels: Seq<KernelEvent<T>>,
    stream: u64,
    name: Seq<char>,
) -> Seq<usize> {
    let lane = stream_positions(kernels, stream);
    let start = sequence::next_named(kernels, lane, 0, name);
    if start >= lane.len() {
        Seq::empty()
    } else {
        lane.subrange(start, sequence::next_named(kernels, lane, start + 1, name))
    }
}

/// The page of a kernel sequence that is asked for.
pub open spec fn sequence_page<T: Scalar>(
    trace: Trace<T>,
    stream: u64,
    name: Seq<char>,
    offset: usize,
    limit: Option<usize>,
    filter: Option<Stage>,
) -> Seq<char> {
    let at = filtered(trace, named_block(trace.kernels@, stream, name), filter);
    let n = at.len() as int;
    "idx\tname\tdur\n"@ + duration_lines(
        trace.kernels@,
        at,
        page_start(n, offset),
        page_end(n, offset, limit),
    )
}

/// Tab-separated kernel sequence for `stream` starting at the first kernel named
/// `kernel_name`, up to (excluding) the next kernel with that same name,
/// paginated by `offset`/`limit`.
pub fn kernel_sequence_for<T: Scalar>(
    trace: &Trace<T>,
    stream: u64,
    kernel_name: &str,
    offset: usize,
    limit: Option<usize>,
) -> (r: String)
    ensures
        r@ == sequence_page(*trace, stream, kernel_name@, offset, limit, None),
{
    kernel_sequence_in_stage(trace, stream, kernel_name, offset, limit, None)
}

/// The first position from `from` on whose kernel bears a name; the end of the
/// list where there is none.
fn find_named<T: Scalar>(
    kernels: &Vec<KernelEvent<T>>,
    at: &Vec<usize>,
    from: usize,
    name: &String,
) -> (r: usize)
    requires
        from <= at@.len(),
        forall|i: int| 0 <= i < at@.len() ==> #[trigger] at@[i] < kernels@.len(),
    ensures
        r == sequence::next_named(kernels@, at@, from as int, name@),
        from <= r <= at@.len(),
{
    let mut i: usize = from;
    while i < at.len() && kernels[at[i]].name != *name
        invariant
            from <= i <= at@.len(),
            forall|i: int| 0 <= i < at@.len() ==> #[trigger] at@[i] < kernels@.len(),
            sequence::next_named(kernels@, at@, from as int, name@) == sequence::next_named(
                kernels@,
                at@,
                i as int,
                name@,
            ),
        decreases at@.len() - i,
    {
        i += 1;
    }
    i
}

/// The positions of a stream's kernels from the first of a name up to the next
/// of that name.
fn find_named_block<T: Scalar>(
    kernels: &Vec<KernelEvent<T>>,
    stream: u64,
    kernel_name: &str,
) -> (r: Vec<usize>)
    ensures
        r@ == named_block(kernels@, stream, kernel_name@),
        forall|i: int| 0 <= i < r@.len() ==> #[trigger] r@[i] < kernels@.len(),
{
    let lane = positions_on(kernels, stream);
    let name = owned(kernel_name);
    let mut out: Vec<usize> = Vec::new();
    let start: usize = find_named(kernels, &lane, 0, &name);
    if start >= lane.len() {
        return out;
    }
    let end: usize = find_named(kernels, &lane, start + 1, &name);
    let mut i: usize = start;
    while i < end
        invariant
            start <= i <= end <= lane@.len(),
            forall|i: int| 0 <= i < lane@.len() ==> #[trigger] lane@[i] < kernels@.len(),
            out@ == lane@.subrange(start as int, i as int),
        decreases end - i,
    {
        out.push(lane[i]);
        i += 1;
        assert(out@ == lane@.subrange(start as int, i as int));
    }
    out
}

/// Like `kernel_sequence_for`, with the rows of one stage only where a stage is
/// given; rows are numbered among those.
pub fn kernel_sequence_in_stage<T: Scalar>(
    trace: &Trace<T>,
    stream: u64,
    kernel_name: &str,
    offset: usize,
    limit: Option<usize>,
    filter: Option<Stage>,
) -> (r: String)
    ensures
        r@ == sequence_page(*trace, stream, kernel_name@, offset, limit, filter),
{
    let block = find_named_block(&trace.kernels, stream, kernel_name);
    let at = apply_filter(trace, block, filter);
    let (start, end) = page(at.len(), offset, limit);
    let mut out = owned("idx\tname\tdur\n");
    let mut i: usize = start;
    assert(out@ == "idx\tname\tdur\n"@ + duration_lines(
        trace.kernels@,
        at@,
        start as int,
        start as int,
    ));
    while i < end
        invariant
            start <= i <= end <= at@.len(),
            forall|i: int| 0 <= i < at@.len() ==> #[trigger] at@[i] < trace.kernels@.len(),
            out@ == "idx\tname\tdur\n"@ + duration_lines(
                trace.kernels@,
                at@,
                start as int,
                i as int,
            ),
        decreases end - i,
    {
        let k = &trace.kernels[at[i]];
        let ghost before = out@;
        push_decimal(&mut out, i as u128 + 1);
        out.append("\t");
        out.append(k.name.as_str());
        out.append("\t");
        out.append(k.dur.show_places(2).as_str());
        out.append("\n");
        assert(out@ == before + duration_line((i + 1) as nat, *k));
        i += 1;
        assert(out@ == "idx\tname\tdur\n"@ + duration_lines(
            trace.kernels@,
            at@,
            start as int,
            i as int,
        ));
    }
    out
}

/// The durations of some kernels.
pub open spec fn durations<T>(kernels: Seq<KernelEvent<T>>, at: Seq<usize>) -> Seq<T> {
    at.map_values(|i: usize| kernels[i as int].dur)
}

/// The sum of some numbers, taken one after the other from zero.
pub open spec fn total<T: Scalar>(numbers: Seq<T>) -> T
    decreases numbers.len(),
{
    if numbers.len() == 0 {
        T::whole_spec(0)
    } else {
        total(numbers.drop_last()).plus_spec(numbers.last())
    }
}

/// The name of a stage in a summary; kernels without a stage count as `none`.
pub open spec fn summary_name(stage: Option<Stage>) -> Seq<char> {
    match stage {
        Some(_) => stage::stage_text(stage),
        None => "none"@,
    }
}

/// The row of a stage in a summary of a stream; nothing where no kernel of the
/// stream belongs to it.
pub open spec fn stage_line<T: Scalar>(trace: Trace<T>, stream: u64, stage: Option<Stage>) -> Seq<
    char,
> {
    let at = of_stage(trace, stream_positions(trace.kernels@, stream), stage);
    let durs = durations(trace.kernels@, at);
    if at.len() == 0 {
        Seq::empty()
    } else {
        summary_name(stage) + ","@ + text::decimal_text(at.len()) + ","@ + total(
            durs,
        ).show_places_spec(2) + ","@ + sequence::median(durs).show_places_spec(2) + "\n"@
    }
}

/// The column titles of a summary by stages.
pub open spec fn stage_summary_header() -> Seq<char> {
    "stage,kernels,total_dur,median_dur\n"@
}

/// Appends the row of a stage in a summary of a stream.
fn push_stage_line<T: Scalar>(
    out: &mut String,
    trace: &Trace<T>,
    stream: u64,
    stage: Option<Stage>,
    name: &str,
)
    requires
        name@ == summary_name(stage),
    ensures
        final(out)@ == old(out)@ + stage_line(*trace, stream, stage),
{
    let all = positions_on(&trace.kernels, stream);
    let at = keep_stage(trace, &all, stage);
    if at.len() == 0 {
        assert(old(out)@ + Seq::<char>::empty() == old(out)@);
        return;
    }
    let mut durs: Vec<T> = Vec::new();
    let mut sum = T::whole(0);
    let mut i: usize = 0;
    let ghost goal = durations(trace.kernels@, at@);
    while i < at.len()
        invariant
            i <= at@.len(),
            forall|i: int| 0 <= i < at@.len() ==> #[trigger] at@[i] < trace.kernels@.len(),
            goal == durations(trace.kernels@, at@),
            durs@ == goal.take(i as int),
            sum == total(goal.take(i as int)),
        decreases at@.len() - i,
    {
        assert(goal.take(i + 1).drop_last() == goal.take(i as int));
        let d = trace.kernels[at[i]].dur;
        durs.push(d);
        sum = sum.plus(d);
        i += 1;
        assert(durs@ == goal.take(i as int));
    }
    assert(goal.take(goal.len() as int) == goal);
    out.append(name);
    out.append(",");
    push_decimal(out, at.len() as u128);
    out.append(",");
    out.append(sum.show_places(2).as_str());
    out.append(",");
    out.append(median_of(durs.as_slice()).show_places(2).as_str());
    out.append("\n");
    assert(out@ == old(out)@ + stage_line(*trace, stream, stage));
}

/// The summary of a stream by stages: the column titles, then the row of each
/// stage that has kernels there.
pub open spec fn stage_table<T: Scalar>(trace: Trace<T>, stream: u64) -> Seq<char> {
    stage_summary_header() + stage_line(trace, stream, Some(Stage::Prefill)) + stage_line(
        trace,
        stream,
        Some(Stage::Decode),
    ) + stage_line(trace, stream, Some(Stage::Mixed)) + stage_line(trace, stream, None)
}

/// Per-stage aggregate stats for one stream: kernel count, total duration and
/// median duration for each of prefill/decode/mixed/none present on the stream.
pub fn stage_summary_for<T: Scalar>(trace: &Trace<T>, stream: u64) -> (r: String)
    ensures
        r@ == stage_table(*trace, stream),
{
    let mut out = owned("stage,kernels,total_dur,median_dur\n");
    push_stage_line(
        &mut out,
        trace,
        stream,
        Some(Stage::Prefill),
        stage::stage_label(Some(Stage::Prefill)),
    );
    push_stage_line(
        &mut out,
        trace,
        stream,
        Some(Stage::Decode),
        stage::stage_label(Some(Stage::Decode)),
    );
    push_stage_line(
        &mut out,
        trace,
        stream,
        Some(Stage::Mixed),
        stage::stage_label(Some(Stage::Mixed)),
    );
    push_stage_line(&mut out, trace, stream, None, "none");
    out
}

/// How many kernels of a trace belong to each stage.
#[derive(Debug, Clone, Copy, PartialEq, Eq, Structural)]
pub struct StageCounts {
    pub prefill: usize,
    pub decode: usize,
    pub mixed: usize,
    pub none: usize,
}

/// Aggregate, always-bounded overview of a trace: never holds per-kernel rows.
#[derive(Debug, Clone)]
pub struct TraceSummary<T> {
    pub kernel_count: usize,
    pub annotation_count: usize,
    pub streams: Vec<u64>,
    pub start_ts: T,
    pub end_ts: T,
    pub duration: T,
    pub stages: StageCounts,
}

/// How many of the first `n` kernels belong to a stage.
pub open spec fn stage_count<T: Scalar>(trace: Trace<T>, stage: Option<Stage>, n: int) -> int
    decreases n,
{
    if n <= 0 {
        0
    } else if csv::kernel_stage(trace.annotations@, trace.kernels@[n - 1]) == stage {
        stage_count(trace, stage, n - 1) + 1
    } else {
        stage_count(trace, stage, n - 1)
    }
}

/// How many of the first `n` kernels belong to each stage.
pub open spec fn stage_counts<T: Scalar>(trace: Trace<T>, n: int) -> StageCounts {
    StageCounts {
        prefill: stage_count(trace, Some(Stage::Prefill), n) as usize,
        decode: stage_count(trace, Some(Stage::Decode), n) as usize,
        mixed: stage_count(trace, Some(Stage::Mixed), n) as usize,
        none: stage_count(trace, None, n) as usize,
    }
}

/// Every kernel belongs to exactly one stage, or to none: the counts add up.
pub proof fn stage_counts_add_up<T: Scalar>(trace: Trace<T>, n: int)
    requires
        0 <= n,
    ensures
        stage_count(trace, Some(Stage::Prefill), n) + stage_count(trace, Some(Stage::Decode), n)
            + stage_count(trace, Some(Stage::Mixed), n) + stage_count(trace, None, n) == n,
        0 <= stage_count(trace, Some(Stage::Prefill), n),
        0 <= stage_count(trace, Some(Stage::Decode), n),
        0 <= stage_count(trace, Some(Stage::Mixed), n),
        0 <= stage_count(trace, None, n),
    decreases n,
{
    if n > 0 {
        stage_counts_add_up(trace, n - 1);
    }
}

/// The starts of some kernels.
pub open spec fn starts_of<T>(kernels: Seq<KernelEvent<T>>) -> Seq<T> {
    kernels.map_values(|k: KernelEvent<T>| k.ts)
}

/// The ends of some kernels.
pub open spec fn ends_of<T: Scalar>(kernels: Seq<KernelEvent<T>>) -> Seq<T> {
    kernels.map_values(|k: KernelEvent<T>| k.end_spec())
}

/// The streams of the events of a trace, ascending.
pub open spec fn trace_streams<T: Scalar>(trace: Trace<T>) -> Seq<u64> {
    sort::distinct_sorted(
        trace.kernels@.map_values(|k: KernelEvent<T>| k.stream) + trace.annotations@.map_values(
            |a: AnnotationEvent<T>| a.stream,
        ),
    )
}

/// Whether an overview is that of a trace.
pub open spec fn summarises<T: Scalar>(trace: Trace<T>, r: TraceSummary<T>) -> bool {
    &&& r.kernel_count == trace.kernels@.len()
    &&& r.annotation_count == trace.annotations@.len()
    &&& r.streams@ == trace_streams(trace)
    &&& r.start_ts == if trace.kernels@.len() == 0 {
        T::whole_spec(0)
    } else {
        navigation::least(starts_of(trace.kernels@), T::infinity_spec())
    }
    &&& r.end_ts == if trace.kernels@.len() == 0 {
        T::whole_spec(0)
    } else {
        navigation::greatest(ends_of(trace.kernels@), T::neg_infinity_spec())
    }
    &&& r.duration == r.end_ts.minus_spec(r.start_ts)
    &&& r.stages == stage_counts(trace, trace.kernels@.len() as int)
}

/// An overview of a trace: how many kernels and annotations it has, on which
/// streams, from when to when, and how the kernels fall into stages.
pub fn summary<T: Scalar>(trace: &Trace<T>) -> (r: TraceSummary<T>)
    ensures
        summarises(*trace, r),
{
    let n: usize = trace.kernels.len();
    let mut streams: Vec<u64> = Vec::new();
    let mut start = T::infinity();
    let mut end = T::neg_infinity();
    let mut stages = StageCounts { prefill: 0, decode: 0, mixed: 0, none: 0 };
    let ghost ks = trace.kernels@.map_values(|k: KernelEvent<T>| k.stream);
    let ghost ans = trace.annotations@.map_values(|a: AnnotationEvent<T>| a.stream);
    let ghost starts = starts_of(trace.kernels@);
    let ghost ends = ends_of(trace.kernels@);
    let mut i: usize = 0;
    while i < n
        invariant
            i <= n == trace.kernels@.len(),
            ks == trace.kernels@.map_values(|k: KernelEvent<T>| k.stream),
            starts == starts_of(trace.kernels@),
            ends == ends_of(trace.kernels@),
            streams@ == sort::distinct_sorted(ks.take(i as int)),
            start == navigation::least(starts.take(i as int), T::infinity_spec()),
            end == navigation::greatest(ends.take(i as int), T::neg_infinity_spec()),
            stages == stage_counts(*trace, i as int),
        decreases n - i,
    {
        let k = &trace.kernels[i];
        proof {
            assert(ks.take(i + 1).drop_last() == ks.take(i as int));
            assert(starts.take(i + 1).drop_last() == starts.take(i as int));
            assert(ends.take(i + 1).drop_last() == ends.take(i as int));
            stage_counts_add_up(*trace, i as int);
            stage_counts_add_up(*trace, i + 1);
        }
        add_number(&mut streams, k.stream);
        start = start.smaller(k.ts);
        end = end.larger(k.end_ts());
        match stage_of_kernel(&trace.annotations, k) {
            Some(Stage::Prefill) => {
                stages.prefill = stages.prefill + 1;
            },
            Some(Stage::Decode) => {
                stages.decode = stages.decode + 1;
            },
            Some(Stage::Mixed) => {
                stages.mixed = stages.mixed + 1;
            },
            None => {
                stages.none = stages.none + 1;
            },
        }
        i += 1;
    }
    assert(ks.take(n as int) == ks);
    assert(starts.take(n as int) == starts);
    assert(ends.take(n as int) == ends);
    let mut j: usize = 0;
    assert(ks + ans.take(0) == ks);
    while j < trace.annotations.len()
        invariant
            j <= trace.annotations@.len(),
            ans == trace.annotations@.map_values(|a: AnnotationEvent<T>| a.stream),
            streams@ == sort::distinct_sorted(ks + ans.take(j as int)),
        decreases trace.annotations@.len() - j,
    {
        proof {
            let all = ks + ans.take(j + 1);
            assert(all.drop_last() == ks + ans.take(j as int));
            assert(all.last() == ans[j as int]);
        }
        add_number(&mut streams, trace.annotations[j].stream);
        j += 1;
    }
    assert(ans.take(ans.len() as int) == ans);
    let (start_ts, end_ts) = if n == 0 {
        (T::whole(0), T::whole(0))
    } else {
        (start, end)
    };
    TraceSummary {
        kernel_count: n,
        annotation_count: trace.annotations.len(),
        streams,
        start_ts,
        end_ts,
        duration: end_ts.minus(start_ts),
        stages,
    }
}

/// The positions of a stream are exactly those of its kernels, ascending.
pub proof fn a_stream_holds_exactly_its_kernels<T>(kernels: Seq<KernelEvent<T>>, stream: u64)
    requires
        kernels.len() <= usize::MAX,
    ensures
        ({
            let at = stream_positions(kernels, stream);
            &&& forall|i: int|
                0 <= i < at.len() ==> (#[trigger] at[i]) < kernels.len() && kernels[at[i] as int].stream
                    == stream
            &&& forall|i: int, j: int| 0 <= i < j < at.len() ==> at[i] < at[j]
            &&& forall|p: int|
                0 <= p < kernels.len() && (#[trigger] kernels[p]).stream == stream ==> at.contains(
                    p as usize,
                )
        }),
    decreases kernels.len(),
{
    if kernels.len() > 0 {
        let rest = kernels.drop_last();
        a_stream_holds_exactly_its_kernels(rest, stream);
        let before = stream_positions(rest, stream);
        let at = stream_positions(kernels, stream);
        assert forall|i: int| 0 <= i < at.len() implies (#[trigger] at[i]) < kernels.len()
            && kernels[at[i] as int].stream == stream by {
            if i < before.len() {
                assert(at[i] == before[i]);
                assert(kernels[at[i] as int] == rest[before[i] as int]);
            }
        }
        assert forall|i: int, j: int| 0 <= i < j < at.len() implies at[i] < at[j] by {
            assert(at[i] == before[i]);
            if j < before.len() {
                assert(at[j] == before[j]);
            } else {
                assert(before[i] < rest.len());
            }
        }
        assert forall|p: int|
            0 <= p < kernels.len() && (#[trigger] kernels[p]).stream == stream implies at.contains(
            p as usize,
        ) by {
            if p < rest.len() {
                assert(rest[p].stream == stream);
                let i = choose|i: int| 0 <= i < before.len() && before[i] == p as usize;
                assert(at[i] == p as usize);
            } else {
                assert(at.last() == p as usize);
            }
        }
    }
}

/// A stage filter keeps exactly the kernels of its stage, in their order.
pub proof fn filters_keep_exactly_their_stage<T: Scalar>(
    trace: Trace<T>,
    at: Seq<usize>,
    stage: Option<Stage>,
)
    ensures
        ({
            let kept = of_stage(trace, at, stage);
            &&& kept.len() <= at.len()
            &&& forall|i: int|
                0 <= i < kept.len() ==> at.contains(#[trigger] kept[i]) && csv::kernel_stage(
                    trace.annotations@,
                    trace.kernels@[kept[i] as int],
                ) == stage
            &&& forall|i: int|
                0 <= i < at.len() && csv::kernel_stage(
                    trace.annotations@,
                    trace.kernels@[#[trigger] at[i] as int],
                ) == stage ==> kept.contains(at[i])
        }),
    decreases at.len(),
{
    if at.len() > 0 {
        let rest = at.drop_last();
        filters_keep_exactly_their_stage(trace, rest, stage);
        let before = of_stage(trace, rest, stage);
        let kept = of_stage(trace, at, stage);
        assert forall|i: int| 0 <= i < kept.len() implies at.contains(#[trigger] kept[i])
            && csv::kernel_stage(trace.annotations@, trace.kernels@[kept[i] as int]) == stage by {
            if i < before.len() {
                assert(kept[i] == before[i]);
                let k = choose|k: int| 0 <= k < rest.len() && rest[k] == before[i];
                assert(at[k] == kept[i]);
            } else {
                assert(at[at.len() - 1] == kept[i]);
            }
        }
        assert forall|i: int|
            0 <= i < at.len() && csv::kernel_stage(
                trace.annotations@,
                trace.kernels@[#[trigger] at[i] as int],
            ) == stage implies kept.contains(at[i]) by {
            if i < rest.len() {
                assert(rest[i] == at[i]);
                let k = choose|k: int| 0 <= k < before.len() && before[k] == at[i];
                assert(kept[k] == at[i]);
            } else {
                assert(kept.last() == at[i]);
            }
        }
    }
}

} // verus!
