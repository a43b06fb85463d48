//! Tables of kernels: what a reader finds in them, and which rows a page shows.
use vstd::prelude::*;
use crate::app::sequence;
use crate::app::App;
use crate::csv;
use crate::mcp_core;
use crate::scalar::{self, Scalar};
use crate::stage::{self, Stage};
use crate::text;
use crate::trace::{AnnotationEvent, KernelEvent, Trace};

verus! {

/// The `n` fields that a reader of comma-separated values finds in a line.
pub open spec fn read_row(line: Seq<char>, n: nat) -> Seq<Seq<char>>
    decreases n,
{
    if n == 0 {
        Seq::empty()
    } else {
        let (field, tail) = text::read_csv_field(line);
        seq![field] + read_row(tail.skip(1), (n - 1) as nat)
    }
}

proof fn lemma_joined_front(parts: Seq<Seq<char>>, sep: Seq<char>)
    requires
        parts.len() >= 2,
    ensures
        text::joined(parts, sep) == parts[0] + sep + text::joined(parts.skip(1), sep),
    decreases parts.len(),
{
    let rest = parts.skip(1);
    if parts.len() == 2 {
        reveal_with_fuel(text::joined, 2);
        assert(parts.drop_last()[0] == parts[0]);
        assert(rest[0] == parts[1]);
        assert(text::joined(parts, sep) == parts[0] + sep + text::joined(rest, sep));
    } else {
        lemma_joined_front(parts.drop_last(), sep);
        assert(parts.drop_last().skip(1) == rest.drop_last());
        assert(parts.drop_last()[0] == parts[0]);
        assert(rest.last() == parts.last());
        assert(text::joined(parts, sep) == parts[0] + sep + text::joined(rest, sep));
    }
}

/// Whether each field is its value, written as a field.
spec fn writes(fields: Seq<Seq<char>>, values: Seq<Seq<char>>) -> bool {
    fields.len() == values.len() && forall|i: int|
        0 <= i < fields.len() ==> #[trigger] fields[i] == text::csv_field(values[i])
}

proof fn lemma_row_is_read(fields: Seq<Seq<char>>, values: Seq<Seq<char>>)
    requires
        writes(fields, values),
        fields.len() > 0,
    ensures
        read_row(text::joined(fields, ","@) + "\n"@, values.len()) == values,
    decreases fields.len(),
{
    reveal_strlit(",");
    reveal_strlit("\n");
    let n = fields.len();
    let line = text::joined(fields, ","@) + "\n"@;
    assert(fields[0] == text::csv_field(values[0]));
    if n == 1 {
        text::csv_fields_are_read_back(values[0], "\n"@);
        assert(read_row("\n"@.skip(1), 0) == Seq::<Seq<char>>::empty());
        assert(read_row(line, 1) == values);
    } else {
        let rest = fields.skip(1);
        let more = values.skip(1);
        assert forall|i: int| 0 <= i < rest.len() implies #[trigger] rest[i] == text::csv_field(
            more[i],
        ) by {
            assert(fields[i + 1] == text::csv_field(values[i + 1]));
        }
        lemma_row_is_read(rest, more);
        lemma_joined_front(fields, ","@);
        let next = text::joined(rest, ","@) + "\n"@;
        let tail = ","@ + next;
        assert(line == text::csv_field(values[0]) + tail);
        text::csv_fields_are_read_back(values[0], tail);
        assert(tail.skip(1) == next);
        assert(seq![values[0]] + more == values);
        assert((n - 1) as nat == more.len());
    }
}

/// Whether a text needs no quotes in a table.
pub open spec fn is_plain(s: Seq<char>) -> bool {
    !text::csv_needs_quotes(s)
}

proof fn lemma_digits_are_plain(n: nat)
    ensures
        is_plain(text::decimal_text(n)),
    decreases n,
{
    let s = text::decimal_text(n);
    if n >= 10 {
        lemma_digits_are_plain(n / 10);
        assert forall|i: int| 0 <= i < s.len() implies !text::csv_special(#[trigger] s[i]) by {
            if i < s.len() - 1 {
                assert(s[i] == text::decimal_text(n / 10)[i]);
                assert(!text::csv_special(text::decimal_text(n / 10)[i]));
            }
        }
    }
}

/// An optional text, empty where there is none.
pub open spec fn or_empty(s: Option<String>) -> Seq<char> {
    match s {
        Some(t) => t@,
        None => Seq::empty(),
    }
}

/// An optional count in decimal, empty where there is none.
pub open spec fn count_or_empty(n: Option<u64>) -> Seq<char> {
    match n {
        Some(v) => text::decimal_text(v as nat),
        None => Seq::empty(),
    }
}

/// The titles of a kernel table, as a reader finds them.
pub open spec fn titles() -> Seq<Seq<char>> {
    seq![
        "idx"@,
        "annotation"@,
        "stage"@,
        "name"@,
        "ts"@,
        "dur"@,
        "end_ts"@,
        "stream"@,
        "device"@,
        "grid"@,
        "block"@,
        "shared_memory"@,
        "registers_per_thread"@,
        "correlation"@,
    ]
}

/// A reader of a kernel table finds under each title what it names: the row number, the
/// annotation over the kernel and the stage that it tells, and the fields of the kernel,
/// whatever characters they hold.
pub proof fn table_rows_are_read_back<T: Scalar>(
    row: nat,
    annotations: Seq<AnnotationEvent<T>>,
    k: KernelEvent<T>,
    c: int,
)
    requires
        is_plain(k.ts.show_spec()),
        is_plain(k.dur.show_spec()),
        is_plain(k.ts.plus_spec(k.dur).show_spec()),
        0 <= c < titles().len(),
    ensures
        ({
            let read = read_row(csv::kernel_line(row, annotations, k), titles().len());
            let over = csv::annotation_at(annotations, k.stream, k.trace_id, k.ts);
            let title = titles()[c];
            &&& read.len() == titles().len()
            &&& title == "idx"@ ==> read[c] == text::decimal_text(row)
            &&& title == "annotation"@ ==> read[c] == match over {
                Some(a) => a.name@,
                None => Seq::empty(),
            }
            &&& title == "stage"@ ==> read[c] == match csv::kernel_stage(annotations, k) {
                Some(Stage::Prefill) => "prefill"@,
                Some(Stage::Decode) => "decode"@,
                Some(Stage::Mixed) => "mixed"@,
                None => Seq::empty(),
            }
            &&& title == "name"@ ==> read[c] == k.name@
            &&& title == "ts"@ ==> read[c] == k.ts.show_spec()
            &&& title == "dur"@ ==> read[c] == k.dur.show_spec()
            &&& title == "end_ts"@ ==> read[c] == k.ts.plus_spec(k.dur).show_spec()
            &&& title == "stream"@ ==> read[c] == text::decimal_text(k.stream as nat)
            &&& title == "device"@ ==> read[c] == text::decimal_text(k.device as nat)
            &&& title == "grid"@ ==> read[c] == or_empty(k.grid)
            &&& title == "block"@ ==> read[c] == or_empty(k.block)
            &&& title == "shared_memory"@ ==> read[c] == count_or_empty(k.shared_memory)
            &&& title == "registers_per_thread"@ ==> read[c] == count_or_empty(
                k.registers_per_thread,
            )
            &&& title == "correlation"@ ==> read[c] == count_or_empty(k.correlation)
        }),
{
    let fields = csv::kernel_fields(row, annotations, k);
    let over = match csv::annotation_at(annotations, k.stream, k.trace_id, k.ts) {
        Some(a) => a.name@,
        None => Seq::empty(),
    };
    let stage = stage::stage_text(csv::kernel_stage(annotations, k));
    let values = seq![
        text::decimal_text(row),
        over,
        stage,
        k.name@,
        k.ts.show_spec(),
        k.dur.show_spec(),
        k.ts.plus_spec(k.dur).show_spec(),
        text::decimal_text(k.stream as nat),
        text::decimal_text(k.device as nat),
        or_empty(k.grid),
        or_empty(k.block),
        count_or_empty(k.shared_memory),
        count_or_empty(k.registers_per_thread),
        count_or_empty(k.correlation),
    ];
    lemma_digits_are_plain(row);
    lemma_digits_are_plain(k.stream as nat);
    lemma_digits_are_plain(k.device as nat);
    lemma_count_is_plain(k.shared_memory);
    lemma_count_is_plain(k.registers_per_thread);
    lemma_count_is_plain(k.correlation);
    lemma_stage_is_plain(csv::kernel_stage(annotations, k));
    assert(fields.len() == 14 && values.len() == 14);
    assert(writes(fields, values));
    lemma_row_is_read(fields, values);
    lemma_titles_differ(c);
}

proof fn lemma_count_is_plain(n: Option<u64>)
    ensures
        is_plain(count_or_empty(n)),
{
    if let Some(v) = n {
        lemma_digits_are_plain(v as nat);
    }
}

proof fn lemma_stage_is_plain(stage: Option<Stage>)
    ensures
        is_plain(stage::stage_text(stage)),
        stage is None ==> stage::stage_text(stage) == Seq::<char>::empty(),
{
    reveal_strlit("prefill");
    reveal_strlit("decode");
    reveal_strlit("mixed");
    reveal_strlit("");
    assert(""@ == Seq::<char>::empty());
}

/// Each title stands in its own column.
proof fn lemma_titles_differ(c: int)
    requires
        0 <= c < titles().len(),
    ensures
        titles()[c] == "idx"@ ==> c == 0,
        titles()[c] == "annotation"@ ==> c == 1,
        titles()[c] == "stage"@ ==> c == 2,
        titles()[c] == "name"@ ==> c == 3,
        titles()[c] == "ts"@ ==> c == 4,
        titles()[c] == "dur"@ ==> c == 5,
        titles()[c] == "end_ts"@ ==> c == 6,
        titles()[c] == "stream"@ ==> c == 7,
        titles()[c] == "device"@ ==> c == 8,
        titles()[c] == "grid"@ ==> c == 9,
        titles()[c] == "block"@ ==> c == 10,
        titles()[c] == "shared_memory"@ ==> c == 11,
        titles()[c] == "registers_per_thread"@ ==> c == 12,
        titles()[c] == "correlation"@ ==> c == 13,
{
    reveal_strlit("idx");
    reveal_strlit("annotation");
    reveal_strlit("stage");
    reveal_strlit("name");
    reveal_strlit("ts");
    reveal_strlit("dur");
    reveal_strlit("end_ts");
    reveal_strlit("stream");
    reveal_strlit("device");
    reveal_strlit("grid");
    reveal_strlit("block");
    reveal_strlit("shared_memory");
    reveal_strlit("registers_per_thread");
    reveal_strlit("correlation");
    assert("idx"@.len() == 3 && "annotation"@.len() == 10 && "stage"@.len() == 5 && "name"@.len()
        == 4 && "ts"@.len() == 2 && "dur"@.len() == 3 && "end_ts"@.len() == 6 && "stream"@.len()
        == 6 && "device"@.len() == 6 && "grid"@.len() == 4 && "block"@.len() == 5
        && "shared_memory"@.len() == 13 && "registers_per_thread"@.len() == 20
        && "correlation"@.len() == 11);
    assert("idx"@[0] == 'i' && "stage"@[0] == 's' && "name"@[0] == 'n' && "dur"@[0] == 'd'
        && "end_ts"@[0] == 'e' && "stream"@[0] == 's' && "device"@[0] == 'd' && "grid"@[0] == 'g'
        && "block"@[0] == 'b');
}

/// Texts one after the other.
pub open spec fn concatenated(parts: Seq<Seq<char>>) -> Seq<char>
    decreases parts.len(),
{
    if parts.len() == 0 {
        Seq::empty()
    } else {
        concatenated(parts.drop_last()) + parts.last()
    }
}

proof fn lemma_lane_lines<T: Scalar>(app: App<T>, items: Seq<usize>, n: int)
    requires
        0 <= n <= items.len(),
        forall|p: int| 0 <= p < items.len() ==> #[trigger] items[p] < app.kernels@.len(),
    ensures
        app.lane_lines(items, n) == concatenated(
            Seq::new(
                n as nat,
                |i: int|
                    csv::kernel_line(
                        (i + 1) as nat,
                        app.annotations@,
                        app.kernels@[items[i] as int],
                    ),
            ),
        ),
    decreases n,
{
    let lines = Seq::new(
        n as nat,
        |i: int|
            csv::kernel_line((i + 1) as nat, app.annotations@, app.kernels@[items[i] as int]),
    );
    if n > 0 {
        lemma_lane_lines(app, items, n - 1);
        assert(items[n - 1] < app.kernels@.len());
        assert(lines.drop_last() == Seq::new(
            (n - 1) as nat,
            |i: int|
                csv::kernel_line((i + 1) as nat, app.annotations@, app.kernels@[items[i] as int]),
        ));
    }
}

/// The export of a lane has one row for each of its kernels, in their order and numbered
/// from one.
pub proof fn an_export_has_a_row_for_each_kernel<T: Scalar>(app: App<T>, items: Seq<usize>)
    requires
        forall|p: int| 0 <= p < items.len() ==> #[trigger] items[p] < app.kernels@.len(),
    ensures
        app.lane_lines(items, items.len() as int) == concatenated(
            Seq::new(
                items.len(),
                |i: int|
                    csv::kernel_line(
                        (i + 1) as nat,
                        app.annotations@,
                        app.kernels@[items[i] as int],
                    ),
            ),
        ),
        app.active_lane < app.lanes@.len() ==> app.kernel_lane_items(app.active_lane) == if
            app.lanes@[app.active_lane as int]@.annotations {
            None
        } else {
            Some(app.lanes@[app.active_lane as int]@.items)
        },
{
    lemma_lane_lines(app, items, items.len() as int);
}

/// Whether `at` lists the positions of some kernels of a trace, ascending: those on a
/// stream, and with a stage filter only those of that stage.
pub open spec fn lists_stream<T: Scalar>(
    trace: Trace<T>,
    stream: u64,
    filter: Option<Stage>,
    at: Seq<usize>,
) -> bool {
    &&& forall|i: int|
        0 <= i < at.len() ==> (#[trigger] at[i]) < trace.kernels@.len() && shows(
            trace,
            stream,
            filter,
            at[i] as int,
        )
    &&& forall|i: int, j: int| 0 <= i < j < at.len() ==> at[i] < at[j]
    &&& forall|p: int|
        0 <= p < trace.kernels@.len() && #[trigger] shows(trace, stream, filter, p)
            ==> at.contains(p as usize)
}

/// Whether a kernel is on a stream, and of a stage where one is asked for.
pub open spec fn shows<T: Scalar>(
    trace: Trace<T>,
    stream: u64,
    filter: Option<Stage>,
    p: int,
) -> bool {
    trace.kernels@[p].stream == stream && (filter is Some ==> csv::kernel_stage(
        trace.annotations@,
        trace.kernels@[p],
    ) == filter)
}

/// The first row of a page of `n` rows, and the row behind its last: a page holds a
/// hundred rows where nothing is asked for, and a thousand at most.
pub open spec fn rows_of_page(n: int, offset: usize, limit: Option<usize>) -> (int, int) {
    let size: int = match limit {
        Some(l) => if l < 1000 {
            l as int
        } else {
            1000
        },
        None => 100,
    };
    let from: int = if offset < n {
        offset as int
    } else {
        n
    };
    (
        from,
        if from + size < n {
            from + size
        } else {
            n
        },
    )
}

proof fn lemma_page(n: int, offset: usize, limit: Option<usize>)
    requires
        0 <= n,
    ensures
        mcp_core::page_start(n, offset) == rows_of_page(n, offset, limit).0,
        mcp_core::page_end(n, offset, limit) == rows_of_page(n, offset, limit).1,
        0 <= rows_of_page(n, offset, limit).0 <= rows_of_page(n, offset, limit).1 <= n,
{
}

proof fn lemma_of_stage_ascends<T: Scalar>(trace: Trace<T>, at: Seq<usize>, stage: Option<Stage>)
    requires
        forall|i: int, j: int| 0 <= i < j < at.len() ==> at[i] < at[j],
    ensures
        ({
            let kept = mcp_core::of_stage(trace, at, stage);
            &&& forall|i: int, j: int| 0 <= i < j < kept.len() ==> kept[i] < kept[j]
            &&& forall|i: int| 0 <= i < kept.len() ==> at.contains(#[trigger] kept[i])
        }),
    decreases at.len(),
{
    if at.len() > 0 {
        let rest = at.drop_last();
        assert forall|i: int, j: int| 0 <= i < j < rest.len() implies rest[i] < rest[j] by {
            assert(at[i] < at[j]);
        }
        lemma_of_stage_ascends(trace, rest, stage);
        let before = mcp_core::of_stage(trace, rest, stage);
        let kept = mcp_core::of_stage(trace, at, stage);
        assert forall|i: int| 0 <= i < kept.len() implies at.contains(#[trigger] kept[i]) by {
            if i < before.len() {
                assert(kept[i] == before[i]);
                let k = choose|k: int| 0 <= k < rest.len() && rest[k] == before[i];
                assert(at[k] == kept[i]);
            } else {
                assert(at[at.len() - 1] == kept[i]);
            }
        }
        assert forall|i: int, j: int| 0 <= i < j < kept.len() implies kept[i] < kept[j] by {
            assert(kept[i] == before[i]);
            if j < before.len() {
                assert(kept[j] == before[j]);
            } else {
                let k = choose|k: int| 0 <= k < rest.len() && rest[k] == before[i];
                assert(at[k] < at[at.len() - 1]);
            }
        }
    }
}

proof fn lemma_filtered<T: Scalar>(trace: Trace<T>, stream: u64, filter: Option<Stage>)
    requires
        trace.kernels@.len() <= usize::MAX,
    ensures
        lists_stream(
            trace,
            stream,
            filter,
            mcp_core::filtered(trace, mcp_core::stream_positions(trace.kernels@, stream), filter),
        ),
{
    let all = mcp_core::stream_positions(trace.kernels@, stream);
    let at = mcp_core::filtered(trace, all, filter);
    mcp_core::a_stream_holds_exactly_its_kernels(trace.kernels@, stream);
    if filter is Some {
        mcp_core::filters_keep_exactly_their_stage(trace, all, filter);
        lemma_of_stage_ascends(trace, all, filter);
    }
    assert forall|i: int| 0 <= i < at.len() implies (#[trigger] at[i]) < trace.kernels@.len()
        && shows(trace, stream, filter, at[i] as int) by {
        if filter is Some {
            assert(all.contains(at[i]));
            let k = choose|k: int| 0 <= k < all.len() && all[k] == at[i];
            assert(all[k] < trace.kernels@.len());
        }
    }
    assert forall|p: int|
        0 <= p < trace.kernels@.len() && #[trigger] shows(
            trace,
            stream,
            filter,
            p,
        ) implies at.contains(p as usize) by {
        assert(trace.kernels@[p].stream == stream);
        assert(all.contains(p as usize));
        let k = choose|k: int| 0 <= k < all.len() && all[k] == p as usize;
        if filter is Some {
            assert(at.contains(all[k]));
        }
    }
}

proof fn lemma_table_lines<T: Scalar>(trace: Trace<T>, at: Seq<usize>, from: int, to: int)
    requires
        0 <= from <= to <= at.len(),
    ensures
        mcp_core::table_lines(trace, at, from, to) == concatenated(
            Seq::new(
                (to - from) as nat,
                |i: int|
                    csv::kernel_line(
                        (from + i + 1) as nat,
                        trace.annotations@,
                        trace.kernels@[at[from + i] as int],
                    ),
            ),
        ),
    decreases to - from,
{
    if from < to {
        lemma_table_lines(trace, at, from, to - 1);
        let lines = Seq::new(
            (to - from) as nat,
            |i: int|
                csv::kernel_line(
                    (from + i + 1) as nat,
                    trace.annotations@,
                    trace.kernels@[at[from + i] as int],
                ),
        );
        assert(lines.drop_last() == Seq::new(
            (to - 1 - from) as nat,
            |i: int|
                csv::kernel_line(
                    (from + i + 1) as nat,
                    trace.annotations@,
                    trace.kernels@[at[from + i] as int],
                ),
        ));
    }
}

/// A page of the kernel table of a stream shows the rows that are asked for, among the
/// kernels on that stream in their order, or among those of the stage that is asked for;
/// each row bears its number among them.
pub proof fn table_pages_show_the_rows_asked_for<T: Scalar>(
    trace: Trace<T>,
    stream: u64,
    offset: usize,
    limit: Option<usize>,
    filter: Option<Stage>,
) -> (at: Seq<usize>)
    requires
        trace.kernels@.len() <= usize::MAX,
    ensures
        lists_stream(trace, stream, filter, at),
        ({
            let (from, to) = rows_of_page(at.len() as int, offset, limit);
            mcp_core::table_page(trace, stream, offset, limit, filter)
                == "idx,annotation,stage,name,ts,dur,end_ts,stream,device,grid,block,shared_memory,registers_per_thread,correlation\n"@
                + concatenated(
                Seq::new(
                    (to - from) as nat,
                    |i: int|
                        csv::kernel_line(
                            (from + i + 1) as nat,
                            trace.annotations@,
                            trace.kernels@[at[from + i] as int],
                        ),
                ),
            )
        }),
{
    let at = mcp_core::filtered(
        trace,
        mcp_core::stream_positions(trace.kernels@, stream),
        filter,
    );
    lemma_filtered(trace, stream, filter);
    lemma_page(at.len() as int, offset, limit);
    let (from, to) = rows_of_page(at.len() as int, offset, limit);
    lemma_table_lines(trace, at, from, to);
    at
}

/// Whether `lane` lists the kernels on a stream and `start..end` of it is the block of a
/// name: it starts with the first kernel of that name and ends before the next one, or
/// with the lane.
pub open spec fn is_named_block<T>(
    kernels: Seq<KernelEvent<T>>,
    lane: Seq<usize>,
    name: Seq<char>,
    start: int,
    end: int,
) -> bool {
    &&& 0 <= start <= end <= lane.len()
    &&& forall|p: int| 0 <= p < start ==> kernels[#[trigger] lane[p] as int].name@ != name
    &&& start < lane.len() ==> start < end && kernels[lane[start] as int].name@ == name
    &&& forall|p: int| start < p < end ==> kernels[#[trigger] lane[p] as int].name@ != name
    &&& end < lane.len() ==> kernels[lane[end] as int].name@ == name
}

proof fn lemma_duration_lines<T: Scalar>(
    kernels: Seq<KernelEvent<T>>,
    at: Seq<usize>,
    from: int,
    to: int,
)
    requires
        0 <= from <= to <= at.len(),
    ensures
        mcp_core::duration_lines(kernels, at, from, to) == concatenated(
            Seq::new(
                (to - from) as nat,
                |i: int|
                    text::decimal_text((from + i + 1) as nat) + "\t"@ + kernels[
                        at[from + i] as int
                    ].name@ + "\t"@ + kernels[at[from + i] as int].dur.show_places_spec(2)
                        + "\n"@,
            ),
        ),
    decreases to - from,
{
    if from < to {
        lemma_duration_lines(kernels, at, from, to - 1);
        let lines = Seq::new(
            (to - from) as nat,
            |i: int|
                text::decimal_text((from + i + 1) as nat) + "\t"@ + kernels[
                    at[from + i] as int
                ].name@ + "\t"@ + kernels[at[from + i] as int].dur.show_places_spec(2) + "\n"@,
        );
        assert(lines.drop_last() == Seq::new(
            (to - 1 - from) as nat,
            |i: int|
                text::decimal_text((from + i + 1) as nat) + "\t"@ + kernels[
                    at[from + i] as int
                ].name@ + "\t"@ + kernels[at[from + i] as int].dur.show_places_spec(2) + "\n"@,
        ));
    }
}

/// A kernel sequence runs on its stream from the first kernel of its name up to the next
/// one; with a stage filter it shows those of that stage only. Its page shows the rows
/// that are asked for, each with its number, name and duration.
pub proof fn sequence_pages_show_the_block_of_a_name<T: Scalar>(
    trace: Trace<T>,
    stream: u64,
    name: Seq<char>,
    offset: usize,
    limit: Option<usize>,
    filter: Option<Stage>,
) -> (r: (Seq<usize>, int, int, Seq<usize>))
    requires
        trace.kernels@.len() <= usize::MAX,
    ensures
        ({
            let (lane, start, end, at) = r;
            let (from, to) = rows_of_page(at.len() as int, offset, limit);
            &&& lists_stream(trace, stream, None, lane)
            &&& is_named_block(trace.kernels@, lane, name, start, end)
            &&& filter is None ==> at == lane.subrange(start, end)
            &&& forall|i: int, j: int| 0 <= i < j < at.len() ==> at[i] < at[j]
            &&& filter is Some ==> forall|x: usize|
                {
                    #[trigger] at.contains(x) <==> lane.subrange(start, end).contains(x)
                        && csv::kernel_stage(trace.annotations@, trace.kernels@[x as int])
                        == filter
                }
            &&& mcp_core::sequence_page(trace, stream, name, offset, limit, filter)
                == "idx\tname\tdur\n"@ + concatenated(
                Seq::new(
                    (to - from) as nat,
                    |i: int|
                        text::decimal_text((from + i + 1) as nat) + "\t"@ + trace.kernels@[
                            at[from + i] as int
                        ].name@ + "\t"@ + trace.kernels@[
                            at[from + i] as int
                        ].dur.show_places_spec(2) + "\n"@,
                ),
            )
        }),
{
    let kernels = trace.kernels@;
    let lane = mcp_core::stream_positions(kernels, stream);
    lemma_filtered(trace, stream, None);
    let start = sequence::next_named(kernels, lane, 0, name);
    sequence::the_next_of_a_name_is_the_first(kernels, lane, 0, name);
    let end = if start < lane.len() {
        sequence::next_named(kernels, lane, start + 1, name)
    } else {
        start
    };
    if start < lane.len() {
        sequence::the_next_of_a_name_is_the_first(kernels, lane, start + 1, name);
        assert(sequence::named_at(kernels, lane, start, name));
        if end < lane.len() {
            assert(sequence::named_at(kernels, lane, end, name));
        }
    }
    assert forall|p: int| 0 <= p < start implies kernels[#[trigger] lane[p] as int].name@
        != name by {
        assert(!sequence::named_at(kernels, lane, p, name));
    }
    assert forall|p: int| start < p < end implies kernels[#[trigger] lane[p] as int].name@
        != name by {
        assert(!sequence::named_at(kernels, lane, p, name));
    }
    let block = lane.subrange(start, end);
    assert(mcp_core::named_block(kernels, stream, name) == block);
    let at = mcp_core::filtered(trace, block, filter);
    assert forall|i: int, j: int| 0 <= i < j < block.len() implies block[i] < block[j] by {
        assert(lane[start + i] < lane[start + j]);
    }
    if filter is Some {
        mcp_core::filters_keep_exactly_their_stage(trace, block, filter);
        lemma_of_stage_ascends(trace, block, filter);
        assert forall|x: usize|
            {
                #[trigger] at.contains(x) <==> block.contains(x) && csv::kernel_stage(
                    trace.annotations@,
                    trace.kernels@[x as int],
                ) == filter
            } by {
            if at.contains(x) {
                let i = choose|i: int| 0 <= i < at.len() && at[i] == x;
                assert(block.contains(at[i]));
            }
            if block.contains(x) && csv::kernel_stage(trace.annotations@, trace.kernels@[x as int])
                == filter {
                let i = choose|i: int| 0 <= i < block.len() && block[i] == x;
                assert(at.contains(block[i]));
            }
        }
    }
    lemma_page(at.len() as int, offset, limit);
    let (from, to) = rows_of_page(at.len() as int, offset, limit);
    lemma_duration_lines(kernels, at, from, to);
    (lane, start, end, at)
}

/// For numbers that count like reals the total of some numbers is their sum: one number
/// is its own total, and totals add up.
pub proof fn totals_add_up<T: Scalar>(a: Seq<T>, b: Seq<T>, x: T)
    requires
        scalar::counts_like_reals::<T>(),
    ensures
        mcp_core::total(a + b) == mcp_core::total(a).plus_spec(mcp_core::total(b)),
        mcp_core::total(seq![x]) == x,
        mcp_core::total(Seq::<T>::empty()) == T::whole_spec(0),
    decreases b.len(),
{
    let zero = T::whole_spec(0);
    reveal_with_fuel(mcp_core::total, 2);
    assert(seq![x].drop_last() == Seq::<T>::empty());
    scalar::sums_group_freely(zero, x, x);
    assert(x.plus_spec(zero) == x);
    if b.len() == 0 {
        assert(a + b == a);
        assert(mcp_core::total(a).plus_spec(zero) == mcp_core::total(a));
    } else {
        totals_add_up(a, b.drop_last(), x);
        assert((a + b).drop_last() == a + b.drop_last());
        scalar::sums_group_freely(
            mcp_core::total(a),
            mcp_core::total(b.drop_last()),
            b.last(),
        );
    }
}

/// The line of a stage in the summary of a stream, given the durations of its kernels
/// there.
pub open spec fn stage_row<T: Scalar>(name: Seq<char>, durations: Seq<T>) -> Seq<char> {
    if durations.len() == 0 {
        Seq::empty()
    } else {
        name + ","@ + text::decimal_text(durations.len()) + ","@ + mcp_core::total(
            durations,
        ).show_places_spec(2) + ","@ + sequence::median(durations).show_places_spec(2) + "\n"@
    }
}

/// Whether `at` lists the positions of the kernels of a stage on a stream, ascending.
pub open spec fn lists_stage<T: Scalar>(
    trace: Trace<T>,
    stream: u64,
    stage: Option<Stage>,
    at: Seq<usize>,
) -> bool {
    &&& forall|i: int, j: int| 0 <= i < j < at.len() ==> at[i] < at[j]
    &&& forall|x: usize| #[trigger]
        at.contains(x) <==> x < trace.kernels@.len() && trace.kernels@[x as int].stream == stream
            && csv::kernel_stage(trace.annotations@, trace.kernels@[x as int]) == stage
}

proof fn lemma_stage_line<T: Scalar>(
    trace: Trace<T>,
    stream: u64,
    stage: Option<Stage>,
    name: Seq<char>,
) -> (at: Seq<usize>)
    requires
        trace.kernels@.len() <= usize::MAX,
        name == mcp_core::summary_name(stage),
    ensures
        lists_stage(trace, stream, stage, at),
        mcp_core::stage_line(trace, stream, stage) == stage_row(
            name,
            Seq::new(at.len(), |i: int| trace.kernels@[at[i] as int].dur),
        ),
{
    let all = mcp_core::stream_positions(trace.kernels@, stream);
    let at = mcp_core::of_stage(trace, all, stage);
    mcp_core::a_stream_holds_exactly_its_kernels(trace.kernels@, stream);
    mcp_core::filters_keep_exactly_their_stage(trace, all, stage);
    lemma_of_stage_ascends(trace, all, stage);
    assert forall|x: usize| #[trigger]
        at.contains(x) <==> x < trace.kernels@.len() && trace.kernels@[x as int].stream == stream
            && csv::kernel_stage(trace.annotations@, trace.kernels@[x as int]) == stage by {
        if at.contains(x) {
            let i = choose|i: int| 0 <= i < at.len() && at[i] == x;
            assert(all.contains(at[i]));
            let k = choose|k: int| 0 <= k < all.len() && all[k] == x;
            assert(all[k] < trace.kernels@.len());
        }
        if x < trace.kernels@.len() && trace.kernels@[x as int].stream == stream
            && csv::kernel_stage(trace.annotations@, trace.kernels@[x as int]) == stage {
            assert(all.contains(x));
            let k = choose|k: int| 0 <= k < all.len() && all[k] == x;
            assert(at.contains(all[k]));
        }
    }
    assert(mcp_core::durations(trace.kernels@, at) == Seq::new(
        at.len(),
        |i: int| trace.kernels@[at[i] as int].dur,
    ));
    at
}

/// The summary of a stream by stages has a line for each stage that has kernels there, in
/// the order prefill, decode, mixed, none: how many there are, their total duration and
/// their median duration.
pub proof fn stage_summaries_sum_up_each_stage<T: Scalar>(trace: Trace<T>, stream: u64) -> (r: (
    Seq<usize>,
    Seq<usize>,
    Seq<usize>,
    Seq<usize>,
))
    requires
        trace.kernels@.len() <= usize::MAX,
    ensures
        lists_stage(trace, stream, Some(Stage::Prefill), r.0),
        lists_stage(trace, stream, Some(Stage::Decode), r.1),
        lists_stage(trace, stream, Some(Stage::Mixed), r.2),
        lists_stage(trace, stream, None, r.3),
        ({
            let durations = |at: Seq<usize>|
                Seq::new(at.len(), |i: int| trace.kernels@[at[i] as int].dur);
            mcp_core::stage_table(trace, stream) == "stage,kernels,total_dur,median_dur\n"@
                + stage_row("prefill"@, durations(r.0)) + stage_row("decode"@, durations(r.1))
                + stage_row("mixed"@, durations(r.2)) + stage_row("none"@, durations(r.3))
        }),
{
    let a = lemma_stage_line(trace, stream, Some(Stage::Prefill), "prefill"@);
    let b = lemma_stage_line(trace, stream, Some(Stage::Decode), "decode"@);
    let c = lemma_stage_line(trace, stream, Some(Stage::Mixed), "mixed"@);
    let d = lemma_stage_line(trace, stream, None, "none"@);
    (a, b, c, d)
}

} // verus!
