//! Kernel tables as CSV: which annotation covers a kernel, and how a kernel is
//! written as a row.
use vstd::prelude::*;
use vstd::string::StringExecFns;
use crate::scalar::{self, Scalar};
use crate::stage::{self, stage_for_annotation_name, stage_label};
use crate::text::{self, csv_escape, decimal, join, owned, push_decimal};
use crate::trace::{AnnotationEvent, KernelEvent};

verus! {

/// Whether an annotation covers a time on one stream of one trace: it starts at
/// or before it and ends behind it.
pub open spec fn covers_time<T: Scalar>(
    a: AnnotationEvent<T>,
    stream: u64,
    trace_id: usize,
    t: T,
) -> bool {
    a.stream == stream && a.trace_id == trace_id && a.ts.at_most_spec(t) && t.less_spec(
        a.end_spec(),
    )
}

/// Whether annotation `a` is closer around its time than `b`: it is shorter, or
/// as long and starts later.
pub open spec fn tighter<T: Scalar>(a: AnnotationEvent<T>, b: AnnotationEvent<T>) -> bool {
    a.dur.less_spec(b.dur) || (a.dur.same_spec(b.dur) && b.ts.less_spec(a.ts))
}

/// The tightest of the first `n` annotations that cover a time, the first of
/// those.
pub open spec fn tightest<T: Scalar>(
    annotations: Seq<AnnotationEvent<T>>,
    stream: u64,
    trace_id: usize,
    t: T,
    n: int,
) -> Option<int>
    decreases n,
{
    if n <= 0 {
        None
    } else {
        let before = tightest(annotations, stream, trace_id, t, n - 1);
        if !covers_time(annotations[n - 1], stream, trace_id, t) {
            before
        } else {
            match before {
                None => Some(n - 1),
                Some(b) => if tighter(annotations[n - 1], annotations[b]) {
                    Some(n - 1)
                } else {
                    Some(b)
                },
            }
        }
    }
}

/// The annotation that covers a time, if any.
pub open spec fn annotation_at<T: Scalar>(
    annotations: Seq<AnnotationEvent<T>>,
    stream: u64,
    trace_id: usize,
    t: T,
) -> Option<AnnotationEvent<T>> {
    match tightest(annotations, stream, trace_id, t, annotations.len() as int) {
        Some(i) => Some(annotations[i]),
        None => None,
    }
}

pub(crate) proof fn lemma_tightest_in_range<T: Scalar>(
    annotations: Seq<AnnotationEvent<T>>,
    stream: u64,
    trace_id: usize,
    t: T,
    n: int,
)
    requires
        0 <= n <= annotations.len(),
    ensures
        match tightest(annotations, stream, trace_id, t, n) {
            Some(i) => 0 <= i < n && covers_time(annotations[i], stream, trace_id, t),
            None => forall|q: int|
                0 <= q < n ==> !covers_time(#[trigger] annotations[q], stream, trace_id, t),
        },
    decreases n,
{
    if n > 0 {
        lemma_tightest_in_range(annotations, stream, trace_id, t, n - 1);
    }
}

/// For ordered numbers the annotation of a kernel is the shortest of all that cover
/// it; of equally short ones the one that starts last, and of those the first.
pub proof fn the_tightest_annotation_wins<T: Scalar>(
    annotations: Seq<AnnotationEvent<T>>,
    stream: u64,
    trace_id: usize,
    t: T,
    n: int,
    q: int,
)
    requires
        scalar::ordered_totally::<T>(),
        0 <= q < n <= annotations.len(),
        covers_time(annotations[q], stream, trace_id, t),
    ensures
        tightest(annotations, stream, trace_id, t, n) matches Some(b) && {
            let best = annotations[b];
            let other = annotations[q];
            &&& best.dur.at_most_spec(other.dur)
            &&& best.dur == other.dur ==> other.ts.at_most_spec(best.ts)
            &&& best.dur == other.dur && best.ts == other.ts ==> b <= q
        },
    decreases n,
{
    lemma_tightest_in_range(annotations, stream, trace_id, t, n - 1);
    if q < n - 1 {
        the_tightest_annotation_wins(annotations, stream, trace_id, t, n - 1, q);
    }
}

/// Finds the annotation whose time window `[ts, end_ts)` contains `kernel_ts`,
/// restricted to the same `stream` and `trace_id`. When several overlap, the
/// tightest (smallest `dur`) wins; ties break toward the later-starting (inner)
/// annotation, then the lowest flat index for determinism.
pub fn annotation_for_kernel<T: Scalar>(
    annotations: &[AnnotationEvent<T>],
    stream: u64,
    trace_id: usize,
    kernel_ts: T,
) -> (r: Option<&AnnotationEvent<T>>)
    ensures
        match r {
            Some(a) => annotation_at(annotations@, stream, trace_id, kernel_ts) == Some(*a),
            None => annotation_at(annotations@, stream, trace_id, kernel_ts) is None,
        },
{
    let mut best: Option<usize> = None;
    let mut i: usize = 0;
    while i < annotations.len()
        invariant
            i <= annotations@.len(),
            match best {
                Some(b) => b < i && tightest(
                    annotations@,
                    stream,
                    trace_id,
                    kernel_ts,
                    i as int,
                ) == Some(b as int),
                None => tightest(annotations@, stream, trace_id, kernel_ts, i as int) is None,
            },
        decreases annotations@.len() - i,
    {
        let a = &annotations[i];
        if a.stream == stream && a.trace_id == trace_id && a.ts.at_most(kernel_ts)
            && kernel_ts.less(a.end_ts()) {
            best =
            match best {
                None => Some(i),
                Some(b) => {
                    let other = &annotations[b];
                    if a.dur.less(other.dur) || (a.dur.same(other.dur) && other.ts.less(a.ts)) {
                        Some(i)
                    } else {
                        Some(b)
                    }
                },
            };
        }
        i += 1;
    }
    match best {
        Some(b) => Some(&annotations[b]),
        None => None,
    }
}

/// The stage of the annotation that covers a kernel.
pub open spec fn kernel_stage<T: Scalar>(
    annotations: Seq<AnnotationEvent<T>>,
    k: KernelEvent<T>,
) -> Option<stage::Stage> {
    match annotation_at(annotations, k.stream, k.trace_id, k.ts) {
        Some(a) => stage::stage_of(a.name@),
        None => None,
    }
}

/// An optional count in decimal, empty where there is none.
pub open spec fn opt_decimal(n: Option<u64>) -> Seq<char> {
    match n {
        Some(v) => text::decimal_text(v as nat),
        None => Seq::empty(),
    }
}

/// The column titles of a kernel table.
pub open spec fn kernel_table_header() -> Seq<char> {
    "idx,annotation,stage,name,ts,dur,end_ts,stream,device,grid,block,shared_memory,registers_per_thread,correlation\n"@
}

/// The fields of a kernel as row number `row` of a table, under the annotation
/// that covers it.
pub open spec fn kernel_fields<T: Scalar>(
    row: nat,
    annotations: Seq<AnnotationEvent<T>>,
    k: KernelEvent<T>,
) -> Seq<Seq<char>> {
    seq![
        text::decimal_text(row),
        text::csv_field(
            match annotation_at(annotations, k.stream, k.trace_id, k.ts) {
                Some(a) => a.name@,
                None => Seq::empty(),
            },
        ),
        stage::stage_text(kernel_stage(annotations, k)),
        text::csv_field(k.name@),
        k.ts.show_spec(),
        k.dur.show_spec(),
        k.end_spec().show_spec(),
        text::decimal_text(k.stream as nat),
        text::decimal_text(k.device as nat),
        text::csv_field(crate::trace::text_or_empty(k.grid)),
        text::csv_field(crate::trace::text_or_empty(k.block)),
        opt_decimal(k.shared_memory),
        opt_decimal(k.registers_per_thread),
        opt_decimal(k.correlation),
    ]
}

/// A kernel as row number `row` of a table.
pub open spec fn kernel_line<T: Scalar>(
    row: nat,
    annotations: Seq<AnnotationEvent<T>>,
    k: KernelEvent<T>,
) -> Seq<char> {
    text::joined(kernel_fields(row, annotations, k), ","@) + "\n"@
}

/// An optional text as a CSV field.
fn opt_field(field: &Option<String>) -> (r: String)
    ensures
        r@ == text::csv_field(crate::trace::text_or_empty(*field)),
{
    match field {
        Some(s) => csv_escape(s.as_str()),
        None => {
            let empty = String::new();
            assert(empty@ == Seq::<char>::empty());
            csv_escape(empty.as_str())
        },
    }
}

/// An optional count in decimal.
fn opt_count(n: Option<u64>) -> (r: String)
    ensures
        r@ == opt_decimal(n),
{
    match n {
        Some(v) => decimal(v),
        None => {
            let empty = String::new();
            assert(empty@ == Seq::<char>::empty());
            empty
        },
    }
}

/// The annotation and stage fields of a kernel.
fn annotation_fields<T: Scalar>(annotations: &[AnnotationEvent<T>], k: &KernelEvent<T>) -> (r: (
    String,
    &'static str,
))
    ensures
        r.0@ == text::csv_field(
            match annotation_at(annotations@, k.stream, k.trace_id, k.ts) {
                Some(a) => a.name@,
                None => Seq::empty(),
            },
        ),
        r.1@ == stage::stage_text(kernel_stage(annotations@, *k)),
{
    match annotation_for_kernel(annotations, k.stream, k.trace_id, k.ts) {
        Some(a) => (csv_escape(a.name.as_str()), stage_for_annotation_name(a.name.as_str())),
        None => {
            let empty = String::new();
            assert(empty@ == Seq::<char>::empty());
            (csv_escape(empty.as_str()), stage_label(None))
        },
    }
}

/// Appends a kernel as row number `row` of a table.
pub fn push_kernel_line<T: Scalar>(
    out: &mut String,
    row: usize,
    annotations: &[AnnotationEvent<T>],
    k: &KernelEvent<T>,
)
    ensures
        final(out)@ == old(out)@ + kernel_line(row as nat, annotations@, *k),
{
    let (annotation, stage) = annotation_fields(annotations, k);
    let mut number = String::new();
    push_decimal(&mut number, row as u128);
    let fields: Vec<String> = vec![
        number,
        annotation,
        owned(stage),
        csv_escape(k.name.as_str()),
        k.ts.show(),
        k.dur.show(),
        k.end_ts().show(),
        decimal(k.stream),
        decimal(k.device),
        opt_field(&k.grid),
        opt_field(&k.block),
        opt_count(k.shared_memory),
        opt_count(k.registers_per_thread),
        opt_count(k.correlation),
    ];
    assert(text::texts(fields@) == kernel_fields(row as nat, annotations@, *k));
    out.append(join(&fields, ",").as_str());
    out.append("\n");
    assert(out@ == old(out)@ + kernel_line(row as nat, annotations@, *k));
}

/// A kernel table without rows.
pub fn new_kernel_table() -> (r: String)
    ensures
        r@ == kernel_table_header(),
{
    owned(
        "idx,annotation,stage,name,ts,dur,end_ts,stream,device,grid,block,shared_memory,registers_per_thread,correlation\n",
    )
}

} // verus!
