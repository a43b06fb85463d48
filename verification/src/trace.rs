//! Trace events: what is kept of a raw profiler event, and in which order.
use vstd::prelude::*;
use crate::scalar::Scalar;
use crate::sort::{self, arrange, sort_order, Rising, SortKey};
use crate::text::{owned, parse_u64, same_text};

verus! {

/// A value of a raw event, as far as the conversion reads it.
#[derive(Debug, Clone)]
pub enum JsonValue<T> {
    /// A number: as a whole count where it is one, as a number, and as text.
    Number { whole: Option<u64>, value: Option<T>, text: String },
    /// A string.
    Text(String),
    /// Any other value, as JSON text.
    Other(String),
}

/// A profiler event before it is filtered.
#[derive(Debug, Clone)]
pub struct RawEvent<T> {
    pub name: Option<String>,
    pub cat: Option<String>,
    pub ph: Option<String>,
    pub ts: Option<T>,
    pub dur: Option<T>,
    pub pid: Option<JsonValue<T>>,
    pub tid: Option<JsonValue<T>>,
    /// Arguments by key; no key occurs twice.
    pub args: Option<Vec<(String, JsonValue<T>)>>,
}

/// A GPU kernel event with all relevant fields.
#[derive(Debug, Clone)]
pub struct KernelEvent<T> {
    pub name: String,
    pub cat: String,
    /// Timestamp in microseconds.
    pub ts: T,
    /// Duration in microseconds.
    pub dur: T,
    /// GPU device id.
    pub device: u64,
    /// CUDA stream id.
    pub stream: u64,
    pub grid: Option<String>,
    pub block: Option<String>,
    pub shared_memory: Option<u64>,
    pub registers_per_thread: Option<u64>,
    pub correlation: Option<u64>,
    /// Which of the open traces the event belongs to.
    pub trace_id: usize,
}

/// A user annotation on the GPU timeline.
#[derive(Debug, Clone)]
pub struct AnnotationEvent<T> {
    pub name: String,
    /// Timestamp in microseconds.
    pub ts: T,
    /// Duration in microseconds.
    pub dur: T,
    /// CUDA stream id.
    pub stream: u64,
    /// Which of the open traces the event belongs to.
    pub trace_id: usize,
}

/// The events of one trace.
#[derive(Debug, Clone)]
pub struct Trace<T> {
    pub kernels: Vec<KernelEvent<T>>,
    pub annotations: Vec<AnnotationEvent<T>>,
}

/// The text of an optional string.
pub open spec fn opt_text(s: Option<String>) -> Option<Seq<char>> {
    match s {
        Some(t) => Some(t@),
        None => None,
    }
}

/// A kernel event with its texts as character sequences.
pub struct KernelView<T> {
    pub name: Seq<char>,
    pub cat: Seq<char>,
    pub ts: T,
    pub dur: T,
    pub device: u64,
    pub stream: u64,
    pub grid: Option<Seq<char>>,
    pub block: Option<Seq<char>>,
    pub shared_memory: Option<u64>,
    pub registers_per_thread: Option<u64>,
    pub correlation: Option<u64>,
    pub trace_id: usize,
}

/// An annotation with its name as a character sequence.
pub struct AnnotationView<T> {
    pub name: Seq<char>,
    pub ts: T,
    pub dur: T,
    pub stream: u64,
    pub trace_id: usize,
}

impl<T> View for KernelEvent<T> {
    type V = KernelView<T>;

    open spec fn view(&self) -> KernelView<T> {
        KernelView {
            name: self.name@,
            cat: self.cat@,
            ts: self.ts,
            dur: self.dur,
            device: self.device,
            stream: self.stream,
            grid: opt_text(self.grid),
            block: opt_text(self.block),
            shared_memory: self.shared_memory,
            registers_per_thread: self.registers_per_thread,
            correlation: self.correlation,
            trace_id: self.trace_id,
        }
    }
}

impl<T> View for AnnotationEvent<T> {
    type V = AnnotationView<T>;

    open spec fn view(&self) -> AnnotationView<T> {
        AnnotationView {
            name: self.name@,
            ts: self.ts,
            dur: self.dur,
            stream: self.stream,
            trace_id: self.trace_id,
        }
    }
}

/// Another copy of an optional string.
fn duplicate_text(s: &Option<String>) -> (r: Option<String>)
    ensures
        r == *s,
{
    match s {
        Some(t) => Some(t.clone()),
        None => None,
    }
}

impl<T: Scalar> KernelEvent<T> {
    /// Another copy of the kernel.
    pub fn duplicate(&self) -> (r: Self)
        ensures
            r == *self,
    {
        KernelEvent {
            name: self.name.clone(),
            cat: self.cat.clone(),
            ts: self.ts,
            dur: self.dur,
            device: self.device,
            stream: self.stream,
            grid: duplicate_text(&self.grid),
            block: duplicate_text(&self.block),
            shared_memory: self.shared_memory,
            registers_per_thread: self.registers_per_thread,
            correlation: self.correlation,
            trace_id: self.trace_id,
        }
    }

    /// Where the kernel ends.
    pub open spec fn end_spec(&self) -> T {
        self.ts.plus_spec(self.dur)
    }

    /// Where the kernel ends.
    pub fn end_ts(&self) -> (r: T)
        ensures
            r == self.end_spec(),
    {
        self.ts.plus(self.dur)
    }
}

impl<T: Scalar> AnnotationEvent<T> {
    /// Where the annotation ends.
    pub open spec fn end_spec(&self) -> T {
        self.ts.plus_spec(self.dur)
    }

    /// Where the annotation ends.
    pub fn end_ts(&self) -> (r: T)
        ensures
            r == self.end_spec(),
    {
        self.ts.plus(self.dur)
    }
}

/// The text of an optional string, empty where there is none.
pub open spec fn text_or_empty(s: Option<String>) -> Seq<char> {
    match s {
        Some(t) => t@,
        None => Seq::empty(),
    }
}

/// Whether an optional string reads `text`; a missing one reads as empty.
fn reads(s: &Option<String>, text: &str) -> (r: bool)
    ensures
        r == (text_or_empty(*s) == text@),
{
    match s {
        Some(t) => same_text(t.as_str(), text),
        None => {
            let r = same_text("", text);
            proof {
                reveal_strlit("");
                assert(""@ == Seq::<char>::empty());
            }
            r
        },
    }
}

/// Whether a phase marks metadata or an instant, which are no spans.
pub open spec fn spanless_phase(ph: Seq<char>) -> bool {
    ph == "M"@ || ph == "i"@ || ph == "I"@
}

/// Whether a category is one of GPU work.
pub open spec fn gpu_category(cat: Seq<char>) -> bool {
    cat == "kernel"@ || cat == "gpu_memcpy"@ || cat == "gpu_memset"@
}

/// The count that a value denotes: a number cut down to a count, or a text that
/// spells one.
pub open spec fn count_of<T: Scalar>(v: JsonValue<T>) -> Option<u64> {
    match v {
        JsonValue::Number { whole, value, .. } => match whole {
            Some(n) => Some(n),
            None => match value {
                Some(f) => Some(f.count_spec()),
                None => None,
            },
        },
        JsonValue::Text(s) => match crate::text::parsed_number(s@, u64::MAX as nat) {
            Some(n) => Some(n as u64),
            None => None,
        },
        JsonValue::Other(_) => None,
    }
}

/// The count that an optional value denotes.
pub open spec fn opt_count_of<T: Scalar>(v: Option<JsonValue<T>>) -> Option<u64> {
    match v {
        Some(value) => count_of(value),
        None => None,
    }
}

/// The text of a value: a string as it is, anything else as JSON text.
pub open spec fn value_text<T>(v: JsonValue<T>) -> Seq<char> {
    match v {
        JsonValue::Number { text, .. } => text@,
        JsonValue::Text(s) => s@,
        JsonValue::Other(s) => s@,
    }
}

/// The first argument of the given key.
pub open spec fn lookup<T>(args: Seq<(String, JsonValue<T>)>, key: Seq<char>) -> Option<
    JsonValue<T>,
>
    decreases args.len(),
{
    if args.len() == 0 {
        None
    } else if args[0].0@ == key {
        Some(args[0].1)
    } else {
        lookup(args.skip(1), key)
    }
}

/// The argument of the given key, where there are arguments at all.
pub open spec fn argument<T>(
    args: Option<Vec<(String, JsonValue<T>)>>,
    key: Seq<char>,
) -> Option<JsonValue<T>> {
    match args {
        Some(list) => lookup(list@, key),
        None => None,
    }
}

/// The text of the argument of the given key.
pub open spec fn argument_text<T>(
    args: Option<Vec<(String, JsonValue<T>)>>,
    key: Seq<char>,
) -> Option<Seq<char>> {
    match argument(args, key) {
        Some(v) => Some(value_text(v)),
        None => None,
    }
}

/// `a`, or `b` where there is no `a`, or zero.
pub open spec fn first_count(a: Option<u64>, b: Option<u64>) -> u64 {
    match a {
        Some(n) => n,
        None => match b {
            Some(n) => n,
            None => 0,
        },
    }
}

/// The name of an event; events without one read `(unnamed)`.
pub open spec fn event_name(name: Option<String>) -> Seq<char> {
    match name {
        Some(s) => s@,
        None => "(unnamed)"@,
    }
}

/// Whether a raw event is kept as a kernel: it is a span of GPU work with a
/// timestamp.
pub open spec fn is_kernel<T>(e: RawEvent<T>) -> bool {
    &&& !spanless_phase(text_or_empty(e.ph))
    &&& gpu_category(text_or_empty(e.cat))
    &&& e.ts is Some
}

/// Whether a raw event is kept as an annotation: it is a user annotation span
/// with a timestamp.
pub open spec fn is_annotation<T>(e: RawEvent<T>) -> bool {
    &&& !spanless_phase(text_or_empty(e.ph))
    &&& text_or_empty(e.cat) == "gpu_user_annotation"@
    &&& e.ts is Some
}

/// The duration of an event; zero where it has none.
pub open spec fn event_duration<T: Scalar>(dur: Option<T>) -> T {
    match dur {
        Some(d) => d,
        None => T::whole_spec(0),
    }
}

/// What is kept of a raw kernel event.
pub open spec fn kernel_of<T: Scalar>(e: RawEvent<T>) -> KernelView<T> {
    KernelView {
        name: event_name(e.name),
        cat: text_or_empty(e.cat),
        ts: e.ts->0,
        dur: event_duration(e.dur),
        device: first_count(
            opt_count_of(argument(e.args, "device"@)),
            opt_count_of(e.pid),
        ),
        stream: first_count(opt_count_of(e.tid), None),
        grid: argument_text(e.args, "grid"@),
        block: argument_text(e.args, "block"@),
        shared_memory: opt_count_of(argument(e.args, "shared memory"@)),
        registers_per_thread: opt_count_of(argument(e.args, "registers per thread"@)),
        correlation: opt_count_of(argument(e.args, "correlation"@)),
        trace_id: 0,
    }
}

/// What is kept of a raw annotation.
pub open spec fn annotation_of<T: Scalar>(e: RawEvent<T>) -> AnnotationView<T> {
    AnnotationView {
        name: event_name(e.name),
        ts: e.ts->0,
        dur: event_duration(e.dur),
        stream: first_count(opt_count_of(e.tid), None),
        trace_id: 0,
    }
}

/// The count that a value denotes.
fn value_count<T: Scalar>(v: &JsonValue<T>) -> (r: Option<u64>)
    ensures
        r == count_of(*v),
{
    match v {
        JsonValue::Number { whole, value, .. } => match whole {
            Some(n) => Some(*n),
            None => match value {
                Some(f) => Some(f.to_count()),
                None => None,
            },
        },
        JsonValue::Text(s) => parse_u64(s.as_str()),
        JsonValue::Other(_) => None,
    }
}

/// The count that a thread or process id denotes.
pub fn tid_to_u64<T: Scalar>(v: &Option<JsonValue<T>>) -> (r: Option<u64>)
    ensures
        r == opt_count_of(*v),
{
    match v {
        Some(value) => value_count(value),
        None => None,
    }
}

/// The argument of the given key.
fn find_argument<'a, T>(args: &'a Option<Vec<(String, JsonValue<T>)>>, key: &str) -> (r: Option<
    &'a JsonValue<T>,
>)
    ensures
        match r {
            Some(v) => argument(*args, key@) == Some(*v),
            None => argument(*args, key@) is None,
        },
{
    match args {
        None => None,
        Some(list) => {
            let mut i: usize = 0;
            assert(list@.skip(0) == list@);
            while i < list.len()
                invariant
                    i <= list@.len(),
                    *args == Some(*list),
                    lookup(list@, key@) == lookup(list@.skip(i as int), key@),
                decreases list@.len() - i,
            {
                assert(list@.skip(i as int)[0] == list@[i as int]);
                assert(list@.skip(i as int).skip(1) == list@.skip(i + 1));
                if same_text(list[i].0.as_str(), key) {
                    return Some(&list[i].1);
                }
                i += 1;
            }
            None
        },
    }
}

/// The count that the argument of the given key denotes.
pub fn args_u64<T: Scalar>(args: &Option<Vec<(String, JsonValue<T>)>>, key: &str) -> (r: Option<
    u64,
>)
    ensures
        r == opt_count_of(argument(*args, key@)),
{
    match find_argument(args, key) {
        Some(v) => value_count(v),
        None => None,
    }
}

/// The text of the argument of the given key.
pub fn args_string<T>(args: &Option<Vec<(String, JsonValue<T>)>>, key: &str) -> (r: Option<String>)
    ensures
        opt_text(r) == argument_text(*args, key@),
{
    match find_argument(args, key) {
        Some(v) => match v {
            JsonValue::Number { text, .. } => Some(text.clone()),
            JsonValue::Text(s) => Some(s.clone()),
            JsonValue::Other(s) => Some(s.clone()),
        },
        None => None,
    }
}

/// Whether an event is a span, not metadata or an instant.
fn is_span<T>(e: &RawEvent<T>) -> (r: bool)
    ensures
        r == !spanless_phase(text_or_empty(e.ph)),
{
    !(reads(&e.ph, "M") || reads(&e.ph, "i") || reads(&e.ph, "I"))
}

/// The name of an event.
fn named(name: Option<String>) -> (r: String)
    ensures
        r@ == event_name(name),
{
    match name {
        Some(s) => s,
        None => owned("(unnamed)"),
    }
}

/// Converts a raw event into a kernel; `None` if it is not GPU work.
pub fn try_into_kernel<T: Scalar>(e: RawEvent<T>) -> (r: Option<KernelEvent<T>>)
    ensures
        match r {
            Some(k) => is_kernel(e) && k@ == kernel_of(e),
            None => !is_kernel(e),
        },
{
    if !is_span(&e) {
        return None;
    }
    if !(reads(&e.cat, "kernel") || reads(&e.cat, "gpu_memcpy") || reads(&e.cat, "gpu_memset")) {
        return None;
    }
    let ts = match e.ts {
        Some(ts) => ts,
        None => return None,
    };
    let dur = match e.dur {
        Some(d) => d,
        None => T::whole(0),
    };
    let stream: u64 = match tid_to_u64(&e.tid) {
        Some(n) => n,
        None => 0,
    };
    let device: u64 = match args_u64(&e.args, "device") {
        Some(n) => n,
        None => match tid_to_u64(&e.pid) {
            Some(n) => n,
            None => 0,
        },
    };
    let grid = args_string(&e.args, "grid");
    let block = args_string(&e.args, "block");
    let shared_memory = args_u64(&e.args, "shared memory");
    let registers_per_thread = args_u64(&e.args, "registers per thread");
    let correlation = args_u64(&e.args, "correlation");
    let cat = match e.cat {
        Some(c) => c,
        None => String::new(),
    };
    Some(
        KernelEvent {
            name: named(e.name),
            cat,
            ts,
            dur,
            device,
            stream,
            grid,
            block,
            shared_memory,
            registers_per_thread,
            correlation,
            trace_id: 0,
        },
    )
}

/// Converts a raw event into an annotation; `None` if it is no user annotation.
pub fn try_into_annotation<T: Scalar>(e: RawEvent<T>) -> (r: Option<AnnotationEvent<T>>)
    ensures
        match r {
            Some(a) => is_annotation(e) && a@ == annotation_of(e),
            None => !is_annotation(e),
        },
{
    if !is_span(&e) || !reads(&e.cat, "gpu_user_annotation") {
        return None;
    }
    let ts = match e.ts {
        Some(ts) => ts,
        None => return None,
    };
    let dur = match e.dur {
        Some(d) => d,
        None => T::whole(0),
    };
    let stream: u64 = match tid_to_u64(&e.tid) {
        Some(n) => n,
        None => 0,
    };
    Some(AnnotationEvent { name: named(e.name), ts, dur, stream, trace_id: 0 })
}

/// The kernels that raw events leave, in their order.
pub open spec fn kernels_of<T: Scalar>(raw: Seq<RawEvent<T>>) -> Seq<KernelView<T>>
    decreases raw.len(),
{
    if raw.len() == 0 {
        Seq::empty()
    } else if is_kernel(raw.last()) {
        kernels_of(raw.drop_last()).push(kernel_of(raw.last()))
    } else {
        kernels_of(raw.drop_last())
    }
}

/// The annotations that raw events leave, in their order.
pub open spec fn annotations_of<T: Scalar>(raw: Seq<RawEvent<T>>) -> Seq<AnnotationView<T>>
    decreases raw.len(),
{
    if raw.len() == 0 {
        Seq::empty()
    } else if is_annotation(raw.last()) {
        annotations_of(raw.drop_last()).push(annotation_of(raw.last()))
    } else {
        annotations_of(raw.drop_last())
    }
}

/// The views of a list of kernels.
pub open spec fn kernel_views<T>(kernels: Seq<KernelEvent<T>>) -> Seq<KernelView<T>> {
    kernels.map_values(|k: KernelEvent<T>| k@)
}

/// The views of a list of annotations.
pub open spec fn annotation_views<T>(annotations: Seq<AnnotationEvent<T>>) -> Seq<
    AnnotationView<T>,
> {
    annotations.map_values(|a: AnnotationEvent<T>| a@)
}

/// The sort keys of kernels: their timestamps.
pub open spec fn kernel_keys<T: Scalar>(kernels: Seq<KernelView<T>>) -> Seq<Rising<T>> {
    kernels.map_values(|k: KernelView<T>| Rising(k.ts))
}

/// The sort keys of annotations: their timestamps.
pub open spec fn annotation_keys<T: Scalar>(annotations: Seq<AnnotationView<T>>) -> Seq<
    Rising<T>,
> {
    annotations.map_values(|a: AnnotationView<T>| Rising(a.ts))
}

/// Kernels sorted by timestamp.
pub open spec fn kernels_by_time<T: Scalar>(kernels: Seq<KernelView<T>>) -> Seq<KernelView<T>> {
    sort::picked(kernels, sort::sorted_order(kernel_keys(kernels)))
}

/// Annotations sorted by timestamp.
pub open spec fn annotations_by_time<T: Scalar>(annotations: Seq<AnnotationView<T>>) -> Seq<
    AnnotationView<T>,
> {
    sort::picked(annotations, sort::sorted_order(annotation_keys(annotations)))
}

impl<T: Scalar> Trace<T> {
    /// A trace without events.
    pub fn new() -> (r: Self)
        ensures
            r.kernels@.len() == 0,
            r.annotations@.len() == 0,
    {
        Trace { kernels: Vec::new(), annotations: Vec::new() }
    }

    /// Takes in one raw event: GPU work and user annotations are kept, anything
    /// else is dropped.
    pub fn add_raw(&mut self, e: RawEvent<T>)
        ensures
            kernel_views(final(self).kernels@) == if is_kernel(e) {
                kernel_views(old(self).kernels@).push(kernel_of(e))
            } else {
                kernel_views(old(self).kernels@)
            },
            annotation_views(final(self).annotations@) == if is_annotation(e) {
                annotation_views(old(self).annotations@).push(annotation_of(e))
            } else {
                annotation_views(old(self).annotations@)
            },
    {
        let ghost ks = self.kernels@;
        let ghost ans = self.annotations@;
        proof {
            reveal_strlit("kernel");
            reveal_strlit("gpu_memcpy");
            reveal_strlit("gpu_memset");
            reveal_strlit("gpu_user_annotation");
            assert("kernel"@.len() == 6 && "gpu_memcpy"@.len() == 10 && "gpu_memset"@.len() == 10
                && "gpu_user_annotation"@.len() == 19);
        }
        if reads(&e.cat, "gpu_user_annotation") {
            assert(!is_kernel(e));
            if let Some(a) = try_into_annotation(e) {
                self.annotations.push(a);
                assert(annotation_views(self.annotations@) == annotation_views(ans).push(a@));
            }
        } else if let Some(k) = try_into_kernel(e) {
            self.kernels.push(k);
            assert(kernel_views(self.kernels@) == kernel_views(ks).push(k@));
        }
    }

    /// Sorts kernels and annotations by timestamp, ascending; events of equal
    /// timestamp stay in the order in which they came.
    pub fn sorted(self) -> (r: Self)
        ensures
            kernel_views(r.kernels@) == kernels_by_time(kernel_views(self.kernels@)),
            annotation_views(r.annotations@) == annotations_by_time(
                annotation_views(self.annotations@),
            ),
    {
        let Trace { kernels, annotations } = self;
        let mut kernel_times: Vec<Rising<T>> = Vec::new();
        let mut i: usize = 0;
        while i < kernels.len()
            invariant
                i <= kernels@.len(),
                kernel_times@ == kernel_keys(kernel_views(kernels@)).take(i as int),
            decreases kernels@.len() - i,
        {
            kernel_times.push(Rising(kernels[i].ts));
            i += 1;
            assert(kernel_times@ == kernel_keys(kernel_views(kernels@)).take(i as int));
        }
        assert(kernel_times@ == kernel_keys(kernel_views(kernels@)));
        let mut annotation_times: Vec<Rising<T>> = Vec::new();
        let mut j: usize = 0;
        while j < annotations.len()
            invariant
                j <= annotations@.len(),
                annotation_times@ == annotation_keys(annotation_views(annotations@)).take(
                    j as int,
                ),
            decreases annotations@.len() - j,
        {
            annotation_times.push(Rising(annotations[j].ts));
            j += 1;
            assert(annotation_times@ == annotation_keys(annotation_views(annotations@)).take(
                j as int,
            ));
        }
        assert(annotation_times@ == annotation_keys(annotation_views(annotations@)));
        let kernel_order = sort_order(&kernel_times);
        let annotation_order = sort_order(&annotation_times);
        let ghost ks = kernels@;
        let ghost ans = annotations@;
        let kernels = arrange(kernels, &kernel_order);
        let annotations = arrange(annotations, &annotation_order);
        assert(kernel_views(kernels@) == kernels_by_time(kernel_views(ks)));
        assert(annotation_views(annotations@) == annotations_by_time(annotation_views(ans)));
        Trace { kernels, annotations }
    }

    /// The trace that a list of raw events makes.
    pub fn from_raw(raw: Vec<RawEvent<T>>) -> (r: Self)
        ensures
            kernel_views(r.kernels@) == kernels_by_time(kernels_of(raw@)),
            annotation_views(r.annotations@) == annotations_by_time(annotations_of(raw@)),
    {
        let ghost all = raw@;
        let mut trace = Trace::new();
        assert(kernel_views(trace.kernels@) == kernels_of(all.take(0)));
        assert(annotation_views(trace.annotations@) == annotations_of(all.take(0)));
        for e in it: raw
            invariant
                it.seq() == all,
                kernel_views(trace.kernels@) == kernels_of(all.take(it.index())),
                annotation_views(trace.annotations@) == annotations_of(all.take(it.index())),
        {
            assert(all.take(it.index() + 1).drop_last() == all.take(it.index()));
            assert(all.take(it.index() + 1).last() == e);
            trace.add_raw(e);
        }
        assert(all.take(all.len() as int) == all);
        trace.sorted()
    }
}

/// Kernels of a sorted trace follow each other in time, unless a timestamp
/// cannot be compared.
pub proof fn sorted_kernels_follow_each_other<T: Scalar>(kernels: Seq<KernelView<T>>)
    requires
        kernels.len() <= usize::MAX,
        sort::orderly(kernel_keys(kernels)),
    ensures
        kernels_by_time(kernels).len() == kernels.len(),
        forall|i: int, j: int|
            0 <= i < j < kernels.len() ==> !(#[trigger] kernels_by_time(kernels)[j]).ts.less_spec(
                (#[trigger] kernels_by_time(kernels)[i]).ts,
            ),
{
    let keys = kernel_keys(kernels);
    let s = sort::sorted_order(keys);
    sort::sorting_rearranges(keys);
    sort::sorting_is_stable(keys);
    assert forall|i: int, j: int| 0 <= i < j < kernels.len() implies !(
    #[trigger] kernels_by_time(kernels)[j]).ts.less_spec(
        (#[trigger] kernels_by_time(kernels)[i]).ts,
    ) by {
        assert(sort::precedes(keys, s[i], s[j]));
        assert(keys[s[i] as int].before_spec(&keys[s[j] as int]) ==> !keys[s[j] as int].before_spec(
            &keys[s[i] as int],
        ));
    }
}

/// What a first byte says of the shape of a trace file.
#[derive(Debug, Clone, Copy, PartialEq, Eq, Structural)]
pub enum TopLevel {
    /// A bare array of events.
    Array,
    /// An object with a `traceEvents` array.
    Object,
    /// Neither.
    Unexpected(u8),
}

/// Whether a byte is ASCII white space.
pub open spec fn ascii_blank(b: u8) -> bool {
    b == 9 || b == 10 || b == 12 || b == 13 || b == 32
}

/// The position of the first byte that is no ASCII white space.
pub fn first_nonws(buf: &[u8]) -> (r: Option<usize>)
    ensures
        match r {
            Some(i) => i < buf@.len() && !ascii_blank(buf@[i as int]) && forall|j: int|
                0 <= j < i ==> ascii_blank(#[trigger] buf@[j]),
            None => forall|j: int| 0 <= j < buf@.len() ==> ascii_blank(#[trigger] buf@[j]),
        },
{
    let mut i: usize = 0;
    while i < buf.len()
        invariant
            i <= buf@.len(),
            forall|j: int| 0 <= j < i ==> ascii_blank(#[trigger] buf@[j]),
        decreases buf@.len() - i,
    {
        let b: u8 = buf[i];
        if !(b == 9 || b == 10 || b == 12 || b == 13 || b == 32) {
            return Some(i);
        }
        i += 1;
    }
    None
}

/// The shape of a trace file by its first byte that is no white space.
pub fn top_level(first: u8) -> (r: TopLevel)
    ensures
        r == if first == 0x5b {
            TopLevel::Array
        } else if first == 0x7b {
            TopLevel::Object
        } else {
            TopLevel::Unexpected(first)
        },
{
    if first == 0x5b {
        TopLevel::Array
    } else if first == 0x7b {
        TopLevel::Object
    } else {
        TopLevel::Unexpected(first)
    }
}

} // verus!
