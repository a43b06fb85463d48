//! The tools for an assistant.
use pytorch_trace_tui::mcp::{LaneParam, SequenceParam, StageSummaryParam, TraceMcpServer};
use pytorch_trace_tui::mcp_core::{
    effective_limit, kernel_sequence_for, kernel_sequence_in_stage, lane_kernels_csv_for,
    lane_kernels_csv_in_stage, stage_summary_for, summary, MAX_ROWS,
};
use pytorch_trace_tui::names::list_trace_names;
use pytorch_trace_tui::scalar::Scalar;
use pytorch_trace_tui::stage::{parse_stage_filter, Stage};

/// Microseconds in double precision.
#[derive(Debug, Clone, Copy, PartialEq, PartialOrd)]
struct Num(f64);

impl Scalar for Num {
    fn plus(self, other: Self) -> Self {
        Num(self.0 + other.0)
    }
    fn minus(self, other: Self) -> Self {
        Num(self.0 - other.0)
    }
    fn times(self, other: Self) -> Self {
        Num(self.0 * other.0)
    }
    fn over(self, other: Self) -> Self {
        Num(self.0 / other.0)
    }
    fn larger(self, other: Self) -> Self {
        Num(self.0.max(other.0))
    }
    fn smaller(self, other: Self) -> Self {
        Num(self.0.min(other.0))
    }
    fn magnitude(self) -> Self {
        Num(self.0.abs())
    }
    fn rounded_down(self) -> Self {
        Num(self.0.floor())
    }
    fn rounded_up(self) -> Self {
        Num(self.0.ceil())
    }
    fn less(self, other: Self) -> bool {
        self.0 < other.0
    }
    fn at_most(self, other: Self) -> bool {
        self.0 <= other.0
    }
    fn same(self, other: Self) -> bool {
        self.0 == other.0
    }
    fn total_less(self, other: Self) -> bool {
        self.0.total_cmp(&other.0).is_lt()
    }
    fn finite(self) -> bool {
        self.0.is_finite()
    }
    fn to_index(self) -> usize {
        self.0 as usize
    }
    fn to_count(self) -> u64 {
        self.0 as u64
    }
    fn whole(n: u64) -> Self {
        Num(n as f64)
    }
    fn ratio(num: i64, den: u64) -> Self {
        Num(num as f64 / den as f64)
    }
    fn infinity() -> Self {
        Num(f64::INFINITY)
    }
    fn neg_infinity() -> Self {
        Num(f64::NEG_INFINITY)
    }
    fn largest() -> Self {
        Num(f64::MAX)
    }
    fn lowest() -> Self {
        Num(f64::MIN)
    }
    fn show(self) -> String {
        format!("{}", self.0)
    }
    fn show_places(self, places: usize) -> String {
        format!("{:.*}", places, self.0)
    }
}

type KernelEvent = pytorch_trace_tui::trace::KernelEvent<Num>;
type AnnotationEvent = pytorch_trace_tui::trace::AnnotationEvent<Num>;
type Trace = pytorch_trace_tui::trace::Trace<Num>;

fn kd(stream: u64, ts: f64, name: &str, dur: f64) -> KernelEvent {
    KernelEvent {
        name: name.to_string(),
        cat: "kernel".to_string(),
        ts: Num(ts),
        dur: Num(dur),
        device: 0,
        stream,
        grid: None,
        block: None,
        shared_memory: None,
        registers_per_thread: None,
        correlation: None,
        trace_id: 0,
    }
}

fn ann(stream: u64, ts: f64, dur: f64, name: &str) -> AnnotationEvent {
    AnnotationEvent { name: name.into(), ts: Num(ts), dur: Num(dur), stream, trace_id: 0 }
}

fn trace_with(stream: u64, n: usize) -> Trace {
    let kernels = (0..n).map(|i| kd(stream, i as f64 * 10.0, &format!("k{}", i), 5.0)).collect();
    Trace { kernels, annotations: vec![] }
}

#[test]
fn test_summary_core_counts() {
    let mut t = trace_with(4, 3);
    t.annotations.push(ann(4, 0.0, 1.0, "a"));
    let s = summary(&t);
    assert_eq!(s.kernel_count, 3);
    assert_eq!(s.annotation_count, 1);
    assert_eq!(s.streams, vec![4]);
    assert_eq!(s.start_ts, Num(0.0));
    assert_eq!(s.end_ts, Num(25.0));
    assert_eq!(s.duration, Num(25.0));
}

#[test]
fn test_lane_csv_core_respects_limit_offset() {
    let t = trace_with(4, 10);
    let csv = lane_kernels_csv_for(&t, 4, 2, Some(3));
    let lines: Vec<&str> = csv.lines().collect();
    assert_eq!(
        lines[0],
        "idx,annotation,stage,name,ts,dur,end_ts,stream,device,grid,block,shared_memory,registers_per_thread,correlation"
    );
    assert_eq!(lines.len(), 4, "header + exactly 3 rows");
    assert!(lines[1].contains(",k2,"), "offset=2 -> first row is k2");
}

#[test]
fn test_lane_csv_core_includes_annotation_stage() {
    let mut t = trace_with(4, 1);
    t.annotations.push(ann(4, -1.0, 10.0, "execute_context_0(0)_generation_1(1)"));
    let csv = lane_kernels_csv_for(&t, 4, 0, None);
    let row = csv.lines().nth(1).unwrap();
    assert!(row.contains("execute_context_0(0)_generation_1(1),decode,"));
}

#[test]
fn test_lane_csv_core_caps_at_max_rows() {
    let t = trace_with(4, MAX_ROWS + 500);
    let csv = lane_kernels_csv_for(&t, 4, 0, Some(usize::MAX));
    assert_eq!(csv.lines().count(), MAX_ROWS + 1, "header + MAX_ROWS");
}

#[test]
fn test_kernel_sequence_core_bounded() {
    let kernels = vec![
        kd(1, 0.0, "foo", 10.0),
        kd(1, 20.0, "bar", 20.0),
        kd(1, 50.0, "baz", 5.0),
        kd(1, 60.0, "foo", 8.0),
    ];
    let t = Trace { kernels, annotations: vec![] };
    let seq = kernel_sequence_for(&t, 1, "foo", 0, None);
    let lines: Vec<&str> = seq.lines().collect();
    assert_eq!(lines[0], "idx\tname\tdur");
    assert_eq!(lines.len(), 4, "header + foo,bar,baz (up to next foo)");
    assert!(lines[1].starts_with("1\tfoo\t"));
    assert!(lines[3].starts_with("3\tbaz\t"));
}

#[test]
fn limits_default_and_are_capped() {
    assert_eq!(effective_limit(None), 100);
    assert_eq!(effective_limit(Some(7)), 7);
    assert_eq!(effective_limit(Some(1000)), 1000);
    assert_eq!(effective_limit(Some(1001)), 1000);
}

#[test]
fn pages_continue_where_the_last_one_ended() {
    let t = trace_with(4, 10);
    let whole = lane_kernels_csv_for(&t, 4, 0, None);
    let first = lane_kernels_csv_for(&t, 4, 0, Some(4));
    let second = lane_kernels_csv_for(&t, 4, 4, Some(6));
    let rows = |csv: &str| csv.lines().skip(1).map(|l| l.to_string()).collect::<Vec<_>>();
    let mut both = rows(&first);
    both.extend(rows(&second));
    assert_eq!(both, rows(&whole));
    assert_eq!(rows(&lane_kernels_csv_for(&t, 4, 99, None)).len(), 0);
    assert_eq!(rows(&lane_kernels_csv_for(&t, 5, 0, None)).len(), 0);
}

fn staged() -> Trace {
    Trace {
        kernels: vec![
            kd(4, 0.0, "gemm", 10.0),
            kd(4, 20.0, "relu", 4.0),
            kd(4, 100.0, "gemm", 30.0),
            kd(4, 200.0, "add", 1.0),
            kd(7, 110.0, "gemm", 2.0),
        ],
        annotations: vec![
            ann(4, 0.0, 50.0, "execute_context_1(5)_generation_0(0)"),
            ann(4, 90.0, 50.0, "execute_context_0(0)_generation_1(1)"),
        ],
    }
}

#[test]
fn stages_split_a_stream() {
    let t = staged();
    let s = summary(&t);
    assert_eq!(s.streams, vec![4, 7]);
    assert_eq!((s.stages.prefill, s.stages.decode, s.stages.mixed, s.stages.none), (2, 1, 0, 2));
    assert_eq!(
        stage_summary_for(&t, 4),
        "stage,kernels,total_dur,median_dur\nprefill,2,14.00,7.00\ndecode,1,30.00,30.00\nnone,1,1.00,1.00\n"
    );
    let csv = lane_kernels_csv_in_stage(&t, 4, 0, None, Some(Stage::Prefill));
    let names: Vec<&str> = csv.lines().skip(1).map(|l| l.split(',').nth(3).unwrap()).collect();
    assert_eq!(names, vec!["gemm", "relu"]);
    assert_eq!(
        kernel_sequence_in_stage(&t, 4, "gemm", 0, None, Some(Stage::Prefill)),
        "idx\tname\tdur\n1\tgemm\t10.00\n2\trelu\t4.00\n"
    );
    assert_eq!(
        kernel_sequence_in_stage(&t, 4, "gemm", 0, None, Some(Stage::Decode)),
        "idx\tname\tdur\n"
    );
}

#[test]
fn an_empty_trace_has_an_empty_summary() {
    let s = summary(&Trace { kernels: vec![], annotations: vec![] });
    assert_eq!((s.kernel_count, s.annotation_count), (0, 0));
    assert!(s.streams.is_empty());
    assert_eq!((s.start_ts, s.end_ts, s.duration), (Num(0.0), Num(0.0), Num(0.0)));
}

#[test]
fn stage_filters_are_read_or_refused() {
    assert_eq!(parse_stage_filter(&None), Ok(None));
    assert_eq!(parse_stage_filter(&Some("decode".into())), Ok(Some(Stage::Decode)));
    assert_eq!(parse_stage_filter(&Some("prefill".into())), Ok(Some(Stage::Prefill)));
    assert_eq!(parse_stage_filter(&Some("mixed".into())), Ok(Some(Stage::Mixed)));
    assert!(parse_stage_filter(&Some("Decode".into())).is_err());
    assert!(parse_stage_filter(&Some("".into())).is_err());
}

fn lane_param(stage: Option<&str>) -> LaneParam {
    LaneParam {
        path: "t.pt.trace.json.gz".into(),
        stream: 4,
        offset: 0,
        limit: None,
        stage: stage.map(|s| s.to_string()),
    }
}

#[test]
fn a_bad_filter_is_refused_before_the_trace_matters() {
    let server = TraceMcpServer;
    let lost: Result<Trace, String> = Err("no such file".into());
    let said = server.lane_kernels_csv(&lane_param(Some("warmup")), lost).unwrap_err();
    assert!(said.contains("warmup"), "{said}");
    let lost: Result<Trace, String> = Err("no such file".into());
    assert_eq!(server.lane_kernels_csv(&lane_param(None), lost), Err("no such file".into()));
    let lost: Result<Trace, String> = Err("no such file".into());
    let p = StageSummaryParam { path: "t".into(), stream: 4 };
    assert_eq!(server.stage_summary(&p, lost), Err("no such file".into()));
    let lost: Result<Trace, String> = Err("no such file".into());
    assert_eq!(server.summary(lost).unwrap_err(), "no such file");
}

#[test]
fn tools_answer_from_the_trace() {
    let server = TraceMcpServer;
    assert_eq!(
        server.lane_kernels_csv(&lane_param(Some("decode")), Ok(staged())),
        Ok(lane_kernels_csv_in_stage(&staged(), 4, 0, None, Some(Stage::Decode)))
    );
    let p = SequenceParam {
        path: "t".into(),
        stream: 4,
        kernel_name: "gemm".into(),
        offset: 1,
        limit: Some(5),
        stage: None,
    };
    assert_eq!(
        server.kernel_sequence(&p, Ok(staged())),
        Ok("idx\tname\tdur\n2\trelu\t4.00\n".to_string())
    );
    assert_eq!(
        server.stage_summary(&StageSummaryParam { path: "t".into(), stream: 7 }, Ok(staged())),
        Ok("stage,kernels,total_dur,median_dur\nnone,1,2.00,2.00\n".to_string())
    );
    assert_eq!(server.summary(Ok(staged())).unwrap().kernel_count, 5);
}

#[test]
fn trace_files_are_listed_in_order() {
    let names: Vec<String> = ["b.pt.trace.json.gz", "notes.txt", "a.pt.trace.json.gz", "c.pt.trace.json"]
        .iter()
        .map(|s| s.to_string())
        .collect();
    assert_eq!(list_trace_names(names.clone()), vec!["a.pt.trace.json.gz", "b.pt.trace.json.gz"]);
    let server = TraceMcpServer;
    assert_eq!(
        server.list_traces(Ok(names)),
        Ok("a.pt.trace.json.gz\nb.pt.trace.json.gz".to_string())
    );
    assert_eq!(server.list_traces(Err("denied".into())), Err("denied".to_string()));
}
