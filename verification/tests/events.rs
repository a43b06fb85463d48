//! Raw events, traces made of them, and sorting, with double-precision timestamps.
use pytorch_trace_tui::app::App;
use pytorch_trace_tui::scalar::Scalar;
use pytorch_trace_tui::sort::{sort_order, Rising};
use pytorch_trace_tui::trace::{
    first_nonws, top_level, try_into_annotation, try_into_kernel, JsonValue, RawEvent, TopLevel,
    Trace,
};

/// Microseconds in double precision.
#[derive(Debug, Clone, Copy, PartialEq, PartialOrd)]
struct Num(f64);

impl Scalar for Num {
    fn plus(self, other: Self) -> Self {
        Num(self.0 + other.0)
    }
    fn minus(self, other: Self) -> Self {
        Num(self.0 - other.0)
    }
    fn times(self, other: Self) -> Self {
        Num(self.0 * other.0)
    }
    fn over(self, other: Self) -> Self {
        Num(self.0 / other.0)
    }
    fn larger(self, other: Self) -> Self {
        Num(self.0.max(other.0))
    }
    fn smaller(self, other: Self) -> Self {
        Num(self.0.min(other.0))
    }
    fn magnitude(self) -> Self {
        Num(self.0.abs())
    }
    fn rounded_down(self) -> Self {
        Num(self.0.floor())
    }
    fn rounded_up(self) -> Self {
        Num(self.0.ceil())
    }
    fn less(self, other: Self) -> bool {
        self.0 < other.0
    }
    fn at_most(self, other: Self) -> bool {
        self.0 <= other.0
    }
    fn same(self, other: Self) -> bool {
        self.0 == other.0
    }
    fn total_less(self, other: Self) -> bool {
        self.0.total_cmp(&other.0).is_lt()
    }
    fn finite(self) -> bool {
        self.0.is_finite()
    }
    fn to_index(self) -> usize {
        self.0 as usize
    }
    fn to_count(self) -> u64 {
        self.0 as u64
    }
    fn whole(n: u64) -> Self {
        Num(n as f64)
    }
    fn ratio(num: i64, den: u64) -> Self {
        Num(num as f64 / den as f64)
    }
    fn infinity() -> Self {
        Num(f64::INFINITY)
    }
    fn neg_infinity() -> Self {
        Num(f64::NEG_INFINITY)
    }
    fn largest() -> Self {
        Num(f64::MAX)
    }
    fn lowest() -> Self {
        Num(f64::MIN)
    }
    fn show(self) -> String {
        format!("{}", self.0)
    }
    fn show_places(self, places: usize) -> String {
        format!("{:.*}", places, self.0)
    }
}

fn number(n: u64) -> JsonValue<Num> {
    JsonValue::Number { whole: Some(n), value: Some(Num(n as f64)), text: n.to_string() }
}

fn make_raw(cat: &str, ph: &str, ts: f64, dur: f64, tid: u64) -> RawEvent<Num> {
    RawEvent {
        name: Some("test_kernel".to_string()),
        cat: Some(cat.to_string()),
        ph: Some(ph.to_string()),
        ts: Some(Num(ts)),
        dur: Some(Num(dur)),
        pid: Some(number(0)),
        tid: Some(number(tid)),
        args: None,
    }
}

#[test]
fn test_gpu_kernel_accepted() {
    let e = make_raw("kernel", "X", 1000.0, 50.0, 7);
    let k = try_into_kernel(e).expect("Should parse GPU kernel");
    assert_eq!(k.name, "test_kernel");
    assert_eq!(k.stream, 7);
    assert!((k.ts.0 - 1000.0).abs() < f64::EPSILON);
    assert!((k.dur.0 - 50.0).abs() < f64::EPSILON);
}

#[test]
fn test_cpu_op_rejected() {
    let e = make_raw("cpu_op", "X", 1000.0, 50.0, 0);
    assert!(try_into_kernel(e).is_none());
}

#[test]
fn test_metadata_rejected() {
    let e = make_raw("kernel", "M", 0.0, 0.0, 0);
    assert!(try_into_kernel(e).is_none());
}

#[test]
fn test_gpu_memcpy_accepted() {
    let e = make_raw("gpu_memcpy", "X", 2000.0, 10.0, 3);
    let k = try_into_kernel(e).expect("Should parse gpu_memcpy");
    assert_eq!(k.cat, "gpu_memcpy");
    assert_eq!(k.stream, 3);
}

#[test]
fn equal_timestamps_keep_their_order() {
    let keys = vec![Rising(Num(2.0)), Rising(Num(1.0)), Rising(Num(2.0)), Rising(Num(0.5))];
    assert_eq!(sort_order(&keys), vec![3, 1, 0, 2]);
}

fn value(v: &serde_json::Value) -> JsonValue<Num> {
    match v {
        serde_json::Value::Number(n) => JsonValue::Number {
            whole: n.as_u64(),
            value: n.as_f64().map(Num),
            text: n.to_string(),
        },
        serde_json::Value::String(s) => JsonValue::Text(s.clone()),
        other => JsonValue::Other(other.to_string()),
    }
}

fn raw(v: &serde_json::Value) -> RawEvent<Num> {
    let text = |key: &str| v.get(key).and_then(|x| x.as_str()).map(|s| s.to_string());
    let time = |key: &str| v.get(key).and_then(|x| x.as_f64()).map(Num);
    RawEvent {
        name: text("name"),
        cat: text("cat"),
        ph: text("ph"),
        ts: time("ts"),
        dur: time("dur"),
        pid: v.get("pid").map(value),
        tid: v.get("tid").map(value),
        args: v
            .get("args")
            .and_then(|a| a.as_object())
            .map(|m| m.iter().map(|(k, x)| (k.clone(), value(x))).collect()),
    }
}

fn parse(json: &str) -> Trace<Num> {
    let first = first_nonws(json.as_bytes()).expect("a document");
    let document: serde_json::Value = serde_json::from_str(json).expect("JSON");
    let events = match top_level(json.as_bytes()[first]) {
        TopLevel::Array => document.as_array().cloned(),
        TopLevel::Object => document.get("traceEvents").and_then(|e| e.as_array()).cloned(),
        TopLevel::Unexpected(_) => None,
    };
    Trace::from_raw(events.unwrap_or_default().iter().map(raw).collect())
}

/// A plain-JSON trace that wraps events in {"traceEvents": [...]}.
#[test]
fn test_parse_object_wrapper() {
    let json = r#"{
        "traceEvents": [
            {"name":"cpu_fn","cat":"cpu_op","ph":"X","ts":1.0,"dur":5.0,"pid":1,"tid":1},
            {"name":"my_kernel","cat":"kernel","ph":"X","ts":10.0,"dur":3.0,"pid":0,"tid":7,
             "args":{"device":0,"stream":7,"grid":"[32,1,1]","block":"[128,1,1]",
                     "shared memory":0,"registers per thread":32,"correlation":99}},
            {"name":"process_name","ph":"M","pid":0,"tid":0,"args":{"name":"GPU 0"}}
        ],
        "displayTimeUnit": "ms"
    }"#;
    let kernels = parse(json).kernels;
    assert_eq!(kernels.len(), 1);
    assert_eq!(kernels[0].name, "my_kernel");
    assert_eq!(kernels[0].stream, 7);
    assert_eq!(kernels[0].grid.as_deref(), Some("[32,1,1]"));
    assert_eq!(kernels[0].registers_per_thread, Some(32));
    assert_eq!(kernels[0].correlation, Some(99));
}

/// A bare-array trace.
#[test]
fn test_parse_bare_array() {
    let json = r#"[
        {"name":"cpu_op","cat":"cpu_op","ph":"X","ts":1.0,"dur":5.0,"pid":1,"tid":1},
        {"name":"kern_a","cat":"kernel","ph":"X","ts":5.0,"dur":2.0,"pid":0,"tid":3},
        {"name":"kern_b","cat":"gpu_memcpy","ph":"X","ts":8.0,"dur":1.0,"pid":0,"tid":3}
    ]"#;
    let kernels = parse(json).kernels;
    assert_eq!(kernels.len(), 2);
    // Sorted by ts
    assert_eq!(kernels[0].name, "kern_a");
    assert_eq!(kernels[1].name, "kern_b");
}

#[test]
fn events_are_sorted_by_start() {
    let json = r#"[
        {"name":"late","cat":"kernel","ph":"X","ts":9.0,"dur":1.0,"tid":1},
        {"name":"note","cat":"gpu_user_annotation","ph":"X","ts":8.0,"dur":2.0,"tid":1},
        {"name":"early","cat":"gpu_memset","ph":"X","ts":2.0,"dur":1.0,"tid":1},
        {"name":"first","cat":"gpu_user_annotation","ph":"X","ts":1.0,"dur":2.0,"tid":"4"}
    ]"#;
    let trace = parse(json);
    let names: Vec<&str> = trace.kernels.iter().map(|k| k.name.as_str()).collect();
    assert_eq!(names, vec!["early", "late"]);
    let notes: Vec<(&str, u64)> =
        trace.annotations.iter().map(|a| (a.name.as_str(), a.stream)).collect();
    assert_eq!(notes, vec![("first", 4), ("note", 1)]);
}

#[test]
fn annotations_and_kernels_do_not_mix() {
    let note = || make_raw("gpu_user_annotation", "X", 1.0, 2.0, 3);
    assert!(try_into_kernel(note()).is_none());
    let a = try_into_annotation(note()).expect("an annotation");
    assert_eq!((a.stream, a.ts, a.dur), (3, Num(1.0), Num(2.0)));
    assert!(try_into_annotation(make_raw("kernel", "X", 1.0, 2.0, 3)).is_none());
}

#[test]
fn the_first_byte_tells_the_shape() {
    assert!(matches!(top_level(b'['), TopLevel::Array));
    assert!(matches!(top_level(b'{'), TopLevel::Object));
    assert!(matches!(top_level(b'x'), TopLevel::Unexpected(b'x')));
    assert_eq!(first_nonws(b" \n\t{"), Some(3));
    assert_eq!(first_nonws(b"  "), None);
}

#[test]
fn dump_lane_csv_emits_annotation_and_stage_columns() {
    let json = r#"{"traceEvents":[
        {"name":"gemm","cat":"kernel","ph":"X","ts":100.0,"dur":5.0,"pid":0,"tid":4,
         "args":{"device":0,"stream":4}},
        {"name":"add","cat":"kernel","ph":"X","ts":400.0,"dur":5.0,"pid":0,"tid":4,
         "args":{"device":0,"stream":4}},
        {"name":"execute_context_0(0)_generation_1(1)","cat":"gpu_user_annotation",
         "ph":"X","ts":90.0,"dur":50.0,"pid":0,"tid":4}
    ]}"#;
    let mut app = App::new(parse(json));
    assert!(app.open_kernel_lane(4));
    let csv = app.lane_kernels_csv().expect("a kernel lane");
    let lines: Vec<&str> = csv.lines().collect();
    assert_eq!(
        lines[0],
        "idx,annotation,stage,name,ts,dur,end_ts,stream,device,grid,block,shared_memory,registers_per_thread,correlation"
    );
    // gemm@100 is inside the decode annotation window [90,140).
    assert_eq!(
        lines[1],
        "1,execute_context_0(0)_generation_1(1),decode,gemm,100,5,105,4,0,,,,,"
    );
    // add@400 is outside any annotation window -> empty annotation + stage.
    assert_eq!(lines[2], "2,,,add,400,5,405,4,0,,,,,");
    assert!(!app.open_kernel_lane(5), "no such stream");
}
