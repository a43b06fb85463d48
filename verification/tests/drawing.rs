//! What is drawn.
use pytorch_trace_tui::scalar::Scalar;
use pytorch_trace_tui::ui::{build_lane, dim_color, kernel_color, Color, Span};

/// Microseconds in double precision.
#[derive(Debug, Clone, Copy, PartialEq, PartialOrd)]
struct Num(f64);

impl Scalar for Num {
    fn plus(self, other: Self) -> Self {
        Num(self.0 + other.0)
    }
    fn minus(self, other: Self) -> Self {
        Num(self.0 - other.0)
    }
    fn times(self, other: Self) -> Self {
        Num(self.0 * other.0)
    }
    fn over(self, other: Self) -> Self {
        Num(self.0 / other.0)
    }
    fn larger(self, other: Self) -> Self {
        Num(self.0.max(other.0))
    }
    fn smaller(self, other: Self) -> Self {
        Num(self.0.min(other.0))
    }
    fn magnitude(self) -> Self {
        Num(self.0.abs())
    }
    fn rounded_down(self) -> Self {
        Num(self.0.floor())
    }
    fn rounded_up(self) -> Self {
        Num(self.0.ceil())
    }
    fn less(self, other: Self) -> bool {
        self.0 < other.0
    }
    fn at_most(self, other: Self) -> bool {
        self.0 <= other.0
    }
    fn same(self, other: Self) -> bool {
        self.0 == other.0
    }
    fn total_less(self, other: Self) -> bool {
        self.0.total_cmp(&other.0).is_lt()
    }
    fn finite(self) -> bool {
        self.0.is_finite()
    }
    fn to_index(self) -> usize {
        self.0 as usize
    }
    fn to_count(self) -> u64 {
        self.0 as u64
    }
    fn whole(n: u64) -> Self {
        Num(n as f64)
    }
    fn ratio(num: i64, den: u64) -> Self {
        Num(num as f64 / den as f64)
    }
    fn infinity() -> Self {
        Num(f64::INFINITY)
    }
    fn neg_infinity() -> Self {
        Num(f64::NEG_INFINITY)
    }
    fn largest() -> Self {
        Num(f64::MAX)
    }
    fn lowest() -> Self {
        Num(f64::MIN)
    }
    fn show(self) -> String {
        format!("{}", self.0)
    }
    fn show_places(self, places: usize) -> String {
        format!("{:.*}", places, self.0)
    }
}

type App = pytorch_trace_tui::app::App<Num>;
type KernelEvent = pytorch_trace_tui::trace::KernelEvent<Num>;
type AnnotationEvent = pytorch_trace_tui::trace::AnnotationEvent<Num>;
type Trace = pytorch_trace_tui::trace::Trace<Num>;

const DIFF_ADDED: Color = Color::Rgb(34, 197, 94);
const DIFF_DELETED: Color = Color::Rgb(220, 38, 38);

fn k(stream: u64, ts: f64, name: &str, dur: f64) -> KernelEvent {
    KernelEvent {
        name: name.to_string(),
        cat: "kernel".to_string(),
        ts: Num(ts),
        dur: Num(dur),
        device: 0,
        stream,
        grid: None,
        block: None,
        shared_memory: None,
        registers_per_thread: None,
        correlation: None,
        trace_id: 0,
    }
}

fn ann(stream: u64, ts: f64, dur: f64, name: &str) -> AnnotationEvent {
    AnnotationEvent { name: name.into(), ts: Num(ts), dur: Num(dur), stream, trace_id: 0 }
}

fn bgs(spans: &[Span]) -> Vec<Color> {
    spans.iter().map(|s| s.bg).collect()
}

// An annotation lane renders with ann_bg and never the diff colours.
#[test]
fn test_annotation_lane_uses_ann_bg_never_diff_colors() {
    let t0 = Trace {
        kernels: vec![k(1, 100.0, "x", 10.0)],
        annotations: vec![ann(1, 100.0, 40.0, "ctx")],
    };
    let t1 = Trace {
        kernels: vec![k(1, 100.0, "x", 10.0)],
        annotations: vec![ann(1, 100.0, 40.0, "ctx")],
    };
    let app = App::new_multi(vec![("A".into(), t0), ("B".into(), t1)]);
    let ann_lane = app.lanes.iter().position(|l| l.is_annotations()).unwrap();
    let spans = build_lane(&app, ann_lane, Num(100.0), Num(40.0), 40);
    let colors = bgs(&spans);
    let ann_bg = Color::Rgb(90, 90, 110);
    assert!(colors.contains(&ann_bg), "annotation lane uses ann_bg");
    assert!(
        !colors.contains(&DIFF_ADDED) && !colors.contains(&DIFF_DELETED),
        "annotation lane never uses diff colours"
    );
}

// A wide MATCHED (dimmed) kernel that spans a narrow ADDED kernel does NOT hide
// it: a green cell appears in the lane.
#[test]
fn test_wide_matched_does_not_hide_added() {
    let t0 = Trace {
        kernels: vec![k(1, 100.0, "reduce", 400.0), k(1, 200.0, "gone", 20.0)],
        annotations: vec![],
    };
    let t1 = Trace {
        kernels: vec![k(1, 100.0, "reduce", 400.0), k(1, 200.0, "extra", 20.0)],
        annotations: vec![],
    };
    let mut app = App::new_multi(vec![("A".into(), t0), ("B".into(), t1)]);
    // Park selection so nothing turns white.
    app.active_lane = usize::MAX;
    let lane1 = app
        .lanes
        .iter()
        .position(|l| !l.is_annotations() && l.trace_id() == 1)
        .unwrap();
    let spans = build_lane(&app, lane1, Num(100.0), Num(400.0), 400);
    let colors = bgs(&spans);
    assert!(
        colors.contains(&DIFF_ADDED),
        "green (added) cell visible over the wide matched reduce"
    );
}

#[test]
fn kernels_take_turns_in_eight_colours() {
    assert_eq!(kernel_color("kernel", 0), Color::Rgb(59, 130, 246));
    assert_eq!(kernel_color("kernel", 7), Color::Rgb(236, 72, 153));
    assert_eq!(kernel_color("kernel", 8), kernel_color("kernel", 0));
    assert_eq!(kernel_color("gpu_memcpy", 3), Color::Rgb(139, 92, 246));
    assert_eq!(kernel_color("gpu_memset", 3), Color::Rgb(251, 191, 36));
    assert_eq!(dim_color(Color::Rgb(90, 91, 2)), Color::Rgb(30, 30, 0));
    assert_eq!(dim_color(Color::White), Color::White);
}
