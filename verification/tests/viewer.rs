//! The viewer with double-precision timestamps.
use pytorch_trace_tui::app::columns::kernel_columns;
use pytorch_trace_tui::app::SelectedTraceItem;
use pytorch_trace_tui::csv::annotation_for_kernel;
use pytorch_trace_tui::lane::{AlignMode, ColumnClass, KernelDiff};
use pytorch_trace_tui::scalar::Scalar;

/// Microseconds in double precision.
#[derive(Debug, Clone, Copy, PartialEq, PartialOrd)]
struct Num(f64);

impl Scalar for Num {
    fn plus(self, other: Self) -> Self {
        Num(self.0 + other.0)
    }
    fn minus(self, other: Self) -> Self {
        Num(self.0 - other.0)
    }
    fn times(self, other: Self) -> Self {
        Num(self.0 * other.0)
    }
    fn over(self, other: Self) -> Self {
        Num(self.0 / other.0)
    }
    fn larger(self, other: Self) -> Self {
        Num(self.0.max(other.0))
    }
    fn smaller(self, other: Self) -> Self {
        Num(self.0.min(other.0))
    }
    fn magnitude(self) -> Self {
        Num(self.0.abs())
    }
    fn rounded_down(self) -> Self {
        Num(self.0.floor())
    }
    fn rounded_up(self) -> Self {
        Num(self.0.ceil())
    }
    fn less(self, other: Self) -> bool {
        self.0 < other.0
    }
    fn at_most(self, other: Self) -> bool {
        self.0 <= other.0
    }
    fn same(self, other: Self) -> bool {
        self.0 == other.0
    }
    fn total_less(self, other: Self) -> bool {
        self.0.total_cmp(&other.0).is_lt()
    }
    fn finite(self) -> bool {
        self.0.is_finite()
    }
    fn to_index(self) -> usize {
        self.0 as usize
    }
    fn to_count(self) -> u64 {
        self.0 as u64
    }
    fn whole(n: u64) -> Self {
        Num(n as f64)
    }
    fn ratio(num: i64, den: u64) -> Self {
        Num(num as f64 / den as f64)
    }
    fn infinity() -> Self {
        Num(f64::INFINITY)
    }
    fn neg_infinity() -> Self {
        Num(f64::NEG_INFINITY)
    }
    fn largest() -> Self {
        Num(f64::MAX)
    }
    fn lowest() -> Self {
        Num(f64::MIN)
    }
    fn show(self) -> String {
        format!("{}", self.0)
    }
    fn show_places(self, places: usize) -> String {
        format!("{:.*}", places, self.0)
    }
}

impl PartialEq<f64> for Num {
    fn eq(&self, other: &f64) -> bool {
        self.0 == *other
    }
}

impl PartialOrd<f64> for Num {
    fn partial_cmp(&self, other: &f64) -> Option<std::cmp::Ordering> {
        self.0.partial_cmp(other)
    }
}

impl std::ops::Sub<f64> for Num {
    type Output = f64;
    fn sub(self, other: f64) -> f64 {
        self.0 - other
    }
}

impl std::ops::Sub for Num {
    type Output = f64;
    fn sub(self, other: Num) -> f64 {
        self.0 - other.0
    }
}

impl std::ops::Add for Num {
    type Output = f64;
    fn add(self, other: Num) -> f64 {
        self.0 + other.0
    }
}

impl std::fmt::Display for Num {
    fn fmt(&self, f: &mut std::fmt::Formatter<'_>) -> std::fmt::Result {
        self.0.fmt(f)
    }
}

type App = pytorch_trace_tui::app::App<Num>;
type LaneLayout = pytorch_trace_tui::app::LaneLayout<Num>;
type KernelEvent = pytorch_trace_tui::trace::KernelEvent<Num>;
type AnnotationEvent = pytorch_trace_tui::trace::AnnotationEvent<Num>;
type Trace = pytorch_trace_tui::trace::Trace<Num>;

fn app_from(kernels: Vec<KernelEvent>) -> App {
    App::new(Trace {
        kernels,
        annotations: vec![],
    })
}

fn make_kernel(stream: u64, ts: f64, dur: f64) -> KernelEvent {
    KernelEvent {
        name: format!("kernel_s{}_t{}", stream, ts as u64),
        cat: "kernel".to_string(),
        ts: Num(ts),
        dur: Num(dur),
        device: 0,
        stream,
        grid: None,
        block: None,
        shared_memory: None,
        registers_per_thread: None,
        correlation: None,
        trace_id: 0,
    }
}

fn named_kernel(stream: u64, ts: f64, name: &str) -> KernelEvent {
    KernelEvent {
        name: name.to_string(),
        cat: "kernel".to_string(),
        ts: Num(ts),
        dur: Num(5.0),
        device: 0,
        stream,
        grid: None,
        block: None,
        shared_memory: None,
        registers_per_thread: None,
        correlation: None,
        trace_id: 0,
    }
}

fn sample_app() -> App {
    let kernels = vec![
        make_kernel(7, 100.0, 10.0),
        make_kernel(7, 200.0, 20.0),
        make_kernel(7, 300.0, 5.0),
        make_kernel(3, 150.0, 8.0),
        make_kernel(3, 250.0, 12.0),
    ];
    app_from(kernels)
}

#[test]
fn test_streams_sorted() {
    let app = sample_app();
    assert_eq!(app.streams, vec![3, 7]);
}

#[test]
fn test_lanes_kernel_only() {
    // Two streams, no annotations → two kernel lanes, stream 3 first.
    let app = sample_app();
    assert_eq!(app.lanes.len(), 2);
    assert_eq!(app.lanes[0].stream_id(), 3);
    assert!(!app.lanes[0].is_annotations());
    assert_eq!(app.lanes[0].item_indices().len(), 2);
    assert_eq!(app.lanes[1].stream_id(), 7);
    assert_eq!(app.lanes[1].item_indices().len(), 3);
}

#[test]
fn test_active_lane_is_first() {
    let app = sample_app();
    assert_eq!(app.active_lane, 0);
    assert_eq!(app.active_stream(), 3);
    assert_eq!(app.active_lane_len(), 2);
}

#[test]
fn test_navigation_ad() {
    let mut app = sample_app();
    app.next_lane(); // go to stream 7 kernel lane (3 kernels)
    assert_eq!(app.active_stream(), 7);
    assert_eq!(app.selected_item, 0);

    app.next_item();
    assert_eq!(app.selected_item, 1);
    app.next_item();
    assert_eq!(app.selected_item, 2);
    app.next_item(); // clamps
    assert_eq!(app.selected_item, 2);

    app.prev_item();
    assert_eq!(app.selected_item, 1);
    app.prev_item();
    assert_eq!(app.selected_item, 0);
    app.prev_item(); // clamps
    assert_eq!(app.selected_item, 0);
}

#[test]
fn test_lane_wraps() {
    let mut app = sample_app();
    app.next_lane();
    app.next_lane(); // wraps back to first lane
    assert_eq!(app.active_lane, 0);
}

#[test]
fn test_prev_lane_wraps() {
    let mut app = sample_app();
    assert_eq!(app.active_lane, 0);
    app.prev_lane(); // wraps to last lane
    assert_eq!(app.active_lane, app.lanes.len() - 1);
    app.prev_lane();
    assert_eq!(app.active_lane, app.lanes.len() - 2);
    app.next_lane();
    assert_eq!(app.active_lane, app.lanes.len() - 1);
}

#[test]
fn test_zoom() {
    let mut app = sample_app();
    let initial = app.zoom_level;
    app.zoom_in();
    assert!(app.zoom_level > initial);
    app.zoom_out();
    app.zoom_out();
    assert!(app.zoom_level < initial);
    for _ in 0..100 {
        app.zoom_out();
    }
    assert!(app.zoom_level >= 0.1);
}

#[test]
fn test_zoom_in_unbounded() {
    let mut app = sample_app();
    for _ in 0..200 {
        app.zoom_in();
    }
    assert!(app.zoom_level > 1e6);
    assert!(app.zoom_level.finite());
}

#[test]
fn test_global_window_covers_all_streams() {
    let app = sample_app();
    let (start, end) = app.global_time_bounds();
    assert!(start <= 100.0);
    assert!(end >= 305.0);
}

#[test]
fn test_high_zoom_narrows_window_with_large_timestamps() {
    let base = 2_451_606_365_000_000.0;
    let kernels = vec![
        make_kernel(4, base, 4.0),
        make_kernel(4, base + 100_000_000.0, 4.0),
        make_kernel(4, base + 200_000_000.0, 4.0),
    ];
    let mut app = app_from(kernels);

    let (s0, e0) = app.global_visible_window();
    let full_span = e0 - s0;
    assert!(full_span > 100_000_000.0);

    for _ in 0..30 {
        app.zoom_in();
    }
    let (s1, e1) = app.global_visible_window();
    let zoomed_span = e1 - s1;

    assert!(
        zoomed_span < full_span / 1000.0,
        "zoom should shrink window: full={} zoomed={}",
        full_span,
        zoomed_span
    );
    assert!(s1 >= s0 && e1 <= e0);
}

fn app_with_annotations() -> App {
    let kernels = vec![
        named_kernel(4, 100.0, "kernel_a"),
        named_kernel(4, 200.0, "kernel_b"),
        named_kernel(4, 300.0, "kernel_c"),
    ];
    let annotations = vec![
        AnnotationEvent { name: "ctx_0".to_string(), ts: Num(90.0), dur: Num(60.0), stream: 4, trace_id: 0 },
        AnnotationEvent { name: "ctx_1".to_string(), ts: Num(180.0), dur: Num(40.0), stream: 4, trace_id: 0 },
    ];
    App::new(Trace { kernels, annotations })
}

#[test]
fn test_annotation_lane_before_kernel_lane() {
    let app = app_with_annotations();
    assert_eq!(app.lanes.len(), 2);
    assert!(app.lanes[0].is_annotations());
    assert_eq!(app.lanes[0].item_indices().len(), 2);
    assert!(!app.lanes[1].is_annotations());
    assert_eq!(app.lanes[1].item_indices().len(), 3);
}

#[test]
fn test_tab_from_kernel_lane_reaches_annotation_lane() {
    // Lane order: [cuda:1 kernels] [cuda:4 annotations] [cuda:4 kernels].
    let kernels = vec![
        named_kernel(1, 10.0, "k1"),
        named_kernel(4, 100.0, "k4"),
    ];
    let annotations = vec![AnnotationEvent {
        name: "ctx".to_string(),
        ts: Num(95.0),
        dur: Num(20.0),
        stream: 4,
        trace_id: 0,
    }];
    let mut app = App::new(Trace { kernels, annotations });
    assert_eq!(app.lanes.len(), 3);

    assert_eq!(app.active_lane, 0);
    assert!(!app.active_lane_is_annotations());
    assert_eq!(app.active_stream(), 1);

    // Tab from a kernel lane must land on the annotation lane.
    app.next_lane();
    assert_eq!(app.active_lane, 1);
    assert!(app.active_lane_is_annotations());
    assert_eq!(app.active_stream(), 4);
    match app.selected_trace_item().unwrap() {
        SelectedTraceItem::Annotation(a) => assert_eq!(a.name, "ctx"),
        _ => panic!("Tab must select the annotation lane"),
    }
}

#[test]
fn test_tab_selects_annotation_lane_and_ad_navigates() {
    let mut app = app_with_annotations();
    // Startup is the kernel lane; Tab wraps to the annotation lane.
    assert!(!app.active_lane_is_annotations());
    app.next_lane();
    assert!(app.active_lane_is_annotations());
    match app.selected_trace_item().unwrap() {
        SelectedTraceItem::Annotation(a) => assert_eq!(a.name, "ctx_0"),
        _ => panic!("expected annotation selected"),
    }

    // A/D moves within the annotation lane.
    app.next_item();
    match app.selected_trace_item().unwrap() {
        SelectedTraceItem::Annotation(a) => assert_eq!(a.name, "ctx_1"),
        _ => panic!("expected annotation selected"),
    }
    app.next_item(); // clamp
    assert_eq!(app.selected_item, 1);

    // Tab moves to the kernel lane of the same stream.
    app.next_lane();
    assert!(!app.active_lane_is_annotations());
    assert!(matches!(
        app.selected_trace_item().unwrap(),
        SelectedTraceItem::Kernel(_)
    ));
}

#[test]
fn test_lane_change_selects_nearest_ts() {
    // Annotation ctx_1 at ts=180; nearest kernel is kernel_b at ts=200.
    let mut app = app_with_annotations();
    app.next_lane(); // to annotation lane
    assert!(app.active_lane_is_annotations());
    app.next_item(); // annotation ctx_1 (ts 180)
    app.next_lane(); // kernel lane; should land near ts 180 → kernel_b (200)
    match app.selected_trace_item().unwrap() {
        SelectedTraceItem::Kernel(k) => assert_eq!(k.name, "kernel_b"),
        _ => panic!("expected kernel selected"),
    }
}

#[test]
fn test_zoom_center_follows_annotation() {
    let mut app = app_with_annotations();
    // Zoom in so the window is narrow enough to center on the selection
    // (otherwise the window clamps to global bounds and skews the center).
    for _ in 0..5 {
        app.zoom_in();
    }
    let (s, e) = app.global_visible_window();
    let center = (s + e) / 2.0;
    assert!(
        (center - 120.0).abs() < 20.0,
        "expected window centered near annotation ctx_0 midpoint 120, got center={}",
        center
    );
}

#[test]
fn test_annotation_only_stream_survives() {
    let kernels = vec![named_kernel(1, 100.0, "k1")];
    let annotations = vec![AnnotationEvent {
        name: "solo".to_string(),
        ts: Num(50.0),
        dur: Num(10.0),
        stream: 9,
        trace_id: 0,
    }];
    let app = App::new(Trace { kernels, annotations });
    assert_eq!(app.streams, vec![1, 9]);
    // Lanes: stream 1 kernel lane, stream 9 annotation lane.
    assert_eq!(app.lanes.len(), 2);
    assert!(app.lanes.iter().any(|l| l.stream_id() == 9 && l.is_annotations()));
}

#[test]
fn test_stream_without_annotations_is_single_lane() {
    let kernels = vec![
        named_kernel(1, 0.0, "a"),
        named_kernel(2, 0.0, "b"),
    ];
    let annotations = vec![AnnotationEvent {
        name: "ctx".to_string(),
        ts: Num(0.0),
        dur: Num(1.0),
        stream: 2,
        trace_id: 0,
    }];
    let app = App::new(Trace { kernels, annotations });
    // stream 1: 1 lane (kernels). stream 2: 2 lanes (annotations + kernels).
    assert_eq!(app.lanes.len(), 3);
    assert_eq!(app.lanes[0].stream_id(), 1);
    assert!(!app.lanes[0].is_annotations());
    assert_eq!(app.lanes[1].stream_id(), 2);
    assert!(app.lanes[1].is_annotations());
    assert_eq!(app.lanes[2].stream_id(), 2);
    assert!(!app.lanes[2].is_annotations());
}

#[test]
fn test_scroll_keeps_active_lane_visible() {
    let kernels = vec![
        make_kernel(1, 0.0, 1.0),
        make_kernel(2, 0.0, 1.0),
        make_kernel(3, 0.0, 1.0),
        make_kernel(4, 0.0, 1.0),
    ];
    let mut app = app_from(kernels);
    assert_eq!(app.lanes.len(), 4);

    let visible_rows = 2;
    app.ensure_active_lane_visible(visible_rows);
    assert_eq!(app.lane_view_offset, 0);

    app.next_lane();
    app.next_lane();
    app.ensure_active_lane_visible(visible_rows);
    assert_eq!(app.active_lane, 2);
    assert_eq!(app.lane_view_offset, 1);

    app.next_lane();
    app.ensure_active_lane_visible(visible_rows);
    assert_eq!(app.lane_view_offset, 2);
}

#[test]
fn test_search_jumps_to_first_match_across_lanes() {
    let kernels = vec![
        named_kernel(3, 100.0, "elementwise_add"),
        named_kernel(3, 200.0, "reduce_sum"),
        named_kernel(7, 150.0, "volta_sgemm_128"),
        named_kernel(7, 250.0, "ampere_gemm"),
    ];
    let mut app = app_from(kernels);

    app.search_start();
    assert!(app.search_active);
    app.search_push('v');
    app.search_push('o');
    app.search_push('l');

    assert!(!app.search_no_match);
    assert_eq!(app.active_stream(), 7);
    match app.selected_trace_item().unwrap() {
        SelectedTraceItem::Kernel(k) => assert_eq!(k.name, "volta_sgemm_128"),
        _ => panic!("expected kernel"),
    }

    app.search_commit();
    assert!(!app.search_active);
}

#[test]
fn test_search_finds_annotation() {
    let mut app = app_with_annotations();
    app.search_start();
    app.search_push('c');
    app.search_push('t');
    app.search_push('x');
    app.search_push('_');
    app.search_push('1');
    assert!(!app.search_no_match);
    match app.selected_trace_item().unwrap() {
        SelectedTraceItem::Annotation(a) => assert_eq!(a.name, "ctx_1"),
        _ => panic!("expected annotation"),
    }
}

#[test]
fn test_search_case_insensitive_and_no_match() {
    let kernels = vec![
        named_kernel(3, 100.0, "Reduce_Sum"),
        named_kernel(7, 150.0, "GEMM"),
    ];
    let mut app = app_from(kernels);

    app.search_start();
    app.search_push('g');
    app.search_push('e');
    assert!(!app.search_no_match);
    match app.selected_trace_item().unwrap() {
        SelectedTraceItem::Kernel(k) => assert_eq!(k.name, "GEMM"),
        _ => panic!("expected kernel"),
    }

    app.search_push('z');
    assert!(app.search_no_match);
}

#[test]
fn test_search_cancel_resets() {
    let kernels = vec![named_kernel(3, 100.0, "foo"), named_kernel(7, 150.0, "bar")];
    let mut app = app_from(kernels);
    app.search_start();
    app.search_push('b');
    assert_eq!(app.active_stream(), 7);
    app.search_cancel();
    assert!(!app.search_active);
    assert!(app.search_query.is_empty());
}

fn search_app() -> App {
    // Four kernels matching "gemm" across two streams, plus one non-match.
    app_from(vec![
        named_kernel(3, 100.0, "gemm_a"),
        named_kernel(3, 200.0, "relu"),
        named_kernel(3, 300.0, "gemm_b"),
        named_kernel(7, 150.0, "gemm_c"),
        named_kernel(7, 250.0, "gemm_d"),
    ])
}

fn selected_name(app: &App) -> String {
    match app.selected_trace_item().unwrap() {
        SelectedTraceItem::Kernel(k) => k.name.clone(),
        SelectedTraceItem::Annotation(a) => a.name.clone(),
    }
}

#[test]
fn test_search_collects_all_matches_and_jumps_to_first() {
    let mut app = search_app();
    app.search_start();
    for c in "gemm".chars() {
        app.search_push(c);
    }
    assert_eq!(app.search_matches.len(), 4, "four gemm_* matches");
    assert_eq!(app.search_match_idx, 0);
    assert_eq!(selected_name(&app), "gemm_a");
    assert_eq!(app.search_match_label().as_deref(), Some("1/4"));
}

#[test]
fn test_search_next_advances_through_matches() {
    let mut app = search_app();
    app.search_start();
    for c in "gemm".chars() {
        app.search_push(c);
    }
    // Lane order: stream 3 lane (gemm_a, gemm_b), then stream 7 (gemm_c, gemm_d).
    app.search_next();
    assert_eq!(selected_name(&app), "gemm_b");
    assert_eq!(app.search_match_label().as_deref(), Some("2/4"));
    app.search_next();
    assert_eq!(selected_name(&app), "gemm_c");
    app.search_next();
    assert_eq!(selected_name(&app), "gemm_d");
    assert_eq!(app.search_match_label().as_deref(), Some("4/4"));
}

#[test]
fn test_search_next_wraps_to_first() {
    let mut app = search_app();
    app.search_start();
    for c in "gemm".chars() {
        app.search_push(c);
    }
    for _ in 0..3 {
        app.search_next();
    }
    assert_eq!(selected_name(&app), "gemm_d"); // 4/4
    app.search_next(); // wraps
    assert_eq!(selected_name(&app), "gemm_a");
    assert_eq!(app.search_match_label().as_deref(), Some("1/4"));
}

#[test]
fn test_search_prev_wraps_to_last() {
    let mut app = search_app();
    app.search_start();
    for c in "gemm".chars() {
        app.search_push(c);
    }
    // At first match; prev wraps to the last.
    app.search_prev();
    assert_eq!(selected_name(&app), "gemm_d");
    assert_eq!(app.search_match_label().as_deref(), Some("4/4"));
    app.search_prev();
    assert_eq!(selected_name(&app), "gemm_c");
}

#[test]
fn test_search_next_prev_noop_without_matches() {
    let mut app = search_app();
    app.search_start();
    for c in "zzz".chars() {
        app.search_push(c);
    }
    assert!(app.search_no_match);
    assert!(app.search_matches.is_empty());
    assert!(app.search_match_label().is_none());
    // No panic, no movement.
    app.search_next();
    app.search_prev();
}

#[test]
fn test_search_refine_resets_match_index() {
    let mut app = search_app();
    app.search_start();
    for c in "gemm".chars() {
        app.search_push(c);
    }
    app.search_next();
    app.search_next();
    assert_eq!(app.search_match_idx, 2);
    // Refining the query rebuilds matches and jumps back to the first.
    app.search_push('_');
    app.search_push('c');
    assert_eq!(app.search_matches.len(), 1);
    assert_eq!(app.search_match_idx, 0);
    assert_eq!(selected_name(&app), "gemm_c");
}

#[test]
fn test_kernel_columns_skips_out_of_window() {
    let ts_start = 1000.0;
    let ts_end = 1100.0;
    let width = 100;

    assert_eq!(kernel_columns(Num(500.0), Num(900.0), Num(ts_start), Num(ts_end), width), None);
    assert_eq!(kernel_columns(Num(1200.0), Num(1300.0), Num(ts_start), Num(ts_end), width), None);

    let (s, e) = kernel_columns(Num(1050.0), Num(1060.0), Num(ts_start), Num(ts_end), width).unwrap();
    assert_eq!(s, 50);
    assert_eq!(e, 60);
}

#[test]
fn test_kernel_columns_proportional_width_at_high_zoom() {
    let ts_start = 1000.0;
    let ts_end = 1013.0;
    let width = 200;

    let big = kernel_columns(Num(1000.0), Num(1012.4), Num(ts_start), Num(ts_end), width).unwrap();
    let small = kernel_columns(Num(1006.0), Num(1006.5), Num(ts_start), Num(ts_end), width).unwrap();

    let big_w = big.1 - big.0;
    let small_w = small.1 - small.0;
    assert!(
        big_w > small_w,
        "12.4us kernel should be wider than 0.5us kernel: big={} small={}",
        big_w,
        small_w
    );
    assert!(big_w > 100, "12.4us over 13us window in 200 cols should be wide: {}", big_w);
}

#[test]
fn test_kernel_columns_clips_partial_overlap() {
    let (s, e) = kernel_columns(Num(950.0), Num(1050.0), Num(1000.0), Num(1100.0), 100).unwrap();
    assert_eq!(s, 0);
    assert_eq!(e, 50);
}

fn kd(stream: u64, ts: f64, name: &str, dur: f64) -> KernelEvent {
    KernelEvent {
        name: name.to_string(),
        cat: "kernel".to_string(),
        ts: Num(ts),
        dur: Num(dur),
        device: 0,
        stream,
        grid: None,
        block: None,
        shared_memory: None,
        registers_per_thread: None,
        correlation: None,
        trace_id: 0,
    }
}

// Active kernel lane -> header + one row per kernel, full fields,
// grid/block comma-quoted.
#[test]
fn test_lane_kernels_csv_happy() {
    let mut k0 = kd(4, 100.0, "gemm", 30.0);
    k0.device = 7;
    k0.grid = Some("[32,1,1]".into());
    k0.block = Some("[128,1,1]".into());
    k0.shared_memory = Some(2048);
    k0.registers_per_thread = Some(64);
    k0.correlation = Some(999);
    let app = app_from(vec![k0, kd(4, 200.0, "relu", 10.0)]);

    let csv = app.lane_kernels_csv().expect("kernel lane produces CSV");
    let lines: Vec<&str> = csv.lines().collect();
    assert_eq!(
        lines[0],
        "idx,annotation,stage,name,ts,dur,end_ts,stream,device,grid,block,shared_memory,registers_per_thread,correlation"
    );
    // Row 1: gemm with all fields; grid/block quoted (contain commas). No
    // annotations in this fixture, so annotation+stage are empty.
    assert_eq!(
        lines[1],
        "1,,,gemm,100,30,130,4,7,\"[32,1,1]\",\"[128,1,1]\",2048,64,999"
    );
    // Row 2: relu with empty optional fields.
    assert_eq!(lines[2], "2,,,relu,200,10,210,4,0,,,,,");
    assert_eq!(lines.len(), 3, "header + 2 kernels");
}

// Annotation lane -> None; empty is handled (header only).
#[test]
fn test_lane_kernels_csv_none_on_annotation_lane() {
    let kernels = vec![named_kernel(4, 100.0, "k")];
    let annotations = vec![AnnotationEvent {
        name: "ctx".to_string(),
        ts: Num(90.0),
        dur: Num(20.0),
        stream: 4,
        trace_id: 0,
    }];
    let mut app = App::new(Trace {
        kernels,
        annotations,
    });
    let ann_lane = app.lanes.iter().position(|l| l.is_annotations()).unwrap();
    app.active_lane = ann_lane;
    assert!(
        app.lane_kernels_csv().is_none(),
        "annotation lane is not exportable"
    );
}

// `annotation` + `stage` are columns 2 and 3. Each kernel is
// tagged with the annotation whose [ts,end_ts) window (same stream+trace)
// contains its ts, and the derived prefill/decode/mixed stage. Kernels with
// no covering annotation get empty annotation+stage. Overlapping annotations
// resolve to the tightest (shortest-span) one.
#[test]
fn test_lane_kernels_csv_annotation_stage_columns() {
    // Stream 4: three kernels.
    //  k@100 -> covered by decode annotation [90,140)
    //  k@200 -> covered by BOTH a wide [150,300) and a tight prefill [195,215);
    //           the tight one wins.
    //  k@400 -> no covering annotation -> empty annotation+stage.
    let kernels = vec![
        named_kernel(4, 100.0, "gemm"),
        named_kernel(4, 200.0, "relu"),
        named_kernel(4, 400.0, "add"),
    ];
    let annotations = vec![
        AnnotationEvent {
            name: "execute_context_0(0)_generation_1(1)".to_string(),
            ts: Num(90.0),
            dur: Num(50.0), // [90,140)
            stream: 4,
            trace_id: 0,
        },
        AnnotationEvent {
            name: "wide_noise".to_string(),
            ts: Num(150.0),
            dur: Num(150.0), // [150,300) — wider, must lose to the tight one
            stream: 4,
            trace_id: 0,
        },
        AnnotationEvent {
            name: "execute_context_1(5)_generation_0(0)".to_string(),
            ts: Num(195.0),
            dur: Num(20.0), // [195,215) — tight, wins for k@200
            stream: 4,
            trace_id: 0,
        },
    ];
    let app = App::new(Trace {
        kernels,
        annotations,
    });

    let csv = app.lane_kernels_csv().expect("kernel lane produces CSV");
    let lines: Vec<&str> = csv.lines().collect();
    assert_eq!(
        lines[0],
        "idx,annotation,stage,name,ts,dur,end_ts,stream,device,grid,block,shared_memory,registers_per_thread,correlation"
    );
    // k@100: decode annotation.
    assert_eq!(
        lines[1],
        "1,execute_context_0(0)_generation_1(1),decode,gemm,100,5,105,4,0,,,,,"
    );
    // k@200: tightest overlap = prefill annotation (wide_noise loses).
    assert_eq!(
        lines[2],
        "2,execute_context_1(5)_generation_0(0),prefill,relu,200,5,205,4,0,,,,,"
    );
    // k@400: no covering annotation -> empty annotation + stage.
    assert_eq!(lines[3], "3,,,add,400,5,405,4,0,,,,,");
    assert_eq!(lines.len(), 4, "header + 3 kernels");
}

#[test]
fn test_annotation_tightest_overlap_tie_break() {
    // Two equal-duration annotations both cover ts=100; the later-starting
    // (inner) one wins the tie.
    let anns = vec![
        AnnotationEvent {
            name: "outer".into(),
            ts: Num(90.0),
            dur: Num(20.0),
            stream: 4,
            trace_id: 0,
        },
        AnnotationEvent {
            name: "inner".into(),
            ts: Num(95.0),
            dur: Num(20.0),
            stream: 4,
            trace_id: 0,
        },
    ];
    let picked = annotation_for_kernel(&anns, 4, 0, Num(100.0)).unwrap();
    assert_eq!(picked.name, "inner");
    // Wrong stream / trace_id are excluded.
    assert!(annotation_for_kernel(&anns, 7, 0, Num(100.0)).is_none());
    assert!(annotation_for_kernel(&anns, 4, 1, Num(100.0)).is_none());
}

#[test]
fn test_lane_csv_filename_single_and_multi_trace() {
    let app = app_from(vec![kd(4, 0.0, "a", 1.0)]);
    assert_eq!(app.lane_csv_filename(), "lane-cuda4.csv");

    let t0 = trace_of(vec![kd(4, 0.0, "a", 1.0)], vec![]);
    let t1 = trace_of(vec![kd(4, 0.0, "a", 1.0)], vec![]);
    let app2 = App::new_multi(vec![("T0".into(), t0), ("T1".into(), t1)]);
    assert!(
        app2.lane_csv_filename().starts_with("lane-cuda4-trace"),
        "multi-trace name carries the trace id: {}",
        app2.lane_csv_filename()
    );
}

// Sequence runs from current up to (not including) next same-named kernel.
#[test]
fn test_sequence_between_same_named() {
    let kernels = vec![
        kd(1, 0.0, "foo", 10.0),
        kd(1, 20.0, "bar", 20.0),
        kd(1, 50.0, "baz", 5.0),
        kd(1, 60.0, "foo", 8.0),
        kd(1, 80.0, "qux", 3.0),
    ];
    let mut app = app_from(kernels);
    assert_eq!(app.selected_item, 0);
    assert!(app.start_sequence());
    let seq = app.sequence.as_ref().unwrap();
    assert_eq!(
        seq.rows,
        vec![
            (1, "foo".to_string(), Num(10.0)),
            (2, "bar".to_string(), Num(20.0)),
            (3, "baz".to_string(), Num(5.0)),
        ]
    );
    assert_eq!(
        app.sequence_csv().unwrap(),
        "idx\tkernel name\tmedian\n1\tfoo\t10.00\n2\tbar\t20.00\n3\tbaz\t5.00\n"
    );
}

// No next same-named → sequence to end of lane.
#[test]
fn test_sequence_to_end_of_lane() {
    let kernels = vec![
        kd(1, 0.0, "a", 1.0),
        kd(1, 10.0, "b", 2.0),
        kd(1, 20.0, "c", 3.0),
    ];
    let mut app = app_from(kernels);
    assert!(app.start_sequence());
    let seq = app.sequence.as_ref().unwrap();
    assert_eq!(
        seq.rows,
        vec![
            (1, "a".to_string(), Num(1.0)),
            (2, "b".to_string(), Num(2.0)),
            (3, "c".to_string(), Num(3.0)),
        ]
    );
}

// N on an annotation lane is a no-op (no sequence).
#[test]
fn test_sequence_none_on_annotation_lane() {
    let mut app = app_with_annotations();
    app.next_lane();
    assert!(app.active_lane_is_annotations());
    assert!(!app.start_sequence());
    assert!(app.sequence.is_none());
}

// N works from a kernel lane WITHOUT any prior search. The current
// selected kernel drives the sequence even right after startup.
#[test]
fn test_sequence_works_without_prior_search() {
    let mut app = app_with_annotations();
    assert!(!app.active_lane_is_annotations());
    assert!(app.start_sequence());
    let seq = app.sequence.as_ref().unwrap();
    assert_eq!(seq.rows.first().map(|(_, n, _)| n.as_str()), Some("kernel_a"));
}

// On startup the initial active lane must be a kernel lane
// (not annotations), so N works immediately without navigating or searching.
#[test]
fn test_initial_active_lane_is_kernel_when_available() {
    let app = app_with_annotations();
    assert!(!app.active_lane_is_annotations());
    assert!(app.selected_trace_item().is_some());
}

#[test]
fn test_sequence_works_on_startup_without_navigation() {
    let mut app = app_with_annotations();
    assert!(app.start_sequence());
    let seq = app.sequence.as_ref().unwrap();
    assert_eq!(seq.rows.first().map(|(_, n, _)| n.as_str()), Some("kernel_a"));
}

// Per-position median over exact repeated blocks.
#[test]
fn test_sequence_median_per_position() {
    let kernels = vec![
        kd(1, 0.0, "foo", 10.0),
        kd(1, 10.0, "bar", 20.0),
        kd(1, 20.0, "foo", 12.0),
        kd(1, 30.0, "bar", 24.0),
        kd(1, 40.0, "foo", 11.0),
        kd(1, 50.0, "bar", 22.0),
        kd(1, 60.0, "foo", 9.0),
    ];
    let mut app = app_from(kernels);
    assert!(app.start_sequence());
    // Block = [foo, bar] (stops before next foo).
    assert_eq!(app.sequence.as_ref().unwrap().rows.len(), 2);

    app.extend_sequence_median();
    let seq = app.sequence.as_ref().unwrap();
    assert_eq!(seq.reps_found, 3, "3 exact [foo,bar] blocks");
    let median = seq.median.as_ref().unwrap();
    assert_eq!(median.len(), 2);
    assert_eq!(median[0].0, "foo");
    assert!((median[0].1 - 11.0).abs() < 1e-9, "median(10,12,11)=11 got {}", median[0].1);
    assert_eq!(median[1].0, "bar");
    assert!((median[1].1 - 22.0).abs() < 1e-9, "median(20,24,22)=22 got {}", median[1].1);
}

// Median of an even count = average of the two middle values.
#[test]
fn test_sequence_median_even_count() {
    let kernels = vec![
        kd(1, 0.0, "foo", 10.0),
        kd(1, 10.0, "bar", 100.0),
        kd(1, 20.0, "foo", 20.0),
        kd(1, 30.0, "bar", 200.0),
        kd(1, 40.0, "foo", 30.0),
        kd(1, 50.0, "bar", 300.0),
        kd(1, 60.0, "foo", 40.0),
        kd(1, 70.0, "bar", 400.0),
        kd(1, 80.0, "foo", 99.0),
    ];
    let mut app = app_from(kernels);
    assert!(app.start_sequence());
    app.extend_sequence_median();
    let seq = app.sequence.as_ref().unwrap();
    assert_eq!(seq.reps_found, 4);
    let median = seq.median.as_ref().unwrap();
    // foo durs (10,20,30,40) sorted → median = (20+30)/2 = 25
    assert!((median[0].1 - 25.0).abs() < 1e-9, "even median foo got {}", median[0].1);
    // bar durs (100,200,300,400) → (200+300)/2 = 250
    assert!((median[1].1 - 250.0).abs() < 1e-9, "even median bar got {}", median[1].1);
}

// Median scan finds repeats ANYWHERE later, skipping intervening kernels.
#[test]
fn test_sequence_median_finds_non_contiguous_repeats() {
    let kernels = vec![
        kd(1, 0.0, "foo", 10.0),
        kd(1, 10.0, "bar", 20.0),
        kd(1, 20.0, "foo", 12.0),
        kd(1, 30.0, "bar", 24.0),
        kd(1, 40.0, "foo", 11.0),
        kd(1, 50.0, "qux", 99.0), // gap between blocks — must be skipped, not a stop
        kd(1, 60.0, "foo", 8.0),
        kd(1, 70.0, "bar", 8.0),
    ];
    let mut app = app_from(kernels);
    assert!(app.start_sequence());
    app.extend_sequence_median();
    let seq = app.sequence.as_ref().unwrap();
    assert_eq!(seq.reps_found, 3, "3 [foo,bar] blocks: at 0, 20, 60 (qux skipped)");
    let median = seq.median.as_ref().unwrap();
    // foo durs (10,12,8) sorted (8,10,12) → 10
    assert!((median[0].1 - 10.0).abs() < 1e-9, "foo median got {}", median[0].1);
    // bar durs (20,24,8) sorted (8,20,24) → 20
    assert!((median[1].1 - 20.0).abs() < 1e-9, "bar median got {}", median[1].1);
}

// No sequence by default; close clears it.
#[test]
fn test_sequence_default_none_and_close() {
    let mut app = sample_app();
    assert!(app.sequence.is_none());
    assert!(app.start_sequence());
    assert!(app.sequence.is_some());
    app.close_sequence();
    assert!(app.sequence.is_none());
}

#[test]
fn test_sequence_scroll_clamps_to_bounds() {
    let kernels: Vec<KernelEvent> = (0..10)
        .map(|i| kd(1, i as f64 * 10.0, &format!("k{}", i), i as f64))
        .collect();
    let mut app = app_from(kernels);
    assert!(app.start_sequence());
    assert_eq!(app.sequence.as_ref().unwrap().rows.len(), 10);
    assert_eq!(app.sequence.as_ref().unwrap().scroll, 0);

    // Scroll up at the top is a no-op.
    app.sequence_scroll_up(3);
    assert_eq!(app.sequence.as_ref().unwrap().scroll, 0);

    // With a viewport of 4, max scroll is 10 - 4 = 6.
    app.sequence_scroll_down(3, 4);
    assert_eq!(app.sequence.as_ref().unwrap().scroll, 3);
    app.sequence_scroll_down(100, 4);
    assert_eq!(app.sequence.as_ref().unwrap().scroll, 6);

    app.sequence_scroll_up(2);
    assert_eq!(app.sequence.as_ref().unwrap().scroll, 4);
}

fn ann_dur(stream: u64, ts: f64, dur: f64, name: &str) -> AnnotationEvent {
    AnnotationEvent {
        name: name.to_string(),
        ts: Num(ts),
        dur: Num(dur),
        stream,
        trace_id: 0,
    }
}

fn trace_of(kernels: Vec<KernelEvent>, annotations: Vec<AnnotationEvent>) -> Trace {
    Trace {
        kernels,
        annotations,
    }
}

// Interleave order = row0 of every trace, then row1, etc. with correct
// trace_id per lane.
#[test]
fn test_lanes_interleaved_by_row_across_traces() {
    // Each trace: stream 1 has kernels only -> 1 lane per trace.
    let t0 = trace_of(vec![kd(1, 0.0, "a", 1.0), kd(2, 0.0, "b", 1.0)], vec![]);
    let t1 = trace_of(vec![kd(1, 0.0, "c", 1.0), kd(2, 0.0, "d", 1.0)], vec![]);
    let app = App::new_multi(vec![("T0".into(), t0), ("T1".into(), t1)]);

    // t0 has 2 lanes (stream1, stream2), t1 has 2 lanes -> interleave:
    // [t0.row0, t1.row0, t0.row1, t1.row1]
    assert_eq!(app.lanes.len(), 4);
    assert_eq!(app.lanes[0].trace_id(), 0);
    assert_eq!(app.lanes[1].trace_id(), 1);
    assert_eq!(app.lanes[2].trace_id(), 0);
    assert_eq!(app.lanes[3].trace_id(), 1);
    assert_eq!(app.lanes[0].stream_id(), 1);
    assert_eq!(app.lanes[1].stream_id(), 1);
    assert_eq!(app.lanes[2].stream_id(), 2);
    assert_eq!(app.lanes[3].stream_id(), 2);
}

// Unequal lane counts -> round-robin to max, skip missing rows.
#[test]
fn test_unequal_lane_counts_round_robin_skips_missing() {
    // t0: 3 streams -> 3 lanes. t1: 1 stream -> 1 lane.
    let t0 = trace_of(
        vec![
            kd(1, 0.0, "a", 1.0),
            kd(2, 0.0, "b", 1.0),
            kd(3, 0.0, "c", 1.0),
        ],
        vec![],
    );
    let t1 = trace_of(vec![kd(1, 0.0, "d", 1.0)], vec![]);
    let app = App::new_multi(vec![("T0".into(), t0), ("T1".into(), t1)]);

    // Expected: [t0.row0, t1.row0, t0.row1, t0.row2]
    assert_eq!(app.lanes.len(), 4);
    assert_eq!(app.lanes[0].trace_id(), 0);
    assert_eq!(app.lanes[1].trace_id(), 1);
    assert_eq!(app.lanes[2].trace_id(), 0);
    assert_eq!(app.lanes[3].trace_id(), 0);
}

// Accessors read the (always-populated) override vectors, not a scalar
// offset. Two traces default to diff mode: t1.foo snaps onto t0.foo start.
#[test]
fn test_render_ts_accessors_read_overrides() {
    let t0 = trace_of(vec![kd(1, 100.0, "foo", 5.0)], vec![]);
    let t1 = trace_of(vec![kd(1, 500.0, "foo", 7.0)], vec![]);
    let app = App::new_multi(vec![("T0".into(), t0), ("T1".into(), t1)]);

    let k1 = app.kernels.iter().position(|k| k.trace_id == 1).unwrap();
    // Diff snap: start == anchor start (zero-based to global min 100).
    assert!((app.kernel_render_ts(k1) - 100.0).abs() < 1e-9);
    // t1 keeps its own duration 7 -> end 107.
    assert!((app.kernel_render_end(k1) - 107.0).abs() < 1e-9);
}

// Single trace zero-bases to identity (its own min), G is a no-op, no mode.
#[test]
fn test_single_trace_regression() {
    let app = app_with_annotations();
    assert_eq!(app.traces.len(), 1);
    // Zero-base of one trace is identity: earliest event stays put.
    let k0 = app.kernels.iter().position(|k| k.name == "kernel_a").unwrap();
    assert!((app.kernel_render_ts(k0) - 100.0).abs() < 1e-9);
    assert_eq!(app.lanes.len(), 2);
    assert!(app.lanes.iter().all(|l| l.trace_id() == 0));
}

// global_time_bounds flows through the overridden accessors: in diff mode two
// traces with matched kernels collapse to a compact aligned window.
#[test]
fn test_global_bounds_use_override_positions() {
    let t0 = trace_of(vec![kd(1, 100.0, "foo", 5.0)], vec![]);
    let t1 = trace_of(vec![kd(1, 500.0, "foo", 5.0)], vec![]);
    let app = App::new_multi(vec![("T0".into(), t0), ("T1".into(), t1)]);
    let (g_start, g_end) = app.global_time_bounds();
    // Both traces' events sit near ts=100..105 (zero-based + diff-snapped).
    assert!((g_start - 100.0).abs() < 1e-9, "start {}", g_start);
    assert!(g_end <= 106.0, "aligned end ~105 not 505, got {}", g_end);
}

// Tabbing across diff-aligned traces lands on the aligned-nearest item; with
// matched kernels snapped, selecting t0.bar and tabbing to t1 lands on t1.bar.
#[test]
fn test_tab_across_traces_uses_aligned_position() {
    let t0 = trace_of(
        vec![kd(1, 100.0, "foo", 5.0), kd(1, 200.0, "bar", 5.0)],
        vec![],
    );
    let t1 = trace_of(
        vec![kd(1, 9100.0, "foo", 5.0), kd(1, 9200.0, "bar", 5.0)],
        vec![],
    );
    let mut app = App::new_multi(vec![("T0".into(), t0), ("T1".into(), t1)]);

    let bar_lane = app
        .lanes
        .iter()
        .position(|l| {
            l.trace_id() == 0
                && !l.is_annotations()
                && l.item_indices()
                    .iter()
                    .any(|&i| app.kernels[i].name == "bar")
        })
        .unwrap();
    app.active_lane = bar_lane;
    let bar_pos = app.lanes[bar_lane]
        .item_indices()
        .iter()
        .position(|&i| app.kernels[i].name == "bar")
        .unwrap();
    app.selected_item = bar_pos;

    let t1_kern_lane = app
        .lanes
        .iter()
        .position(|l| l.trace_id() == 1 && !l.is_annotations())
        .unwrap();
    app.move_to_lane(t1_kern_lane);
    let sel = app.selected_trace_item().unwrap();
    match sel {
        // t1.bar is snapped onto t0.bar (aligned 200) -> it is the nearest.
        SelectedTraceItem::Kernel(k) => assert_eq!(k.name, "bar"),
        _ => panic!("expected kernel"),
    }
}

/// Flat kernel index of trace `tid`'s kernel named `name` at raw ts `ts`.
fn kidx(app: &App, tid: usize, name: &str, ts: f64) -> usize {
    app.kernels
        .iter()
        .position(|k| k.trace_id == tid && k.name == name && (k.ts - ts).abs() < 1e-9)
        .unwrap_or_else(|| panic!("kernel {name}@{ts} (trace {tid}) not found"))
}

fn aidx(app: &App, tid: usize, name: &str) -> usize {
    app.annotations
        .iter()
        .position(|a| a.trace_id == tid && a.name == name)
        .unwrap_or_else(|| panic!("annotation {name} (trace {tid}) not found"))
}

// Identical name sequence, differing durations. Trace-1 starts snap
// onto trace-0 starts; each trace keeps its own duration (ends differ).
#[test]
fn test_diff_align_s1_equal_snaps_start_keeps_own_duration() {
    let t0 = trace_of(
        vec![kd(1, 100.0, "a", 10.0), kd(1, 200.0, "b", 10.0)],
        vec![],
    );
    let t1 = trace_of(
        vec![kd(1, 5100.0, "a", 40.0), kd(1, 5200.0, "b", 40.0)],
        vec![],
    );
    let app = App::new_multi(vec![("T0".into(), t0), ("T1".into(), t1)]);

    let a0 = kidx(&app, 0, "a", 100.0);
    let a1 = kidx(&app, 1, "a", 5100.0);
    let b0 = kidx(&app, 0, "b", 200.0);
    let b1 = kidx(&app, 1, "b", 5200.0);

    assert!((app.kernel_render_ts(a1) - app.kernel_render_ts(a0)).abs() < 1e-9);
    assert!((app.kernel_render_ts(b1) - app.kernel_render_ts(b0)).abs() < 1e-9);
    // Anchor keeps its zero-based position (global min 100) and own duration.
    assert!((app.kernel_render_ts(a0) - 100.0).abs() < 1e-9);
    assert!((app.kernel_render_end(a0) - 110.0).abs() < 1e-9);
    // Trace 1 keeps its own (longer) duration -> ends differ.
    assert!((app.kernel_render_end(a1) - 140.0).abs() < 1e-9);
    assert!(app.kernel_render_end(a1) != app.kernel_render_end(a0));
}

// Middle Insert. Trace-1-only "x" fills a gap before the next anchor
// kernel; later anchor kernels shift right by the inserted run's span.
#[test]
fn test_diff_align_s2_middle_insert_shifts_later_anchor() {
    let t0 = trace_of(
        vec![kd(1, 100.0, "a", 10.0), kd(1, 200.0, "b", 10.0)],
        vec![],
    );
    let t1 = trace_of(
        vec![
            kd(1, 100.0, "a", 10.0),
            kd(1, 130.0, "x", 25.0),
            kd(1, 200.0, "b", 10.0),
        ],
        vec![],
    );
    let app = App::new_multi(vec![("T0".into(), t0), ("T1".into(), t1)]);

    let a0 = kidx(&app, 0, "a", 100.0);
    let b0 = kidx(&app, 0, "b", 200.0);
    let x1 = kidx(&app, 1, "x", 130.0);

    // "a" unchanged at anchor origin.
    assert!((app.kernel_render_ts(a0) - 100.0).abs() < 1e-9);
    // Insert span = single kernel dur = 25 -> "b" shifts 200 -> 225.
    assert!(
        (app.kernel_render_ts(b0) - 225.0).abs() < 1e-9,
        "b shifted by insert span, got {}",
        app.kernel_render_ts(b0)
    );
    // "x" fills the inserted gap [200,225); "b" is pushed past it to 225.
    assert!(
        (app.kernel_render_ts(x1) - 200.0).abs() < 1e-9,
        "x at gap start, got {}",
        app.kernel_render_ts(x1)
    );
    assert!((app.kernel_render_end(x1) - app.kernel_render_ts(b0)).abs() < 1e-9);
}

// Delete. Trace-0-only kernel keeps anchor position; trace 1 has no
// kernel mapped there; surrounding matches stay aligned.
#[test]
fn test_diff_align_s5_delete_keeps_anchor_only() {
    let t0 = trace_of(
        vec![
            kd(1, 100.0, "a", 10.0),
            kd(1, 200.0, "gone", 10.0),
            kd(1, 300.0, "b", 10.0),
        ],
        vec![],
    );
    let t1 = trace_of(
        vec![kd(1, 100.0, "a", 10.0), kd(1, 300.0, "b", 10.0)],
        vec![],
    );
    let app = App::new_multi(vec![("T0".into(), t0), ("T1".into(), t1)]);

    let gone0 = kidx(&app, 0, "gone", 200.0);
    let b0 = kidx(&app, 0, "b", 300.0);
    let b1 = kidx(&app, 1, "b", 300.0);

    assert!((app.kernel_render_ts(gone0) - 200.0).abs() < 1e-9);
    assert!((app.kernel_render_ts(b0) - 300.0).abs() < 1e-9);
    assert!((app.kernel_render_ts(b1) - 300.0).abs() < 1e-9);
}

// Diff Replace = Delete(old) + Insert(new): anchor-only old kernel stays put,
// new trace-1 kernel fills the inserted gap, later anchors shift by its span.
#[test]
fn test_diff_align_replace_is_delete_plus_insert() {
    let t0 = trace_of(
        vec![
            kd(1, 100.0, "a", 10.0),
            kd(1, 200.0, "old", 10.0),
            kd(1, 300.0, "b", 10.0),
        ],
        vec![],
    );
    let t1 = trace_of(
        vec![
            kd(1, 100.0, "a", 10.0),
            kd(1, 200.0, "new", 40.0),
            kd(1, 300.0, "b", 10.0),
        ],
        vec![],
    );
    let app = App::new_multi(vec![("T0".into(), t0), ("T1".into(), t1)]);

    let old0 = kidx(&app, 0, "old", 200.0);
    let new1 = kidx(&app, 1, "new", 200.0);
    let b0 = kidx(&app, 0, "b", 300.0);

    assert!((app.kernel_render_ts(old0) - 200.0).abs() < 1e-9);
    // "new" span 40 -> "b" 300 -> 340; "new" fills gap [300,340).
    assert!(
        (app.kernel_render_ts(b0) - 340.0).abs() < 1e-9,
        "b shifted by new span, got {}",
        app.kernel_render_ts(b0)
    );
    assert!(
        (app.kernel_render_ts(new1) - 300.0).abs() < 1e-9,
        "new at gap start, got {}",
        app.kernel_render_ts(new1)
    );
    assert!((app.kernel_render_end(new1) - app.kernel_render_ts(b0)).abs() < 1e-9);
}

// Diff mode remaps an annotation via the per-stream TimeMap: its start
// snaps to the anchor and its end stays >= start (monotonic).
#[test]
fn test_mode_s1_diff_remaps_annotation_via_timemap() {
    // Shared stream 1: t0 [a@100, b@200]; t1 [a@100, x@130 (insert), b@200].
    // Annotation "ctx" on t0 spans [a..b]; on t1 spans over the inserted x.
    let t0 = trace_of(
        vec![kd(1, 100.0, "a", 10.0), kd(1, 200.0, "b", 10.0)],
        vec![ann_dur(1, 100.0, 100.0, "ctx")],
    );
    let t1 = trace_of(
        vec![
            kd(1, 100.0, "a", 10.0),
            kd(1, 130.0, "x", 25.0),
            kd(1, 200.0, "b", 10.0),
        ],
        vec![ann_dur(1, 100.0, 100.0, "ctx")],
    );
    let app = App::new_multi(vec![("T0".into(), t0), ("T1".into(), t1)]);
    assert_eq!(app.align_mode, AlignMode::Diff);

    // t1 kernels: a@100, x fills [200,225), b@225 (shifted by span 25).
    let b0 = kidx(&app, 0, "b", 200.0);
    assert!((app.kernel_render_ts(b0) - 225.0).abs() < 1e-9);

    // t1 "ctx" raw [100,200] maps through controls a:(100->100), b:(200->225):
    // start=100, end interpolates to 225 (b's render). end >= start.
    let c1 = aidx(&app, 1, "ctx");
    assert!((app.annotation_render_ts(c1) - 100.0).abs() < 1e-9);
    assert!(
        (app.annotation_render_end(c1) - 225.0).abs() < 1e-9,
        "ctx end remapped through TimeMap, got {}",
        app.annotation_render_end(c1)
    );
    assert!(app.annotation_render_end(c1) >= app.annotation_render_ts(c1));
}

// Normal mode zero-bases every trace to the common start; both traces'
// earliest events coincide. Applies for >2 traces and the 2-trace toggle.
#[test]
fn test_mode_s2_normal_zero_base() {
    // Three traces at wildly different absolute ts -> all earliest coincide.
    let t0 = trace_of(vec![kd(1, 1000.0, "a", 5.0)], vec![]);
    let t1 = trace_of(vec![kd(1, 5000.0, "b", 5.0)], vec![]);
    let t2 = trace_of(vec![kd(1, 9000.0, "c", 5.0)], vec![]);
    let app =
        App::new_multi(vec![("T0".into(), t0), ("T1".into(), t1), ("T2".into(), t2)]);
    let a = kidx(&app, 0, "a", 1000.0);
    let b = kidx(&app, 1, "b", 5000.0);
    let c = kidx(&app, 2, "c", 9000.0);
    // global_min = 1000 -> a stays 1000, b/c shift to 1000 too.
    assert!((app.kernel_render_ts(a) - 1000.0).abs() < 1e-9);
    assert!((app.kernel_render_ts(b) - 1000.0).abs() < 1e-9);
    assert!((app.kernel_render_ts(c) - 1000.0).abs() < 1e-9);

    // 2-trace normal toggle: same zero-base rule.
    let u0 = trace_of(vec![kd(1, 1000.0, "a", 5.0)], vec![]);
    let u1 = trace_of(vec![kd(1, 5000.0, "z", 5.0)], vec![]);
    let mut app2 = App::new_multi(vec![("T0".into(), u0), ("T1".into(), u1)]);
    assert!(app2.toggle_align_mode());
    assert_eq!(app2.align_mode, AlignMode::Normal);
    let za = kidx(&app2, 0, "a", 1000.0);
    let zz = kidx(&app2, 1, "z", 5000.0);
    assert!((app2.kernel_render_ts(za) - 1000.0).abs() < 1e-9);
    assert!((app2.kernel_render_ts(zz) - 1000.0).abs() < 1e-9);
}

// Diff -> Normal -> Diff returns identical kernel + annotation overrides.
#[test]
fn test_mode_s3_toggle_idempotency() {
    let t0 = trace_of(
        vec![kd(1, 100.0, "a", 10.0), kd(1, 200.0, "b", 10.0)],
        vec![ann_dur(1, 100.0, 100.0, "ctx")],
    );
    let t1 = trace_of(
        vec![
            kd(1, 100.0, "a", 10.0),
            kd(1, 130.0, "x", 25.0),
            kd(1, 200.0, "b", 10.0),
        ],
        vec![ann_dur(1, 100.0, 120.0, "ctx")],
    );
    let mut app = App::new_multi(vec![("T0".into(), t0), ("T1".into(), t1)]);
    let k_before = app.kernel_render_overrides.clone();
    let a_before = app.annotation_render_overrides.clone();

    assert!(app.toggle_align_mode());
    assert!(app.toggle_align_mode());
    assert_eq!(app.align_mode, AlignMode::Diff);
    assert_eq!(app.kernel_render_overrides, k_before, "kernels restored");
    assert_eq!(
        app.annotation_render_overrides, a_before,
        "annotations restored"
    );
}

// An annotation-only stream (no kernels) uses normal mapping in both modes.
#[test]
fn test_mode_s4_annotation_only_stream_normal_in_both_modes() {
    // Stream 1 has kernels in both traces (drives diff); stream 9 is
    // annotation-only in t1. global_min = 100.
    let t0 = trace_of(vec![kd(1, 100.0, "a", 10.0)], vec![]);
    let t1 = trace_of(
        vec![kd(1, 100.0, "a", 10.0)],
        vec![ann_dur(9, 400.0, 10.0, "solo")],
    );
    let app = App::new_multi(vec![("T0".into(), t0), ("T1".into(), t1)]);
    let s = aidx(&app, 1, "solo");
    // Normal offset for t1 = global_min(100) - trace1_min(100) = 0 -> raw.
    assert!((app.annotation_render_ts(s) - 400.0).abs() < 1e-9);
    assert!((app.annotation_render_end(s) - 410.0).abs() < 1e-9);
}

// A stream present in only one trace uses normal mapping (no diff shift).
#[test]
fn test_mode_s5_one_sided_stream_normal() {
    // Stream 2 only exists in t0. global_min = 100 -> t0 offset 0.
    let t0 = trace_of(
        vec![kd(1, 100.0, "a", 10.0), kd(2, 300.0, "solo", 10.0)],
        vec![],
    );
    let t1 = trace_of(vec![kd(1, 100.0, "a", 10.0)], vec![]);
    let app = App::new_multi(vec![("T0".into(), t0), ("T1".into(), t1)]);
    let s = kidx(&app, 0, "solo", 300.0);
    assert!((app.kernel_render_ts(s) - 300.0).abs() < 1e-9, "one-sided raw");
}

// Single trace zero-bases to identity, G is a no-op, no mode label.
#[test]
fn test_mode_s6_single_trace() {
    let mut app = app_from(vec![kd(1, 100.0, "a", 10.0), kd(1, 200.0, "b", 10.0)]);
    let a = kidx(&app, 0, "a", 100.0);
    let b = kidx(&app, 0, "b", 200.0);
    assert!((app.kernel_render_ts(a) - 100.0).abs() < 1e-9);
    assert!((app.kernel_render_ts(b) - 200.0).abs() < 1e-9);
    assert!(!app.toggle_align_mode(), "G no-op for single trace");
    assert!(app.mode_label().is_none());
}

// >2 traces -> G is a no-op and layout stays normal (no diff snapping).
#[test]
fn test_mode_s7_g_noop_for_more_than_two() {
    let t0 = trace_of(vec![kd(1, 100.0, "a", 10.0)], vec![]);
    let t1 = trace_of(vec![kd(1, 500.0, "a", 10.0)], vec![]);
    let t2 = trace_of(vec![kd(1, 900.0, "a", 10.0)], vec![]);
    let mut app =
        App::new_multi(vec![("T0".into(), t0), ("T1".into(), t1), ("T2".into(), t2)]);
    let before = app.kernel_render_overrides.clone();
    assert!(!app.toggle_align_mode(), "G no-op for 3 traces");
    assert_eq!(app.kernel_render_overrides, before, "layout unchanged");
    // Normal zero-base: all "a" coincide at global_min 100 (no diff snap).
    let a1 = kidx(&app, 1, "a", 500.0);
    assert!((app.kernel_render_ts(a1) - 100.0).abs() < 1e-9);
}

// Mode_label is Some("diff")/Some("normal") for 2 traces (flips on
// toggle) and None for 1 and 3 traces.
#[test]
fn test_mode_s8_header_label() {
    let t0 = trace_of(vec![kd(1, 100.0, "a", 10.0)], vec![]);
    let t1 = trace_of(vec![kd(1, 200.0, "a", 10.0)], vec![]);
    let mut app = App::new_multi(vec![("T0".into(), t0), ("T1".into(), t1)]);
    assert_eq!(app.mode_label().as_deref(), Some("diff"));
    assert!(app.toggle_align_mode());
    assert_eq!(app.mode_label().as_deref(), Some("normal"));
    assert!(app.toggle_align_mode());
    assert_eq!(app.mode_label().as_deref(), Some("diff"));

    let single = app_from(vec![kd(1, 0.0, "a", 1.0)]);
    assert!(single.mode_label().is_none());

    let u0 = trace_of(vec![kd(1, 0.0, "a", 1.0)], vec![]);
    let u1 = trace_of(vec![kd(1, 0.0, "b", 1.0)], vec![]);
    let u2 = trace_of(vec![kd(1, 0.0, "c", 1.0)], vec![]);
    let three =
        App::new_multi(vec![("T0".into(), u0), ("T1".into(), u1), ("T2".into(), u2)]);
    assert!(three.mode_label().is_none());
}

// Every event has a populated override after construction (invariant).
#[test]
fn test_overrides_fully_populated() {
    let t0 = trace_of(
        vec![kd(1, 100.0, "a", 10.0)],
        vec![ann_dur(1, 100.0, 20.0, "ctx")],
    );
    let t1 = trace_of(
        vec![kd(1, 100.0, "a", 10.0), kd(1, 130.0, "x", 10.0)],
        vec![ann_dur(1, 100.0, 40.0, "ctx")],
    );
    let app = App::new_multi(vec![("T0".into(), t0), ("T1".into(), t1)]);
    assert!(app.kernel_render_overrides.iter().all(|o| o.is_some()));
    assert!(app.annotation_render_overrides.iter().all(|o| o.is_some()));
}

// Insert -> trace-1-only kernel is Added; matched kernels carry no status.
#[test]
fn test_diff_status_insert_is_added() {
    let t0 = trace_of(
        vec![kd(1, 100.0, "a", 10.0), kd(1, 200.0, "b", 10.0)],
        vec![],
    );
    let t1 = trace_of(
        vec![
            kd(1, 100.0, "a", 10.0),
            kd(1, 130.0, "x", 25.0),
            kd(1, 200.0, "b", 10.0),
        ],
        vec![],
    );
    let app = App::new_multi(vec![("T0".into(), t0), ("T1".into(), t1)]);
    let x1 = kidx(&app, 1, "x", 130.0);
    let a1 = kidx(&app, 1, "a", 100.0);
    let a0 = kidx(&app, 0, "a", 100.0);
    assert_eq!(app.kernel_diff(x1), Some(KernelDiff::Added));
    assert_eq!(app.kernel_diff(a1), None, "matched kernel has no status");
    assert_eq!(app.kernel_diff(a0), None);
}

// Delete -> trace-0-only kernel is Deleted.
#[test]
fn test_diff_status_delete_is_deleted() {
    let t0 = trace_of(
        vec![
            kd(1, 100.0, "a", 10.0),
            kd(1, 200.0, "gone", 10.0),
            kd(1, 300.0, "b", 10.0),
        ],
        vec![],
    );
    let t1 = trace_of(
        vec![kd(1, 100.0, "a", 10.0), kd(1, 300.0, "b", 10.0)],
        vec![],
    );
    let app = App::new_multi(vec![("T0".into(), t0), ("T1".into(), t1)]);
    let gone0 = kidx(&app, 0, "gone", 200.0);
    assert_eq!(app.kernel_diff(gone0), Some(KernelDiff::Deleted));
}

// Replace -> old kernel Deleted, new kernel Added.
#[test]
fn test_diff_status_replace_marks_both() {
    let t0 = trace_of(
        vec![
            kd(1, 100.0, "a", 10.0),
            kd(1, 200.0, "old", 10.0),
            kd(1, 300.0, "b", 10.0),
        ],
        vec![],
    );
    let t1 = trace_of(
        vec![
            kd(1, 100.0, "a", 10.0),
            kd(1, 200.0, "new", 40.0),
            kd(1, 300.0, "b", 10.0),
        ],
        vec![],
    );
    let app = App::new_multi(vec![("T0".into(), t0), ("T1".into(), t1)]);
    let old0 = kidx(&app, 0, "old", 200.0);
    let new1 = kidx(&app, 1, "new", 200.0);
    assert_eq!(app.kernel_diff(old0), Some(KernelDiff::Deleted));
    assert_eq!(app.kernel_diff(new1), Some(KernelDiff::Added));
}

// Normal mode clears all diff status; toggling back restores it.
#[test]
fn test_diff_status_cleared_in_normal_mode() {
    let t0 = trace_of(vec![kd(1, 100.0, "a", 10.0)], vec![]);
    let t1 = trace_of(
        vec![kd(1, 100.0, "a", 10.0), kd(1, 130.0, "x", 10.0)],
        vec![],
    );
    let mut app = App::new_multi(vec![("T0".into(), t0), ("T1".into(), t1)]);
    let x1 = kidx(&app, 1, "x", 130.0);
    assert_eq!(app.kernel_diff(x1), Some(KernelDiff::Added));

    assert!(app.toggle_align_mode());
    assert!(app.kernel_diff_status.iter().all(|s| s.is_none()), "normal clears status");

    assert!(app.toggle_align_mode());
    assert_eq!(app.kernel_diff(x1), Some(KernelDiff::Added), "diff restores status");
}

// No diff status for >2 traces (no diff runs).
#[test]
fn test_diff_status_none_for_more_than_two_traces() {
    let t0 = trace_of(vec![kd(1, 100.0, "a", 10.0)], vec![]);
    let t1 = trace_of(vec![kd(1, 100.0, "a", 10.0), kd(1, 130.0, "x", 10.0)], vec![]);
    let t2 = trace_of(vec![kd(1, 100.0, "a", 10.0)], vec![]);
    let app =
        App::new_multi(vec![("T0".into(), t0), ("T1".into(), t1), ("T2".into(), t2)]);
    assert!(app.kernel_diff_status.iter().all(|s| s.is_none()));
}

// Diff app where a wide MATCHED kernel spans a narrow ADDED / DELETED one so
// the priority resolution is exercised. Stream 1:
//   t0: reduce@100 dur 400 (matched), gone@200 dur 20 (deleted-only in t0)
//   t1: reduce@100 dur 400 (matched), extra@200 dur 20 (added-only in t1)
// Under diff, reduce matches; gone is Deleted (t0), extra is Added (t1).
fn overlap_diff_app() -> App {
    let t0 = trace_of(
        vec![kd(1, 100.0, "reduce", 400.0), kd(1, 200.0, "gone", 20.0)],
        vec![],
    );
    let t1 = trace_of(
        vec![kd(1, 100.0, "reduce", 400.0), kd(1, 200.0, "extra", 20.0)],
        vec![],
    );
    App::new_multi(vec![("T0".into(), t0), ("T1".into(), t1)])
}

fn kernel_lane(app: &App, tid: usize) -> usize {
    app.lanes
        .iter()
        .position(|l| !l.is_annotations() && l.trace_id() == tid)
        .unwrap()
}

// Parks the active lane out of range so nothing is the selected item; tests
// that exercise class/geometry (not selection) start from a clean slate.
fn no_selection(app: &mut App) {
    app.active_lane = usize::MAX;
}

// Non-overlapping kernels each own their own columns; owner_pos correct;
// gaps are None.
#[test]
fn test_columns_s1_non_overlapping_own_columns() {
    let mut app = app_from(vec![kd(1, 0.0, "a", 10.0), kd(1, 50.0, "b", 10.0)]);
    no_selection(&mut app);
    let lane = kernel_lane(&app, 0);
    // Window [0,100) over width 100 -> a: cols 0..10, b: cols 50..60.
    let cols = app.lane_column_classes(lane, Num(0.0), Num(100.0), 100, false);
    assert_eq!(cols.len(), 100);
    assert_eq!(cols[5], Some((ColumnClass::Matched, 0)), "a owns col 5");
    assert_eq!(cols[55], Some((ColumnClass::Matched, 1)), "b owns col 55");
    assert_eq!(cols[30], None, "gap is empty");
}

// A wide MATCHED kernel overlapping a narrow ADDED kernel's
// columns -> those columns are Added, not Matched.
#[test]
fn test_columns_s2_added_wins_over_wide_matched() {
    let mut app = overlap_diff_app();
    no_selection(&mut app);
    let lane1 = kernel_lane(&app, 1);
    let extra_pos = app.lanes[lane1]
        .item_indices()
        .iter()
        .position(|&i| app.kernels[i].name == "extra")
        .unwrap();
    // reduce spans render cols 0..400 (rs 100..500); the diff shifts extra to
    // render 220..240, i.e. cols 120..140 in this [100,500) width-400 window.
    let cols = app.lane_column_classes(lane1, Num(100.0), Num(400.0), 400, true);
    assert_eq!(
        cols[130],
        Some((ColumnClass::Added, extra_pos)),
        "added kernel wins its column over the wide matched reduce"
    );
    // A column the reduce covers but extra does not -> Matched.
    assert_eq!(
        cols[10].map(|(c, _)| c),
        Some(ColumnClass::Matched),
        "reduce-only column stays matched"
    );
}

// Wide Matched over a narrow Deleted -> those columns Deleted.
#[test]
fn test_columns_s3_deleted_wins_over_wide_matched() {
    let mut app = overlap_diff_app();
    no_selection(&mut app);
    let lane0 = kernel_lane(&app, 0);
    let gone_pos = app.lanes[lane0]
        .item_indices()
        .iter()
        .position(|&i| app.kernels[i].name == "gone")
        .unwrap();
    let cols = app.lane_column_classes(lane0, Num(100.0), Num(400.0), 400, true);
    assert_eq!(cols[110], Some((ColumnClass::Deleted, gone_pos)));
}

// Selected kernel columns win over an overlapping matched kernel.
#[test]
fn test_columns_s4_selected_wins() {
    let mut app = overlap_diff_app();
    let lane1 = kernel_lane(&app, 1);
    // Select the "extra" (added) kernel; its columns must become Selected.
    app.active_lane = lane1;
    let extra_pos = app.lanes[lane1]
        .item_indices()
        .iter()
        .position(|&i| app.kernels[i].name == "extra")
        .unwrap();
    app.selected_item = extra_pos;
    let cols = app.lane_column_classes(lane1, Num(100.0), Num(400.0), 400, true);
    assert_eq!(cols[130], Some((ColumnClass::Selected, extra_pos)));
    // The reduce-only column stays matched (not the active selection).
    assert_eq!(cols[10].map(|(c, _)| c), Some(ColumnClass::Matched));
}

// A column overlapped by both an Added and a Deleted kernel -> Deleted
// (rank 3 > 2). Build a synthetic app by overriding diff status directly.
#[test]
fn test_columns_s5_deleted_beats_added() {
    // Two kernels at the SAME columns in one lane, one Added one Deleted.
    let mut app = app_from(vec![kd(1, 100.0, "x", 50.0), kd(1, 100.0, "y", 50.0)]);
    no_selection(&mut app);
    let lane = kernel_lane(&app, 0);
    let items = app.lanes[lane].item_indices().to_vec();
    // Force diff statuses: items[0]=Added, items[1]=Deleted.
    app.kernel_diff_status[items[0]] = Some(KernelDiff::Added);
    app.kernel_diff_status[items[1]] = Some(KernelDiff::Deleted);
    let cols = app.lane_column_classes(lane, Num(100.0), Num(50.0), 50, true);
    assert_eq!(
        cols[10].map(|(c, _)| c),
        Some(ColumnClass::Deleted),
        "deleted outranks added on a contested column"
    );
}

// Gaps between kernels are None.
#[test]
fn test_columns_s6_gaps_are_empty() {
    let mut app = app_from(vec![kd(1, 0.0, "a", 5.0), kd(1, 80.0, "b", 5.0)]);
    no_selection(&mut app);
    let lane = kernel_lane(&app, 0);
    let cols = app.lane_column_classes(lane, Num(0.0), Num(100.0), 100, false);
    assert!(cols[40].is_none(), "mid gap empty");
    assert!(cols[0].is_some(), "a present at start");
}

// Non-diff mode collapses every non-selected kernel to Matched even when
// kernel_diff would report Added/Deleted.
#[test]
fn test_columns_s7_non_diff_all_matched() {
    let mut app = overlap_diff_app();
    let lane1 = kernel_lane(&app, 1);
    // Sanity: in diff, extra is Added.
    let cols_diff = app.lane_column_classes(lane1, Num(100.0), Num(400.0), 400, true);
    assert_eq!(cols_diff[130].map(|(c, _)| c), Some(ColumnClass::Added));
    // Non-diff: same column is Matched (base colour in the UI), not Added.
    app.active_lane = usize::MAX; // ensure nothing is the active/selected lane
    let cols_norm = app.lane_column_classes(lane1, Num(100.0), Num(400.0), 400, false);
    assert_eq!(cols_norm[130].map(|(c, _)| c), Some(ColumnClass::Matched));
    assert!(cols_norm
        .iter()
        .flatten()
        .all(|(c, _)| *c == ColumnClass::Matched));
}

// Single trace, one stream, three kernels laid out across a known window.
// A click inside a kernel's columns selects that kernel.
fn mouse_app() -> App {
    // Kernels a@0..10, b@20..30, c@40..50 on stream 1.
    let mut app = app_from(vec![
        kd(1, 0.0, "a", 10.0),
        kd(1, 20.0, "b", 10.0),
        kd(1, 40.0, "c", 10.0),
    ]);
    // Simulate a render: gutter 10 wide, timeline 50 wide, window [0,50).
    app.lane_layout = LaneLayout {
        inner_x: 0,
        inner_y: 1,
        inner_h: 4,
        label_width: 10,
        lane_width: 50,
        view_offset: 0,
        ts_start: Num(0.0),
        time_span: Num(50.0),
    };
    app
}

#[test]
fn test_click_selects_kernel_under_cursor() {
    let mut app = mouse_app();
    // Timeline x0 = inner_x + label_width = 10. Kernel "b" spans ts 20..30,
    // which in a 50-wide window maps to cols 20..30 -> screen 30..40.
    assert!(app.click_select(32, 1), "click on kernel lane row");
    match app.selected_trace_item().unwrap() {
        SelectedTraceItem::Kernel(k) => assert_eq!(k.name, "b"),
        _ => panic!("expected kernel b"),
    }
}

#[test]
fn test_click_first_and_last_kernel() {
    let mut app = mouse_app();
    // "a" spans ts 0..10 -> screen cols 10..20.
    assert!(app.click_select(11, 1));
    assert_eq!(app.selected_item, 0);
    // "c" spans ts 40..50 -> screen cols 50..60.
    assert!(app.click_select(52, 1));
    assert_eq!(app.selected_item, 2);
}

#[test]
fn test_click_empty_space_selects_nearest() {
    let mut app = mouse_app();
    // Gap between "a" (screen 10..20) and "b" (screen 30..40): click at 26
    // is nearest to "b" (center 35, dist 9) vs "a" (center 15, dist 11).
    assert!(app.click_select(26, 1));
    assert_eq!(app.selected_item, 1, "nearest item is b");
}

#[test]
fn test_click_in_label_gutter_activates_lane_only() {
    let mut app = mouse_app();
    app.selected_item = 2;
    // Column 3 is inside the 10-wide gutter -> activates lane, keeps item.
    assert!(app.click_select(3, 1));
    assert_eq!(app.active_lane, 0);
    assert_eq!(app.selected_item, 2, "gutter click preserves selection");
}

#[test]
fn test_click_outside_lane_area_is_noop() {
    let mut app = mouse_app();
    app.selected_item = 1;
    // Row 0 is above inner_y (1); row 5 is below inner_y+inner_h (5).
    assert!(!app.click_select(30, 0));
    assert!(!app.click_select(30, 5));
    assert_eq!(app.selected_item, 1, "out-of-area clicks change nothing");
}

#[test]
fn test_click_selects_correct_lane_across_rows() {
    // Two streams -> two kernel lanes stacked at rows 1 and 2.
    let mut app = app_from(vec![kd(1, 0.0, "s1k", 10.0), kd(2, 0.0, "s2k", 10.0)]);
    assert_eq!(app.lanes.len(), 2);
    app.lane_layout = LaneLayout {
        inner_x: 0,
        inner_y: 1,
        inner_h: 4,
        label_width: 10,
        lane_width: 50,
        view_offset: 0,
        ts_start: Num(0.0),
        time_span: Num(50.0),
    };
    // Click row 2 (second lane), inside its kernel columns.
    assert!(app.click_select(12, 2));
    assert_eq!(app.active_lane, 1);
    match app.selected_trace_item().unwrap() {
        SelectedTraceItem::Kernel(k) => assert_eq!(k.name, "s2k"),
        _ => panic!("expected kernel s2k"),
    }
}

#[test]
fn test_click_honors_view_offset() {
    let mut app = app_from(vec![
        kd(1, 0.0, "s1", 10.0),
        kd(2, 0.0, "s2", 10.0),
        kd(3, 0.0, "s3", 10.0),
    ]);
    assert_eq!(app.lanes.len(), 3);
    // Scrolled so lane 1 is the first visible row.
    app.lane_layout = LaneLayout {
        inner_x: 0,
        inner_y: 1,
        inner_h: 2,
        label_width: 10,
        lane_width: 50,
        view_offset: 1,
        ts_start: Num(0.0),
        time_span: Num(50.0),
    };
    // Row 1 now maps to lane index 1 (view_offset 1 + 0).
    assert!(app.click_select(12, 1));
    assert_eq!(app.active_lane, 1);
}
