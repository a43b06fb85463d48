//! Keys, the mouse, and the texts around the lanes.
use pytorch_trace_tui::clipboard::{copy_file_name, copy_message, osc52_sequence, CopyOutcome};
use pytorch_trace_tui::input::{handle_key, handle_mouse, lane_rows, Action, Key, Mouse};
use pytorch_trace_tui::lane::AlignMode;
use pytorch_trace_tui::panels::{
    details_title, header, lane_label, lanes_title, selected_details, sequence_popup,
    sequence_viewport, stream_label_width, Header,
};
use pytorch_trace_tui::scalar::Scalar;

/// Microseconds in double precision.
#[derive(Debug, Clone, Copy, PartialEq, PartialOrd)]
struct Num(f64);

impl Scalar for Num {
    fn plus(self, other: Self) -> Self {
        Num(self.0 + other.0)
    }
    fn minus(self, other: Self) -> Self {
        Num(self.0 - other.0)
    }
    fn times(self, other: Self) -> Self {
        Num(self.0 * other.0)
    }
    fn over(self, other: Self) -> Self {
        Num(self.0 / other.0)
    }
    fn larger(self, other: Self) -> Self {
        Num(self.0.max(other.0))
    }
    fn smaller(self, other: Self) -> Self {
        Num(self.0.min(other.0))
    }
    fn magnitude(self) -> Self {
        Num(self.0.abs())
    }
    fn rounded_down(self) -> Self {
        Num(self.0.floor())
    }
    fn rounded_up(self) -> Self {
        Num(self.0.ceil())
    }
    fn less(self, other: Self) -> bool {
        self.0 < other.0
    }
    fn at_most(self, other: Self) -> bool {
        self.0 <= other.0
    }
    fn same(self, other: Self) -> bool {
        self.0 == other.0
    }
    fn total_less(self, other: Self) -> bool {
        self.0.total_cmp(&other.0).is_lt()
    }
    fn finite(self) -> bool {
        self.0.is_finite()
    }
    fn to_index(self) -> usize {
        self.0 as usize
    }
    fn to_count(self) -> u64 {
        self.0 as u64
    }
    fn whole(n: u64) -> Self {
        Num(n as f64)
    }
    fn ratio(num: i64, den: u64) -> Self {
        Num(num as f64 / den as f64)
    }
    fn infinity() -> Self {
        Num(f64::INFINITY)
    }
    fn neg_infinity() -> Self {
        Num(f64::NEG_INFINITY)
    }
    fn largest() -> Self {
        Num(f64::MAX)
    }
    fn lowest() -> Self {
        Num(f64::MIN)
    }
    fn show(self) -> String {
        format!("{}", self.0)
    }
    fn show_places(self, places: usize) -> String {
        format!("{:.*}", places, self.0)
    }
}

type App = pytorch_trace_tui::app::App<Num>;
type KernelEvent = pytorch_trace_tui::trace::KernelEvent<Num>;
type AnnotationEvent = pytorch_trace_tui::trace::AnnotationEvent<Num>;
type Trace = pytorch_trace_tui::trace::Trace<Num>;

fn kd(stream: u64, ts: f64, name: &str, dur: f64) -> KernelEvent {
    KernelEvent {
        name: name.to_string(),
        cat: "kernel".to_string(),
        ts: Num(ts),
        dur: Num(dur),
        device: 0,
        stream,
        grid: None,
        block: None,
        shared_memory: None,
        registers_per_thread: None,
        correlation: None,
        trace_id: 0,
    }
}

fn ann(stream: u64, ts: f64, dur: f64, name: &str) -> AnnotationEvent {
    AnnotationEvent { name: name.into(), ts: Num(ts), dur: Num(dur), stream, trace_id: 0 }
}

fn single() -> App {
    App::new(Trace {
        kernels: vec![
            kd(1, 0.0, "gemm", 10.0),
            kd(1, 20.0, "relu", 20.0),
            kd(1, 40.0, "gemm", 30.0),
            kd(1, 60.0, "relu", 40.0),
            kd(1, 80.0, "gemm", 50.0),
            kd(2, 5.0, "copy", 1.0),
        ],
        annotations: vec![ann(1, 0.0, 30.0, "step")],
    })
}

fn pair() -> App {
    let t0 = Trace { kernels: vec![kd(1, 100.0, "a", 10.0)], annotations: vec![] };
    let t1 = Trace {
        kernels: vec![kd(1, 500.0, "a", 10.0), kd(1, 530.0, "x", 5.0)],
        annotations: vec![],
    };
    App::new_multi(vec![("run_base".into(), t0), ("run_tuned".into(), t1)])
}

fn press(app: &mut App, key: Key) -> Action {
    handle_key(app, key, 40)
}

#[test]
fn quit_keys_end_the_program() {
    let mut app = single();
    assert!(matches!(press(&mut app, Key::Char('q')), Action::Quit));
    assert!(matches!(press(&mut app, Key::Char('Q')), Action::Quit));
    assert!(matches!(press(&mut app, Key::Esc), Action::Quit));
    assert!(matches!(press(&mut app, Key::Char('z')), Action::Stay));
}

#[test]
fn letters_and_arrows_move_the_selection() {
    let mut app = single();
    assert!(!app.active_lane_is_annotations());
    press(&mut app, Key::Char('d'));
    press(&mut app, Key::Right);
    assert_eq!(app.selected_item, 2);
    press(&mut app, Key::Char('A'));
    press(&mut app, Key::Left);
    assert_eq!(app.selected_item, 0);
    let lane = app.active_lane;
    press(&mut app, Key::Tab);
    assert_ne!(app.active_lane, lane);
    press(&mut app, Key::BackTab);
    assert_eq!(app.active_lane, lane);
    press(&mut app, Key::Char('w'));
    assert_eq!(app.zoom_level, Num(1.5));
    press(&mut app, Key::Down);
    assert_eq!(app.zoom_level, Num(1.0));
}

#[test]
fn search_keys_make_and_walk_the_matches() {
    let mut app = single();
    press(&mut app, Key::Char('/'));
    for c in "GEMM".chars() {
        press(&mut app, Key::Char(c));
    }
    assert_eq!(app.search_matches.len(), 3);
    press(&mut app, Key::Enter { shift: false });
    assert_eq!(app.search_match_idx, 1);
    press(&mut app, Key::Enter { shift: true });
    press(&mut app, Key::Enter { shift: true });
    assert_eq!(app.search_match_idx, 2);
    assert_eq!(app.search_match_label().as_deref(), Some("3/3"));
    match header(&app) {
        Header::Search { query, failed, note } => {
            assert_eq!(query, "GEMM\u{2588}");
            assert!(!failed);
            assert!(note.contains("3/3"), "{note}");
        }
        other => panic!("{other:?}"),
    }
    press(&mut app, Key::Backspace);
    assert_eq!(app.search_query, "GEM");
    press(&mut app, Key::Char('q'));
    assert!(app.search_no_match, "q belongs to the query");
    press(&mut app, Key::Tab);
    assert!(!app.search_active);
    assert_eq!(app.search_query, "GEMq");
    press(&mut app, Key::Char('/'));
    press(&mut app, Key::Char('r'));
    press(&mut app, Key::Esc);
    assert!(!app.search_active);
    assert!(app.search_query.is_empty());
}

#[test]
fn going_to_the_next_match_and_back_changes_nothing() {
    let mut app = single();
    press(&mut app, Key::Char('/'));
    press(&mut app, Key::Char('m'));
    for _ in 0..4 {
        let before = (app.search_match_idx, app.active_lane, app.selected_item);
        app.search_next();
        app.search_prev();
        assert_eq!((app.search_match_idx, app.active_lane, app.selected_item), before);
        app.search_prev();
        app.search_next();
        assert_eq!((app.search_match_idx, app.active_lane, app.selected_item), before);
        app.search_next();
    }
}

#[test]
fn the_popup_takes_the_keys() {
    let mut app = single();
    press(&mut app, Key::Char('n'));
    let seq = app.sequence.as_ref().expect("a sequence");
    assert_eq!(
        seq.rows,
        vec![(1, "gemm".to_string(), Num(10.0)), (2, "relu".to_string(), Num(20.0))]
    );
    assert_eq!(seq.reps_found, 2);
    press(&mut app, Key::Char('q'));
    assert!(app.sequence.is_some(), "q does not quit from the popup");
    match press(&mut app, Key::Char('y')) {
        Action::Copy(text) => {
            assert_eq!(text, "idx\tkernel name\tmedian\n1\tgemm\t20.00\n2\trelu\t30.00\n")
        }
        other => panic!("{other:?}"),
    }
    press(&mut app, Key::Down);
    press(&mut app, Key::PageDown);
    assert_eq!(app.sequence.as_ref().unwrap().scroll, 0, "everything fits");
    press(&mut app, Key::Esc);
    assert!(app.sequence.is_none());
}

#[test]
fn the_popup_shows_its_rows() {
    let mut app = single();
    press(&mut app, Key::Char('N'));
    let popup = sequence_popup(&app, 60, 20).expect("a popup");
    assert_eq!(popup.rows.len(), 2);
    assert!(popup.rows[0].contains("gemm") && popup.rows[0].contains("20.00"), "{:?}", popup.rows);
    assert!(popup.reps.contains('2'), "{}", popup.reps);
    assert!(sequence_popup(&single(), 60, 20).is_none());
    assert_eq!(sequence_viewport(40, &app), 22);
    assert_eq!(sequence_viewport(5, &app), 1);
}

#[test]
fn a_lane_is_exported_or_refused() {
    let mut app = single();
    match press(&mut app, Key::Char('e')) {
        Action::Export { file_name, csv } => {
            assert_eq!(file_name, "lane-cuda1.csv");
            assert_eq!(csv.lines().count(), 6);
        }
        other => panic!("{other:?}"),
    }
    let notes = app.lanes.iter().position(|l| l.is_annotations()).unwrap();
    app.active_lane = notes;
    assert!(matches!(press(&mut app, Key::Char('E')), Action::Stay));
    assert!(app.status.is_some());
    assert!(matches!(header(&app), Header::Status(_)));
    press(&mut app, Key::Other);
    assert!(app.status.is_none(), "any key clears the status");
    assert!(matches!(header(&app), Header::Help(_)));
}

#[test]
fn toggling_twice_restores_the_positions() {
    let mut app = pair();
    let before = app.kernel_render_overrides.clone();
    press(&mut app, Key::Char('g'));
    assert_eq!(app.align_mode, AlignMode::Normal);
    assert_ne!(app.kernel_render_overrides, before);
    press(&mut app, Key::Char('G'));
    assert_eq!(app.align_mode, AlignMode::Diff);
    assert_eq!(app.kernel_render_overrides, before);
}

#[test]
fn the_wheel_zooms_unless_a_popup_is_open() {
    let mut app = single();
    handle_mouse(&mut app, Mouse::WheelUp);
    assert_eq!(app.zoom_level, Num(1.5));
    handle_mouse(&mut app, Mouse::WheelDown);
    assert_eq!(app.zoom_level, Num(1.0));
    press(&mut app, Key::Char('n'));
    handle_mouse(&mut app, Mouse::WheelUp);
    assert_eq!(app.zoom_level, Num(1.0));
}

#[test]
fn a_planned_area_takes_clicks() {
    let mut app = single();
    let plan = app.plan_lanes(0, 1, 110, 10).expect("room for lanes");
    assert_eq!((plan.start, plan.end), (0, 3));
    assert_eq!(plan.label_width + plan.lane_width, 110);
    let kernels = app.lanes.iter().position(|l| !l.is_annotations()).unwrap();
    let row = 1 + kernels as u16;
    handle_mouse(&mut app, Mouse::Click { col: plan.label_width as u16, row });
    assert_eq!((app.active_lane, app.selected_item), (kernels, 0));
    handle_mouse(&mut app, Mouse::Click { col: 109, row });
    assert_eq!((app.active_lane, app.selected_item), (kernels, 4));
    handle_mouse(&mut app, Mouse::Click { col: 0, row: 1 });
    assert_eq!(app.active_lane, 0);
    assert!(app.plan_lanes(0, 1, 8, 10).is_none(), "too narrow");
    handle_mouse(&mut app, Mouse::Click { col: 5, row });
    assert_eq!(app.active_lane, 0, "nothing is drawn, nothing is hit");
}

#[test]
fn labels_tell_the_traces_apart() {
    let app = pair();
    let short = app.trace_display_labels();
    assert_eq!(short, vec!["base", "tuned"]);
    let width = stream_label_width(&app);
    let label = lane_label(&app, 0, &short, width);
    assert!(label.contains("base") && label.contains('1'), "{label}");
    assert_eq!(label.chars().count(), width);
    assert!(lanes_title(&app).contains("diff"), "{}", lanes_title(&app));
}

#[test]
fn details_follow_the_selection() {
    let mut app = single();
    assert_eq!(details_title(&app), " Kernel Info ");
    let lines = selected_details(&app).expect("a kernel");
    assert_eq!(lines[0][0].value, "gemm");
    app.active_lane = app.lanes.iter().position(|l| l.is_annotations()).unwrap();
    app.selected_item = 0;
    assert_eq!(details_title(&app), " Annotation Info ");
    let lines = selected_details(&app).expect("an annotation");
    assert_eq!(lines[0][0].value, "step");
    app.selected_item = 9;
    assert!(selected_details(&app).is_none());
}

#[test]
fn rows_for_lanes_are_never_none() {
    assert_eq!(lane_rows(40), 24);
    assert_eq!(lane_rows(16), 1);
    assert_eq!(lane_rows(0), 1);
}

#[test]
fn a_copy_goes_out_and_is_reported() {
    let sent = osc52_sequence("idx,name\n1,foo\n");
    assert!(sent.starts_with("\x1b]52;c;"));
    assert!(sent.ends_with('\x07'));
    assert_eq!(sent, "\x1b]52;c;aWR4LG5hbWUKMSxmb28K\x07");
    assert_eq!(copy_file_name(1700000000123), "kernel-sequence-1700000000123.csv");
    let outcome = |via_native, via_osc52| CopyOutcome {
        via_native,
        via_osc52,
        file_path: "/tmp/x.csv".to_string(),
    };
    assert_eq!(
        copy_message(&outcome(true, true)),
        "copied to clipboard; CSV also saved to /tmp/x.csv"
    );
    assert_eq!(copy_message(&outcome(false, true)), "sent via OSC52; CSV also saved to /tmp/x.csv");
    assert_eq!(
        copy_message(&outcome(false, false)),
        "clipboard unavailable; CSV also saved to /tmp/x.csv"
    );
}

#[test]
fn kernel_details_name_the_stream_and_the_device() {
    let app = single();
    let lines = selected_details(&app).expect("a kernel");
    assert_eq!(lines.len(), 6);
    let place: Vec<(&str, &str)> = lines[1].iter().map(|d| (d.label, d.value.as_str())).collect();
    assert_eq!(place, vec![("Stream: ", "cuda:1"), ("Device: ", "0")]);
}

#[test]
fn an_empty_search_tells_how_to_leave_it() {
    let mut app = single();
    press(&mut app, Key::Char('/'));
    match header(&app) {
        Header::Search { note, .. } => assert_eq!(note, "  [Tab] keep  [Esc] cancel"),
        other => panic!("{other:?}"),
    }
    press(&mut app, Key::Tab);
    assert!(!app.search_active, "Tab keeps the selection and leaves the search");
}
