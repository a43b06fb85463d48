//! The viewer with whole ticks.
use pytorch_trace_tui::app::columns::kernel_columns;
use pytorch_trace_tui::app::sequence::median_of;
use pytorch_trace_tui::lane::KernelDiff;
use pytorch_trace_tui::scalar::Scalar;
use pytorch_trace_tui::timemap::TimeMap;

type App = pytorch_trace_tui::app::App<i64>;
type KernelEvent = pytorch_trace_tui::trace::KernelEvent<i64>;
type AnnotationEvent = pytorch_trace_tui::trace::AnnotationEvent<i64>;
type Trace = pytorch_trace_tui::trace::Trace<i64>;

fn kd(stream: u64, ts: i64, name: &str, dur: i64) -> KernelEvent {
    KernelEvent {
        name: name.to_string(),
        cat: "kernel".to_string(),
        ts,
        dur,
        device: 0,
        stream,
        grid: None,
        block: None,
        shared_memory: None,
        registers_per_thread: None,
        correlation: None,
        trace_id: 0,
    }
}

fn ann(stream: u64, ts: i64, dur: i64, name: &str) -> AnnotationEvent {
    AnnotationEvent { name: name.into(), ts, dur, stream, trace_id: 0 }
}

fn at(app: &App, trace_id: usize, name: &str) -> usize {
    app.kernels.iter().position(|k| k.trace_id == trace_id && k.name == name).unwrap()
}

fn two_traces() -> App {
    let t0 = Trace {
        kernels: vec![
            kd(1, 100, "a", 10),
            kd(1, 150, "old", 10),
            kd(1, 200, "b", 10),
            kd(1, 300, "c", 10),
        ],
        annotations: vec![ann(1, 100, 110, "step")],
    };
    let t1 = Trace {
        kernels: vec![
            kd(1, 5000, "a", 30),
            kd(1, 5040, "x", 20),
            kd(1, 5070, "y", 5),
            kd(1, 5100, "b", 7),
            kd(1, 5130, "z", 40),
            kd(1, 5300, "c", 9),
        ],
        annotations: vec![ann(1, 5000, 110, "step"), ann(1, 4990, 5, "warm")],
    };
    App::new_multi(vec![("A".into(), t0), ("B".into(), t1)])
}

#[test]
fn normal_mode_moves_traces_as_a_whole() {
    let mut app = two_traces();
    assert!(app.toggle_align_mode());
    // The earliest event of B is its annotation at 4990.
    let a = app.kernel_render_ts(at(&app, 1, "a"));
    assert_eq!(a, 110);
    for name in ["x", "y", "b", "z", "c"] {
        let i = at(&app, 1, name);
        assert_eq!(app.kernel_render_ts(i) - a, app.kernels[i].ts - 5000);
    }
    assert_eq!(app.kernel_render_ts(at(&app, 0, "b")), 200);
    let warm = app.annotations.iter().position(|a| a.name == "warm").unwrap();
    assert_eq!((app.annotation_render_ts(warm), app.annotation_render_end(warm)), (100, 105));
}

#[test]
fn diff_mode_opens_gaps_in_the_anchor() {
    let app = two_traces();
    let start = |t: usize, name: &str| app.kernel_render_ts(at(&app, t, name));
    let diff = |t: usize, name: &str| app.kernel_diff(at(&app, t, name));
    for name in ["a", "b", "c"] {
        assert_eq!(start(0, name), start(1, name), "{name} is matched");
        assert_eq!((diff(0, name), diff(1, name)), (None, None));
    }
    assert_eq!(diff(0, "old"), Some(KernelDiff::Deleted));
    assert_eq!(diff(1, "x"), Some(KernelDiff::Added));
    assert_eq!(diff(1, "z"), Some(KernelDiff::Added));
    // x and y span 35 ticks, z spans 40.
    assert_eq!((start(0, "a"), start(0, "old")), (100, 150));
    assert_eq!(start(0, "b"), 235);
    assert_eq!(start(0, "c"), 375);
    assert_eq!((start(1, "x"), start(1, "y")), (200, 230));
    assert!(app.kernel_render_end(at(&app, 1, "y")) <= start(0, "b"));
    assert_eq!(start(1, "z"), 335);
    assert_eq!(app.kernel_render_end(at(&app, 1, "z")), start(0, "c"));
}

#[test]
fn annotations_follow_their_kernels() {
    let app = two_traces();
    for (i, a) in app.annotations.iter().enumerate() {
        assert!(app.annotation_render_ts(i) <= app.annotation_render_end(i));
        if a.name == "step" {
            assert_eq!(app.annotation_render_ts(i), 100);
        }
    }
    let (start, end) = app.global_time_bounds();
    for i in 0..app.kernels.len() {
        assert!(start <= app.kernel_render_ts(i) && app.kernel_render_end(i) <= end);
    }
    let (from, to) = app.global_visible_window();
    let middle = app.selected_render_center().unwrap();
    assert!(start <= from && from <= middle && middle <= to);
}

#[test]
fn time_maps_meet_their_points_and_keep_the_order() {
    let map = TimeMap::new(vec![(30, 90), (10, 20), (20, 20)], 7);
    assert_eq!((map.map(10), map.map(20), map.map(30)), (20, 20, 90));
    assert_eq!((map.map(5), map.map(35)), (15, 95));
    let mapped: Vec<i64> = (0..50).map(|t| map.map(t)).collect();
    assert!(mapped.windows(2).all(|w| w[0] <= w[1]), "{mapped:?}");
    assert_eq!(TimeMap::new(vec![], 7).map(3), 10);
}

#[test]
fn every_event_has_a_lane_and_every_lane_its_events() {
    let app = two_traces();
    let mut seen = vec![0; app.kernels.len()];
    for lane in &app.lanes {
        for &i in lane.item_indices() {
            if lane.is_annotations() {
                assert_eq!(app.annotations[i].stream, lane.stream_id());
            } else {
                assert_eq!(app.kernels[i].trace_id, lane.trace_id());
                seen[i] += 1;
            }
        }
    }
    assert!(seen.iter().all(|&n| n == 1));
}

#[test]
fn the_median_is_the_middle() {
    assert_eq!(median_of(&[5i64, 1, 9]), 5);
    assert_eq!(median_of(&[4i64, 2, 8, 6]), 5);
    assert_eq!(median_of::<i64>(&[]), 0);
}

#[test]
fn ticks_saturate() {
    assert_eq!(i64::MAX.plus(1), i64::MAX);
    assert_eq!(i64::MIN.minus(1), i64::MIN);
    assert_eq!(i64::MAX.times(-2), i64::MIN);
    assert_eq!((-7i64).over(2), -3);
    assert_eq!(7i64.over(0), 0);
    assert_eq!((-5i64).show(), "-5");
    assert_eq!(5i64.show_places(2), "5.00");
}

#[test]
fn columns_of_ticks() {
    assert_eq!(kernel_columns(0i64, 10, 20, 30, 10), None);
    assert_eq!(kernel_columns(30i64, 40, 20, 30, 10), None);
}

#[test]
fn added_kernels_stay_clear_of_matched_ones() {
    let t0 = Trace { kernels: vec![kd(1, 0, "d", 10), kd(1, 10, "q", 10)], annotations: vec![] };
    let t1 = Trace { kernels: vec![kd(1, 0, "q", 10), kd(1, 10, "q", 10)], annotations: vec![] };
    let app = App::new_multi(vec![("A".into(), t0), ("B".into(), t1)]);
    let anchor = at(&app, 0, "q");
    assert_eq!(app.kernel_diff(at(&app, 0, "d")), Some(KernelDiff::Deleted));
    let other: Vec<usize> = (0..app.kernels.len()).filter(|&i| app.kernels[i].trace_id == 1).collect();
    let added: Vec<usize> =
        other.iter().copied().filter(|&i| app.kernel_diff(i) == Some(KernelDiff::Added)).collect();
    let matched: Vec<usize> =
        other.iter().copied().filter(|&i| app.kernel_diff(i).is_none()).collect();
    assert_eq!((added.len(), matched.len()), (1, 1));
    let (x, q) = (added[0], matched[0]);
    assert_eq!(app.kernel_render_ts(q), app.kernel_render_ts(anchor));
    assert!(
        app.kernel_render_end(x) <= app.kernel_render_ts(q)
            || app.kernel_render_end(q) <= app.kernel_render_ts(x)
    );
    if app.kernels[x].ts > app.kernels[q].ts {
        assert!(app.kernel_render_end(anchor) <= app.kernel_render_ts(x));
    }
}

#[test]
fn streams_with_the_same_names_show_no_difference() {
    let t0 = Trace {
        kernels: vec![kd(1, 0, "a", 10), kd(1, 30, "b", 10), kd(1, 50, "a", 10)],
        annotations: vec![],
    };
    let t1 = Trace {
        kernels: vec![kd(1, 900, "a", 4), kd(1, 910, "b", 4), kd(1, 990, "a", 4)],
        annotations: vec![],
    };
    let app = App::new_multi(vec![("A".into(), t0), ("B".into(), t1)]);
    let starts = |t: usize| -> Vec<i64> {
        let of_trace = (0..app.kernels.len()).filter(|&i| app.kernels[i].trace_id == t);
        of_trace.map(|i| app.kernel_render_ts(i)).collect()
    };
    assert_eq!((starts(0), starts(1)), (vec![0, 30, 50], vec![0, 30, 50]));
    assert!((0..app.kernels.len()).all(|i| app.kernel_diff(i).is_none()));
}
