//! Choosing trace files.
use pytorch_trace_tui::picker::{
    chosen_paths, format_mtime, human_size, list_name, newest_first, parse_selection, picker_prompt,
    picker_row, trace_label, SelectionError, TraceFile,
};
use pytorch_trace_tui::scalar::Scalar;

/// Microseconds in double precision.
#[derive(Debug, Clone, Copy, PartialEq, PartialOrd)]
struct Num(f64);

impl Scalar for Num {
    fn plus(self, other: Self) -> Self {
        Num(self.0 + other.0)
    }
    fn minus(self, other: Self) -> Self {
        Num(self.0 - other.0)
    }
    fn times(self, other: Self) -> Self {
        Num(self.0 * other.0)
    }
    fn over(self, other: Self) -> Self {
        Num(self.0 / other.0)
    }
    fn larger(self, other: Self) -> Self {
        Num(self.0.max(other.0))
    }
    fn smaller(self, other: Self) -> Self {
        Num(self.0.min(other.0))
    }
    fn magnitude(self) -> Self {
        Num(self.0.abs())
    }
    fn rounded_down(self) -> Self {
        Num(self.0.floor())
    }
    fn rounded_up(self) -> Self {
        Num(self.0.ceil())
    }
    fn less(self, other: Self) -> bool {
        self.0 < other.0
    }
    fn at_most(self, other: Self) -> bool {
        self.0 <= other.0
    }
    fn same(self, other: Self) -> bool {
        self.0 == other.0
    }
    fn total_less(self, other: Self) -> bool {
        self.0.total_cmp(&other.0).is_lt()
    }
    fn finite(self) -> bool {
        self.0.is_finite()
    }
    fn to_index(self) -> usize {
        self.0 as usize
    }
    fn to_count(self) -> u64 {
        self.0 as u64
    }
    fn whole(n: u64) -> Self {
        Num(n as f64)
    }
    fn ratio(num: i64, den: u64) -> Self {
        Num(num as f64 / den as f64)
    }
    fn infinity() -> Self {
        Num(f64::INFINITY)
    }
    fn neg_infinity() -> Self {
        Num(f64::NEG_INFINITY)
    }
    fn largest() -> Self {
        Num(f64::MAX)
    }
    fn lowest() -> Self {
        Num(f64::MIN)
    }
    fn show(self) -> String {
        format!("{}", self.0)
    }
    fn show_places(self, places: usize) -> String {
        format!("{:.*}", places, self.0)
    }
}

fn file(path: &str, mtime_secs: u64, size: u64) -> TraceFile {
    TraceFile { path: path.to_string(), mtime_secs, mtime_nanos: 0, size }
}

#[test]
fn picker_lists_nested_runs_with_distinct_labels() {
    let files = vec![
        file("logs/run_a/traces/x_rank0.pt.trace.json.gz", 0, 1),
        file("logs/run_b/traces/x_rank0.pt.trace.json.gz", 0, 1),
    ];
    let shown: Vec<String> =
        files.iter().enumerate().map(|(i, f)| picker_row::<Num>(i + 1, f)).collect();
    assert!(shown[0].contains("run_a/rank0"), "{shown:?}");
    assert!(shown[1].contains("run_b/rank0"), "{shown:?}");
}

#[test]
fn files_in_the_directory_itself_keep_their_names() {
    assert_eq!(list_name("./x.pt.trace.json.gz"), "x.pt.trace.json.gz");
    assert_eq!(list_name("x.pt.trace.json.gz"), "x.pt.trace.json.gz");
}

#[test]
fn labels_are_bare_file_names() {
    assert_eq!(trace_label("/data/run/base.pt.trace.json.gz", 0), "base");
    assert_eq!(trace_label("tuned.json", 3), "tuned");
    assert_eq!(trace_label("plain", 0), "plain");
    assert_eq!(trace_label("", 0), "trace");
}

#[test]
fn times_are_calendar_dates() {
    assert_eq!(format_mtime(0), "1970-01-01 00:00:00");
    assert_eq!(format_mtime(951_782_400), "2000-02-29 00:00:00");
    assert_eq!(format_mtime(951_868_799), "2000-02-29 23:59:59");
    assert_eq!(format_mtime(1_700_000_000), "2023-11-14 22:13:20");
    assert_eq!(format_mtime(4_107_542_400), "2100-03-01 00:00:00");
}

#[test]
fn sizes_take_the_largest_fitting_unit() {
    assert_eq!(human_size::<Num>(0), "0.0 B");
    assert_eq!(human_size::<Num>(1023), "1023.0 B");
    assert_eq!(human_size::<Num>(1024), "1.0 KB");
    assert_eq!(human_size::<Num>(1536 * 1024), "1.5 MB");
    assert_eq!(human_size::<Num>(3 << 40), "3.0 TB");
    assert_eq!(human_size::<Num>(2048 << 40), "2048.0 TB");
}

#[test]
fn the_newest_file_comes_first() {
    let mut late = file("c", 9, 1);
    late.mtime_nanos = 5;
    let files = newest_first(vec![file("a", 3, 1), file("b", 9, 1), late, file("d", 3, 1)]);
    let order: Vec<&str> = files.iter().map(|f| f.path.as_str()).collect();
    assert_eq!(order, vec!["c", "b", "a", "d"]);
}

#[test]
fn a_row_has_number_time_size_and_name() {
    assert_eq!(
        picker_row::<Num>(3, &file("./a.pt.trace.json.gz", 0, 2048)),
        "  [3] 1970-01-01 00:00:00  2.0 KB  a.pt.trace.json.gz"
    );
    assert_eq!(
        picker_prompt(4),
        "Enter number(s) (e.g. 1 or '1 3' to overlay, 1-4, or q to quit): "
    );
}

#[test]
fn chosen_numbers_become_paths() {
    let files = vec![file("a", 3, 1), file("b", 2, 1), file("c", 1, 1)];
    let chosen = parse_selection("3, 1 3", files.len()).unwrap().unwrap();
    assert_eq!(chosen_paths(&files, &chosen), vec!["c", "a", "c"]);
}

#[test]
fn refused_lines_say_why() {
    match parse_selection("1 x9", 5) {
        Err(SelectionError::Invalid(tok)) => assert_eq!(tok, "x9"),
        other => panic!("{other:?}"),
    }
    match parse_selection("2 7", 5) {
        Err(e) => assert_eq!(e.message(), "Selection out of range: 7"),
        other => panic!("{other:?}"),
    }
    assert_eq!(parse_selection("abc", 5).unwrap_err().message(), "Invalid selection: abc");
    assert_eq!(parse_selection("1\u{0}\n", 5).unwrap(), None::<Vec<usize>>.or(Some(vec![1])));
}
