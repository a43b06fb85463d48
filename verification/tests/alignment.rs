//! Block detection and pairing, time maps, and the diff of name lists.
use pytorch_trace_tui::align::match_blocks::match_blocks;
use pytorch_trace_tui::align::nw::{align_block_pair, normalize_tokens, text_overlap};
use pytorch_trace_tui::align::pipeline::build_alignment;
use pytorch_trace_tui::align::warp::{build_time_maps, map_ts, precompute_display_times};
use pytorch_trace_tui::align::{detect_blocks, AlignmentMode, TimeSegment, TraceTimeMap};
use pytorch_trace_tui::diff::myers_lcs;
use pytorch_trace_tui::scalar::Scalar;
use pytorch_trace_tui::timemap::TimeMap;
use std::ops::Range;

/// Microseconds in double precision.
#[derive(Debug, Clone, Copy, PartialEq, PartialOrd)]
struct Num(f64);

impl Scalar for Num {
    fn plus(self, other: Self) -> Self {
        Num(self.0 + other.0)
    }
    fn minus(self, other: Self) -> Self {
        Num(self.0 - other.0)
    }
    fn times(self, other: Self) -> Self {
        Num(self.0 * other.0)
    }
    fn over(self, other: Self) -> Self {
        Num(self.0 / other.0)
    }
    fn larger(self, other: Self) -> Self {
        Num(self.0.max(other.0))
    }
    fn smaller(self, other: Self) -> Self {
        Num(self.0.min(other.0))
    }
    fn magnitude(self) -> Self {
        Num(self.0.abs())
    }
    fn rounded_down(self) -> Self {
        Num(self.0.floor())
    }
    fn rounded_up(self) -> Self {
        Num(self.0.ceil())
    }
    fn less(self, other: Self) -> bool {
        self.0 < other.0
    }
    fn at_most(self, other: Self) -> bool {
        self.0 <= other.0
    }
    fn same(self, other: Self) -> bool {
        self.0 == other.0
    }
    fn total_less(self, other: Self) -> bool {
        self.0.total_cmp(&other.0).is_lt()
    }
    fn finite(self) -> bool {
        self.0.is_finite()
    }
    fn to_index(self) -> usize {
        self.0 as usize
    }
    fn to_count(self) -> u64 {
        self.0 as u64
    }
    fn whole(n: u64) -> Self {
        Num(n as f64)
    }
    fn ratio(num: i64, den: u64) -> Self {
        Num(num as f64 / den as f64)
    }
    fn infinity() -> Self {
        Num(f64::INFINITY)
    }
    fn neg_infinity() -> Self {
        Num(f64::NEG_INFINITY)
    }
    fn largest() -> Self {
        Num(f64::MAX)
    }
    fn lowest() -> Self {
        Num(f64::MIN)
    }
    fn show(self) -> String {
        format!("{}", self.0)
    }
    fn show_places(self, places: usize) -> String {
        format!("{:.*}", places, self.0)
    }
}

/// A confidence in single precision.
#[derive(Debug, Clone, Copy, PartialEq, PartialOrd)]
struct Conf(f32);

impl Scalar for Conf {
    fn plus(self, other: Self) -> Self {
        Conf(self.0 + other.0)
    }
    fn minus(self, other: Self) -> Self {
        Conf(self.0 - other.0)
    }
    fn times(self, other: Self) -> Self {
        Conf(self.0 * other.0)
    }
    fn over(self, other: Self) -> Self {
        Conf(self.0 / other.0)
    }
    fn larger(self, other: Self) -> Self {
        Conf(self.0.max(other.0))
    }
    fn smaller(self, other: Self) -> Self {
        Conf(self.0.min(other.0))
    }
    fn magnitude(self) -> Self {
        Conf(self.0.abs())
    }
    fn rounded_down(self) -> Self {
        Conf(self.0.floor())
    }
    fn rounded_up(self) -> Self {
        Conf(self.0.ceil())
    }
    fn less(self, other: Self) -> bool {
        self.0 < other.0
    }
    fn at_most(self, other: Self) -> bool {
        self.0 <= other.0
    }
    fn same(self, other: Self) -> bool {
        self.0 == other.0
    }
    fn total_less(self, other: Self) -> bool {
        self.0.total_cmp(&other.0).is_lt()
    }
    fn finite(self) -> bool {
        self.0.is_finite()
    }
    fn to_index(self) -> usize {
        self.0 as usize
    }
    fn to_count(self) -> u64 {
        self.0 as u64
    }
    fn whole(n: u64) -> Self {
        Conf(n as f32)
    }
    fn ratio(num: i64, den: u64) -> Self {
        Conf(num as f32 / den as f32)
    }
    fn infinity() -> Self {
        Conf(f32::INFINITY)
    }
    fn neg_infinity() -> Self {
        Conf(f32::NEG_INFINITY)
    }
    fn largest() -> Self {
        Conf(f32::MAX)
    }
    fn lowest() -> Self {
        Conf(f32::MIN)
    }
    fn show(self) -> String {
        format!("{}", self.0)
    }
    fn show_places(self, places: usize) -> String {
        format!("{:.*}", places, self.0)
    }
}

type KernelEvent = pytorch_trace_tui::trace::KernelEvent<Num>;
type AlignmentState = pytorch_trace_tui::align::AlignmentState<Num, Conf>;
type AlignedBlock = pytorch_trace_tui::align::AlignedBlock<Num, Conf>;
type AlignedTraceBlock = pytorch_trace_tui::align::AlignedTraceBlock<Num, Conf>;

fn kernel(trace_id: usize, ts: f64, dur: f64, name: &str) -> KernelEvent {
    KernelEvent {
        name: name.to_string(),
        cat: "kernel".to_string(),
        ts: Num(ts),
        dur: Num(dur),
        device: 0,
        stream: 1,
        grid: None,
        block: None,
        shared_memory: None,
        registers_per_thread: None,
        correlation: None,
        trace_id,
    }
}

fn tk(name: &str) -> KernelEvent {
    kernel(0, 0.0, 1.0, name)
}

#[test]
fn align_test_alignment_state_constructs_offset_only() {
    let s = AlignmentState::offset_only(1, 3);
    assert!(matches!(s.mode, AlignmentMode::OffsetOnly));
    assert_eq!(s.reference_trace_id, 1);
    assert!(s.blocks.is_empty());
    assert_eq!(s.display_kernel_times.len(), 3);
}

#[test]
fn mod_test_alignment_state_constructs_offset_only() {
    let s = AlignmentState::offset_only(1, 3);
    assert!(matches!(s.mode, AlignmentMode::OffsetOnly));
    assert_eq!(s.reference_trace_id, 1);
    assert!(s.blocks.is_empty());
    assert_eq!(s.display_kernel_times.len(), 3);
}

fn blk(s: f64, e: f64, r: Range<usize>) -> (Num, Num, Range<usize>) {
    (Num(s), Num(e), r)
}

#[test]
fn test_match_blocks_equal_count_pairs_by_index() {
    let r = vec![blk(0.0, 30.0, 0..3), blk(40.0, 70.0, 3..6)];
    let o = vec![blk(0.0, 30.0, 0..3), blk(40.0, 70.0, 3..6)];
    let pairs = match_blocks::<Num, Conf>(&r, &o, &[], &[]);
    assert_eq!(pairs, vec![(0, 0), (1, 1)]);
}

#[test]
fn test_match_blocks_unequal_picks_best() {
    let ref_ks: Vec<KernelEvent> = ["gemm", "relu", "gemm", "relu"].iter().map(|n| tk(n)).collect();
    let oth_ks: Vec<KernelEvent> = ["gemm", "relu"].iter().map(|n| tk(n)).collect();
    let r = vec![blk(0.0, 20.0, 0..2), blk(20.0, 40.0, 2..4)];
    let o = vec![blk(0.0, 20.0, 0..2)];
    let pairs = match_blocks::<Num, Conf>(&r, &o, &ref_ks, &oth_ks);
    assert_eq!(pairs.len(), 1);
    assert_eq!(pairs[0].1, 0);
}

// [A,B,C] repeated 3 times without gaps gives 3 blocks each of size 3.
#[test]
fn test_detect_blocks_repeated_subsequence() {
    let ks: Vec<KernelEvent> = ["A", "B", "C", "A", "B", "C", "A", "B", "C"]
        .iter()
        .enumerate()
        .map(|(i, n)| kernel(0, i as f64 * 10.0, 5.0, n))
        .collect();
    let blocks = detect_blocks(&ks, 0);
    assert_eq!(blocks.len(), 3, "period 3 gives 3 blocks");
    assert_eq!(blocks[0].2.len(), 3);
    assert_eq!(blocks[1].2.len(), 3);
    assert_eq!(blocks[2].2.len(), 3);
}

// Three clusters separated by large idle gaps give 3 blocks.
#[test]
fn test_detect_blocks_idle_gap() {
    let mut ks = Vec::new();
    for i in 0..3usize {
        let base = i as f64 * 1000.0;
        ks.push(kernel(0, base, 5.0, "gemm"));
        ks.push(kernel(0, base + 10.0, 5.0, "relu"));
    }
    let blocks = detect_blocks(&ks, 0);
    assert_eq!(blocks.len(), 3);
}

// [gemm, relu] should match [fused_gemm_relu] with high confidence.
#[test]
fn test_align_block_pair_fusion_s2() {
    let r = vec![tk("gemm"), tk("relu")];
    let o = vec![tk("fused_gemm_relu")];
    let conf = align_block_pair::<Num, Conf>(&r, &o).0;
    assert!(conf > 0.5, "fusion match confidence={conf}");
}

// [gemm, bn, relu] vs [gemm, relu]: bn aligns to gap, rest match.
#[test]
fn test_align_block_pair_missing_kernel_s3() {
    let r = vec![tk("gemm"), tk("bn"), tk("relu")];
    let o = vec![tk("gemm"), tk("relu")];
    let conf = align_block_pair::<Num, Conf>(&r, &o).0;
    assert!(conf > 0.5, "missing-kernel match confidence={conf}");
}

#[test]
fn test_align_block_pair_identical() {
    let r = vec![tk("gemm"), tk("relu")];
    let o = vec![tk("gemm"), tk("relu")];
    let conf = align_block_pair::<Num, Conf>(&r, &o).0;
    assert!(conf > 0.8, "identical blocks confidence={conf}");
}

// No multi-block structure (single block per trace) gives OffsetOnly.
#[test]
fn test_build_alignment_no_blocks_falls_back_offset_only() {
    let all: Vec<KernelEvent> = ["A", "B", "C", "D"]
        .iter()
        .enumerate()
        .map(|(i, n)| kernel(0, i as f64 * 10.0, 5.0, n))
        .chain(
            ["E", "F", "G", "H"]
                .iter()
                .enumerate()
                .map(|(i, n)| kernel(1, i as f64 * 10.0, 5.0, n)),
        )
        .collect();
    let st: AlignmentState = build_alignment(&all, &[], 2);
    assert!(matches!(st.mode, AlignmentMode::OffsetOnly));
}

// A single trace gives OffsetOnly.
#[test]
fn test_build_alignment_single_trace_offset_only() {
    let ks: Vec<KernelEvent> = ["A", "B"]
        .iter()
        .enumerate()
        .map(|(i, n)| kernel(0, i as f64 * 10.0, 5.0, n))
        .collect();
    let st: AlignmentState = build_alignment(&ks, &[], 1);
    assert!(matches!(st.mode, AlignmentMode::OffsetOnly));
}

// 2 traces with 3 gap-separated [gemm,relu] blocks each give PiecewiseWarp.
#[test]
fn test_build_alignment_happy_sets_piecewise() {
    let mut ks = Vec::new();
    for b in 0..3usize {
        let b0 = b as f64 * 1000.0;
        let b1 = b as f64 * 900.0;
        ks.push(kernel(0, b0, 8.0, "gemm"));
        ks.push(kernel(0, b0 + 10.0, 4.0, "relu"));
        ks.push(kernel(1, b1, 8.0, "gemm"));
        ks.push(kernel(1, b1 + 10.0, 4.0, "relu"));
    }
    let st: AlignmentState = build_alignment(&ks, &[], 2);
    assert!(matches!(st.mode, AlignmentMode::PiecewiseWarp));
    assert!(!st.blocks.is_empty());
}

fn tb(rs: f64, re: f64) -> AlignedTraceBlock {
    AlignedTraceBlock {
        raw_start: Num(rs),
        raw_end: Num(re),
        kernel_indices: 0..1,
        confidence: Conf(1.0),
    }
}

fn mk_block(id: usize, ds: f64, de: f64, per: Vec<Option<AlignedTraceBlock>>) -> AlignedBlock {
    AlignedBlock { id, display_start: Num(ds), display_end: Num(de), per_trace: per }
}

#[test]
fn test_build_time_maps_creates_sorted_segments() {
    let blocks = vec![
        mk_block(0, 0.0, 100.0, vec![Some(tb(0.0, 30.0)), Some(tb(0.0, 30.0))]),
        mk_block(1, 100.0, 200.0, vec![Some(tb(40.0, 70.0)), Some(tb(40.0, 70.0))]),
    ];
    let maps = build_time_maps(&blocks, 2);
    assert_eq!(maps.len(), 2);
    assert!(maps[0].segments.windows(2).all(|w| w[0].raw_start <= w[1].raw_start));
    assert_eq!(maps[0].segments[0].display_start, Num(0.0));
}

#[test]
fn test_build_time_maps_identity_for_unmatched() {
    let blocks = vec![mk_block(0, 0.0, 100.0, vec![Some(tb(0.0, 30.0)), None])];
    let maps = build_time_maps(&blocks, 2);
    assert_eq!(maps[1].segments.len(), 0, "no segments for unmatched trace");
}

fn segment() -> TimeSegment<Num> {
    TimeSegment {
        trace_id: 0,
        block_id: 0,
        raw_start: Num(0.0),
        raw_end: Num(10.0),
        display_start: Num(100.0),
        display_end: Num(120.0),
    }
}

#[test]
fn test_map_ts_linear_interpolation() {
    // seg raw[0,10] -> disp[100,120]; ts=5 -> 110
    let map = TraceTimeMap { trace_id: 0, segments: vec![segment()] };
    let maps = vec![map];
    let ds = map_ts(&maps, 0, Num(5.0)).0;
    assert!((ds - 110.0).abs() < 1e-6, "expected 110.0 got {ds}");
}

#[test]
fn test_precompute_display_times_interpolates() {
    let maps = vec![TraceTimeMap { trace_id: 0, segments: vec![segment()] }];
    let ks = vec![kernel(0, 5.0, 2.0, "x")];
    let (kd, _, _, _) = precompute_display_times(&ks, &[], &maps);
    assert!((kd[0][0].display_start.0 - 110.0).abs() < 1e-6);
    assert!((kd[0][0].display_end.0 - 114.0).abs() < 1e-6);
}

#[test]
fn myers_empty_both() {
    assert!(myers_lcs(&[], &[]).is_empty());
}

#[test]
fn myers_all_match() {
    let r = myers_lcs(&["a", "b"], &["a", "b"]);
    assert_eq!(r, vec![(Some(0), Some(0)), (Some(1), Some(1))]);
}

#[test]
fn myers_no_common() {
    let r = myers_lcs(&["a"], &["b"]);
    assert_eq!(r.len(), 2, "{r:?}");
    assert!(r.iter().any(|p| p == &(Some(0), None)), "a removed: {r:?}");
    assert!(r.iter().any(|p| p == &(None, Some(0))), "b added: {r:?}");
}

// gemm+bn+relu vs gemm+relu: bn removed, rest matched.
#[test]
fn myers_mixed_remove() {
    let r = myers_lcs(&["gemm", "bn", "relu"], &["gemm", "relu"]);
    assert_eq!(r.len(), 3, "{r:?}");
    assert!(r.iter().any(|p| p == &(Some(0), Some(0))), "gemm matched: {r:?}");
    assert!(r.iter().any(|p| p == &(Some(1), None)), "bn removed: {r:?}");
    assert!(r.iter().any(|p| p == &(Some(2), Some(1))), "relu matched: {r:?}");
}

#[test]
fn myers_diff_len_right_longer() {
    let r = myers_lcs(&["a"], &["a", "b"]);
    assert!(r.iter().any(|p| p == &(Some(0), Some(0))), "a matched: {r:?}");
    assert!(r.iter().any(|p| p == &(None, Some(1))), "b added: {r:?}");
}

#[test]
fn myers_empty_left() {
    assert_eq!(myers_lcs(&[], &["x", "y"]), vec![(None, Some(0)), (None, Some(1))]);
}

#[test]
fn myers_empty_right() {
    assert_eq!(myers_lcs(&["x", "y"], &[]), vec![(Some(0), None), (Some(1), None)]);
}

#[test]
fn a_diff_reaches_every_position_once_and_in_order() {
    let left = ["a", "b", "c", "a", "b", "b", "a"];
    let right = ["c", "b", "a", "b", "a", "c"];
    let r = myers_lcs(&left, &right);
    let lefts: Vec<usize> = r.iter().filter_map(|p| p.0).collect();
    let rights: Vec<usize> = r.iter().filter_map(|p| p.1).collect();
    assert_eq!(lefts, (0..left.len()).collect::<Vec<_>>());
    assert_eq!(rights, (0..right.len()).collect::<Vec<_>>());
    for p in &r {
        if let (Some(i), Some(j)) = p {
            assert_eq!(left[*i], right[*j]);
        }
    }
}

#[test]
fn tokens_are_lower_case_runs_of_letters_and_digits() {
    assert_eq!(normalize_tokens("Ampere_SGEMM::128x64<Float>"), vec!["ampere", "sgemm", "128x64", "float"]);
    assert!(normalize_tokens("__::__").is_empty());
}

#[test]
fn overlap_is_the_share_of_common_tokens() {
    let a = normalize_tokens("fused_gemm_relu");
    let b = normalize_tokens("gemm_relu");
    assert_eq!(text_overlap::<Conf>(&a, &b), Conf(2.0 / 3.0));
    assert_eq!(text_overlap::<Conf>(&a, &a), Conf(1.0));
    assert_eq!(text_overlap::<Conf>(&a, &normalize_tokens("memcpy")), Conf(0.0));
    assert_eq!(text_overlap::<Conf>(&vec![], &vec![]), Conf(1.0));
}

#[test]
fn confidence_of_empty_blocks() {
    assert_eq!(align_block_pair::<Num, Conf>(&[], &[]), Conf(1.0));
    assert_eq!(align_block_pair::<Num, Conf>(&[tk("a")], &[]), Conf(0.0));
}

#[test]
fn timestamps_outside_every_segment_are_carried_along() {
    let maps = vec![TraceTimeMap { trace_id: 0, segments: vec![segment()] }];
    assert_eq!(map_ts(&maps, 3, Num(7.0)), Num(7.0));
    assert_eq!(map_ts::<Num>(&[], 0, Num(7.0)), Num(7.0));
}

#[test]
fn paired_blocks_are_drawn_where_the_first_trace_has_them() {
    let mut ks = Vec::new();
    for b in 0..3usize {
        let b0 = b as f64 * 1000.0;
        let b1 = b as f64 * 900.0;
        ks.push(kernel(0, b0, 8.0, "gemm"));
        ks.push(kernel(0, b0 + 10.0, 4.0, "relu"));
        ks.push(kernel(1, b1, 8.0, "gemm"));
        ks.push(kernel(1, b1 + 10.0, 4.0, "relu"));
    }
    let st: AlignmentState = build_alignment(&ks, &[], 2);
    assert_eq!(st.blocks.len(), 3);
    for (i, k) in ks.iter().enumerate() {
        let shown = &st.display_kernel_times[k.trace_id][st.kernel_local_idx[i]];
        let twin = if k.trace_id == 1 { i - 2 } else { i };
        assert_eq!(shown.display_start, ks[twin].ts);
    }
}

#[test]
fn gaps_shorter_than_one_still_part_blocks() {
    let ks = vec![
        kernel(0, 0.0, 1.0, "A"),
        kernel(0, 1.0, 1.0, "B"),
        kernel(0, 2.5, 1.0, "C"),
        kernel(0, 3.5, 1.0, "D"),
    ];
    assert_eq!(detect_blocks(&ks, 0), vec![blk(0.0, 2.0, 0..2), blk(2.5, 4.5, 2..4)]);
}

#[test]
fn repeated_names_count_as_often_as_both_blocks_have_them() {
    let ref_ks: Vec<KernelEvent> = ["a", "a", "a", "b"].iter().map(|n| tk(n)).collect();
    let oth_ks: Vec<KernelEvent> = ["a", "b"].iter().map(|n| tk(n)).collect();
    let r = vec![blk(0.0, 20.0, 0..2), blk(20.0, 40.0, 2..4)];
    let o = vec![blk(0.0, 20.0, 0..2)];
    assert_eq!(match_blocks::<Num, Conf>(&r, &o, &ref_ks, &oth_ks), vec![(1, 0)]);
}

#[test]
fn time_maps_are_linear_between_their_points() {
    let map = TimeMap::new(
        vec![(Num(20.0), Num(30.0)), (Num(0.0), Num(0.0)), (Num(10.0), Num(30.0))],
        Num(7.0),
    );
    for (raw, render) in [
        (-5.0, -5.0),
        (0.0, 0.0),
        (2.5, 7.5),
        (5.0, 15.0),
        (10.0, 30.0),
        (15.0, 30.0),
        (20.0, 30.0),
        (24.0, 34.0),
    ] {
        assert_eq!(map.map(Num(raw)), Num(render), "{raw}");
    }
}

fn longest_common_len(left: &[&str], right: &[&str]) -> usize {
    let mut row = vec![0usize; right.len() + 1];
    for l in left {
        let mut diagonal = 0;
        for (j, r) in right.iter().enumerate() {
            let above = row[j + 1];
            row[j + 1] = if l == r { diagonal + 1 } else { above.max(row[j]) };
            diagonal = above;
        }
    }
    row[right.len()]
}

fn matched_len(left: &[&str], right: &[&str]) -> usize {
    myers_lcs(left, right).iter().filter(|p| p.0.is_some() && p.1.is_some()).count()
}

#[test]
fn a_diff_matches_a_longest_common_subsequence() {
    let names = ["a", "b", "c"];
    let mut lists: Vec<Vec<&str>> = vec![vec![]];
    let mut from = 0;
    for _ in 0..4 {
        let to = lists.len();
        for i in from..to {
            for name in names {
                let mut longer = lists[i].clone();
                longer.push(name);
                lists.push(longer);
            }
        }
        from = to;
    }
    for left in &lists {
        for right in &lists {
            assert_eq!(matched_len(left, right), longest_common_len(left, right), "{left:?} {right:?}");
        }
    }
    // Longer lists, drawn by a fixed rule.
    let mut state: u64 = 7;
    let mut next = |n: u64| {
        state = state.wrapping_mul(6364136223846793005).wrapping_add(1442695040888963407);
        (state >> 33) % n
    };
    for _ in 0..300 {
        let mut draw = || -> Vec<&str> {
            let len = next(60);
            (0..len).map(|_| ["a", "b", "c", "d", "e"][next(5) as usize]).collect()
        };
        let left = draw();
        let right = draw();
        assert_eq!(matched_len(&left, &right), longest_common_len(&left, &right), "{left:?} {right:?}");
    }
}

#[test]
fn equal_lists_are_matched_item_by_item() {
    let names = ["a", "b", "a", "a", "c"];
    let pairs: Vec<(Option<usize>, Option<usize>)> = (0..5).map(|i| (Some(i), Some(i))).collect();
    assert_eq!(myers_lcs(&names, &names), pairs);
}
