//! The kernels from the selected one up to the next of the same name, with the
//! typical cost of each across all repetitions of that block.
use vstd::prelude::*;
use vstd::string::StringExecFns;
use crate::app::{App, Sequence};
use crate::scalar::Scalar;
use crate::sort::{self, sort_order, Totally};
use crate::text::{self, owned, push_decimal};
use crate::trace::KernelEvent;

verus! {

/// The finite ones among some numbers, in their order.
pub open spec fn finite_among<T: Scalar>(numbers: Seq<T>) -> Seq<T>
    decreases numbers.len(),
{
    if numbers.len() == 0 {
        Seq::empty()
    } else if numbers.last().finite_spec() {
        finite_among(numbers.drop_last()).push(numbers.last())
    } else {
        finite_among(numbers.drop_last())
    }
}

/// Numbers in their total order.
pub open spec fn in_total_order<T: Scalar>(numbers: Seq<T>) -> Seq<T> {
    sort::picked(numbers, sort::sorted_order(numbers.map_values(|x: T| Totally(x))))
}

/// The median of the finite ones among some numbers: the middle one, or the mean
/// of the two middle ones; zero where there is none.
pub open spec fn median<T: Scalar>(numbers: Seq<T>) -> T {
    let sorted = in_total_order(finite_among(numbers));
    let n = sorted.len() as int;
    if n == 0 {
        T::whole_spec(0)
    } else if n % 2 == 1 {
        sorted[n / 2]
    } else {
        sorted[n / 2 - 1].plus_spec(sorted[n / 2]).over_spec(T::whole_spec(2))
    }
}

/// Median of the durations. Even counts average the two middle values; only
/// finite values are considered, and they are ordered by the total order.
pub fn median_of<T: Scalar>(durs: &[T]) -> (r: T)
    ensures
        r == median(durs@),
{
    let mut finite: Vec<T> = Vec::new();
    let mut keys: Vec<Totally<T>> = Vec::new();
    let mut i: usize = 0;
    while i < durs.len()
        invariant
            i <= durs@.len(),
            finite@ == finite_among(durs@.take(i as int)),
            keys@ == finite@.map_values(|x: T| Totally(x)),
        decreases durs@.len() - i,
    {
        assert(durs@.take(i + 1).drop_last() == durs@.take(i as int));
        let d = durs[i];
        if d.finite() {
            let ghost before = finite@;
            finite.push(d);
            keys.push(Totally(d));
            assert(before.push(d).map_values(|x: T| Totally(x)) == before.map_values(
                |x: T| Totally(x),
            ).push(Totally(d)));
        }
        i += 1;
    }
    assert(durs@.take(durs@.len() as int) == durs@);
    let n: usize = finite.len();
    if n == 0 {
        return T::whole(0);
    }
    let order = sort_order(&keys);
    let ghost sorted = in_total_order(finite@);
    assert forall|p: int| 0 <= p < n implies #[trigger] sorted[p] == finite@[order@[p] as int] by {}
    if n % 2 == 1 {
        finite[order[n / 2]]
    } else {
        finite[order[n / 2 - 1]].plus(finite[order[n / 2]]).over(T::whole(2))
    }
}

/// Rows as plain values.
pub open spec fn row_views<T>(rows: Seq<(usize, String, T)>) -> Seq<(int, Seq<char>, T)> {
    rows.map_values(|r: (usize, String, T)| (r.0 as int, r.1@, r.2))
}

/// Named numbers as plain values.
pub open spec fn median_views<T>(medians: Seq<(String, T)>) -> Seq<(Seq<char>, T)> {
    medians.map_values(|m: (String, T)| (m.0@, m.1))
}

/// The kernel at position `pos` of a lane, if there is one.
pub open spec fn kernel_at<T>(
    kernels: Seq<KernelEvent<T>>,
    items: Seq<usize>,
    pos: int,
) -> Option<KernelEvent<T>> {
    if 0 <= pos < items.len() && items[pos] < kernels.len() {
        Some(kernels[items[pos] as int])
    } else {
        None
    }
}

/// Whether the kernel at a position bears a name.
pub open spec fn named_at<T>(
    kernels: Seq<KernelEvent<T>>,
    items: Seq<usize>,
    pos: int,
    name: Seq<char>,
) -> bool {
    match kernel_at(kernels, items, pos) {
        Some(k) => k.name@ == name,
        None => false,
    }
}

/// The first position from `pos` on whose kernel bears a name; the end of the
/// lane where there is none.
pub open spec fn next_named<T>(
    kernels: Seq<KernelEvent<T>>,
    items: Seq<usize>,
    pos: int,
    name: Seq<char>,
) -> int
    decreases items.len() - pos,
{
    if pos >= items.len() {
        items.len() as int
    } else if named_at(kernels, items, pos, name) {
        pos
    } else {
        next_named(kernels, items, pos + 1, name)
    }
}

/// The rows of the kernels at `start..end` of a lane, numbered from one.
pub open spec fn block_rows<T>(
    kernels: Seq<KernelEvent<T>>,
    items: Seq<usize>,
    start: int,
    end: int,
) -> Seq<(int, Seq<char>, T)>
    decreases end - start,
{
    if end <= start {
        Seq::empty()
    } else {
        let before = block_rows(kernels, items, start, end - 1);
        match kernel_at(kernels, items, end - 1) {
            Some(k) => before.push((end - start, k.name@, k.dur)),
            None => before,
        }
    }
}

/// Whether the names of a block stand in a lane from `start` on.
pub open spec fn block_at<T>(
    kernels: Seq<KernelEvent<T>>,
    items: Seq<usize>,
    start: int,
    pattern: Seq<Seq<char>>,
) -> bool {
    &&& start + pattern.len() <= items.len()
    &&& forall|off: int|
        0 <= off < pattern.len() ==> #[trigger] named_at(
            kernels,
            items,
            start + off,
            pattern[off],
        )
}

/// Where a block of names stands in a lane, from `start` on: repetitions follow
/// each other without overlap, kernels in between are passed over.
pub open spec fn repetitions<T>(
    kernels: Seq<KernelEvent<T>>,
    items: Seq<usize>,
    start: int,
    pattern: Seq<Seq<char>>,
) -> Seq<int>
    decreases items.len() - start,
{
    if pattern.len() == 0 || start + pattern.len() > items.len() {
        Seq::empty()
    } else if block_at(kernels, items, start, pattern) {
        seq![start] + repetitions(kernels, items, start + pattern.len(), pattern)
    } else {
        repetitions(kernels, items, start + 1, pattern)
    }
}

/// The durations of the kernels at offset `off` of each repetition.
pub open spec fn durations_at<T>(
    kernels: Seq<KernelEvent<T>>,
    items: Seq<usize>,
    reps: Seq<int>,
    off: int,
) -> Seq<T> {
    reps.map_values(|s: int| kernels[items[s + off] as int].dur)
}

/// The names of some rows.
pub open spec fn row_names<T>(rows: Seq<(int, Seq<char>, T)>) -> Seq<Seq<char>> {
    rows.map_values(|r: (int, Seq<char>, T)| r.1)
}

/// The median duration at each offset of a block, across its repetitions.
pub open spec fn block_medians<T: Scalar>(
    kernels: Seq<KernelEvent<T>>,
    items: Seq<usize>,
    reps: Seq<int>,
    pattern: Seq<Seq<char>>,
) -> Seq<(Seq<char>, T)> {
    Seq::new(
        pattern.len(),
        |off: int| (pattern[off], median(durations_at(kernels, items, reps, off))),
    )
}

/// The medians of a sequence as plain values.
pub open spec fn opt_median_views<T>(m: Option<Vec<(String, T)>>) -> Option<Seq<(Seq<char>, T)>> {
    match m {
        Some(v) => Some(median_views(v@)),
        None => None,
    }
}

impl<T: Scalar> App<T> {
    /// The items of lane `lane_idx` where it is a kernel lane.
    pub open spec fn kernel_lane_items(&self, lane_idx: usize) -> Option<Seq<usize>> {
        if lane_idx < self.lanes@.len() && !self.lanes@[lane_idx as int]@.annotations {
            Some(self.lanes@[lane_idx as int]@.items)
        } else {
            None
        }
    }

    /// Whether `after` is `before` with its medians computed across every
    /// repetition of its block in its lane. Nothing changes where the block is
    /// empty or its lane is no kernel lane.
    pub open spec fn extended(&self, before: Sequence<T>, after: Sequence<T>) -> bool {
        let rows = row_views(before.rows@);
        match self.kernel_lane_items(before.source_lane) {
            Some(items) if rows.len() > 0 => {
                let pattern = row_names(rows);
                let reps = repetitions(
                    self.kernels@,
                    items,
                    before.source_start as int,
                    pattern,
                );
                &&& after == (Sequence {
                    median: after.median,
                    reps_found: reps.len() as usize,
                    ..before
                })
                &&& opt_median_views(after.median) == Some(
                    block_medians(self.kernels@, items, reps, pattern),
                )
            },
            _ => after == before,
        }
    }

    /// Whether a sequence can start at the selection: it is a kernel.
    pub open spec fn can_start_sequence(&self) -> bool {
        match self.kernel_lane_items(self.active_lane) {
            Some(items) => kernel_at(self.kernels@, items, self.selected_item as int) is Some,
            None => false,
        }
    }

    /// Whether `seq` is the sequence that starts at the selected kernel.
    pub open spec fn starts(&self, seq: Sequence<T>) -> bool {
        let items = self.kernel_lane_items(self.active_lane)->0;
        let start = self.selected_item as int;
        let name = kernel_at(self.kernels@, items, start)->0.name@;
        let end = next_named(self.kernels@, items, start + 1, name);
        exists|bare: Sequence<T>|
            {
                &&& row_views(bare.rows@) == block_rows(self.kernels@, items, start, end)
                &&& bare.median is None
                &&& bare.reps_found == 1
                &&& bare.source_lane == self.active_lane
                &&& bare.source_start == start
                &&& bare.scroll == 0
                &&& #[trigger] self.extended(bare, seq)
            }
    }

    /// Captures the sequence of kernels from the selected one up to (but not
    /// including) the next kernel with the same name, with the per-position
    /// median durations. Returns whether a kernel was selected.
    pub fn start_sequence(&mut self) -> (r: bool)
        ensures
            r == old(self).can_start_sequence(),
            !r ==> *final(self) == *old(self),
            r ==> {
                &&& *final(self) == (App {
                    sequence: final(self).sequence,
                    sequence_status: None,
                    ..*old(self)
                })
                &&& final(self).sequence is Some
                &&& old(self).starts(final(self).sequence->0)
            },
    {
        let lane_idx: usize = self.active_lane;
        if lane_idx >= self.lanes.len() || self.lanes[lane_idx].is_annotations() {
            return false;
        }
        let items = self.lanes[lane_idx].item_indices();
        let n: usize = items.len();
        let start: usize = self.selected_item;
        if start >= n || items[start] >= self.kernels.len() {
            return false;
        }
        let name: &String = &self.kernels[items[start]].name;
        let mut end: usize = start + 1;
        while end < n && !(items[end] < self.kernels.len() && self.kernels[items[end]].name == *name)
            invariant
                start < end <= n == items@.len(),
                next_named(self.kernels@, items@, start + 1, name@) == next_named(
                    self.kernels@,
                    items@,
                    end as int,
                    name@,
                ),
            decreases n - end,
        {
            end += 1;
        }
        let mut rows: Vec<(usize, String, T)> = Vec::new();
        let mut pos: usize = start;
        assert(row_views(rows@) == block_rows(self.kernels@, items@, start as int, start as int));
        while pos < end
            invariant
                start <= pos <= end <= n == items@.len(),
                row_views(rows@) == block_rows(self.kernels@, items@, start as int, pos as int),
            decreases end - pos,
        {
            if items[pos] < self.kernels.len() {
                let k = &self.kernels[items[pos]];
                let ghost before = rows@;
                rows.push((pos - start + 1, k.name.clone(), k.dur));
                assert(row_views(rows@) == row_views(before).push(
                    (pos - start + 1, k.name@, k.dur),
                ));
            }
            pos += 1;
        }
        let ghost start_state = *self;
        let bare = Sequence {
            rows,
            median: None,
            reps_found: 1,
            source_lane: lane_idx,
            source_start: start,
            scroll: 0,
        };
        self.sequence = Some(bare);
        self.sequence_status = None;
        self.extend_sequence_median();
        proof {
            assert(start_state.extended(bare, self.sequence->0));
        }
        true
    }

    /// Closes the sequence popup.
    pub fn close_sequence(&mut self)
        ensures
            *final(self) == (App { sequence: None, sequence_status: None, ..*old(self) }),
    {
        self.sequence = None;
        self.sequence_status = None;
    }

    /// Scrolls the sequence popup up; stops at the first row.
    pub fn sequence_scroll_up(&mut self, amount: usize)
        ensures
            *final(self) == (App {
                sequence: match old(self).sequence {
                    Some(seq) => Some(
                        Sequence {
                            scroll: if seq.scroll > amount {
                                (seq.scroll - amount) as usize
                            } else {
                                0
                            },
                            ..seq
                        },
                    ),
                    None => None,
                },
                ..*old(self)
            }),
    {
        if let Some(seq) = &mut self.sequence {
            seq.scroll =
            if seq.scroll > amount {
                seq.scroll - amount
            } else {
                0
            };
        }
    }

    /// Scrolls the sequence popup down; stops where the last row stands at the
    /// end of a viewport of `viewport` rows.
    pub fn sequence_scroll_down(&mut self, amount: usize, viewport: usize)
        ensures
            *final(self) == (App {
                sequence: match old(self).sequence {
                    Some(seq) => Some(
                        Sequence { scroll: scrolled_down(seq, amount, viewport), ..seq },
                    ),
                    None => None,
                },
                ..*old(self)
            }),
    {
        if let Some(seq) = &mut self.sequence {
            let rows: usize = seq.rows.len();
            let max: usize = if rows > viewport {
                rows - viewport
            } else {
                0
            };
            seq.scroll =
            if seq.scroll >= max || amount > max - seq.scroll {
                max
            } else {
                seq.scroll + amount
            };
        }
    }

    /// The sequence as tab-separated text with one row per kernel, or `None` when
    /// no sequence is open.
    pub fn sequence_csv(&self) -> (r: Option<String>)
        ensures
            match r {
                Some(text) => self.sequence is Some && text@ == "idx\tkernel name\tmedian\n"@
                    + sequence_lines(self.sequence->0, (self.sequence->0).rows@.len() as int),
                None => self.sequence is None,
            },
    {
        match &self.sequence {
            None => None,
            Some(seq) => {
                let mut out = owned("idx\tkernel name\tmedian\n");
                let mut i: usize = 0;
                assert(out@ == "idx\tkernel name\tmedian\n"@ + sequence_lines(*seq, 0));
                while i < seq.rows.len()
                    invariant
                        i <= seq.rows@.len(),
                        out@ == "idx\tkernel name\tmedian\n"@ + sequence_lines(*seq, i as int),
                    decreases seq.rows@.len() - i,
                {
                    let med = shown_median(seq, i);
                    let ghost before = out@;
                    push_decimal(&mut out, seq.rows[i].0 as u128);
                    out.append("\t");
                    out.append(seq.rows[i].1.as_str());
                    out.append("\t");
                    out.append(med.show_places(2).as_str());
                    out.append("\n");
                    assert(out@ == before + sequence_line(*seq, i as int));
                    i += 1;
                    assert(out@ == "idx\tkernel name\tmedian\n"@ + sequence_lines(
                        *seq,
                        i as int,
                    ));
                }
                Some(out)
            },
        }
    }

    /// Whether the names of a block stand in a lane from `start` on.
    fn matches_block(
        &self,
        items: &[usize],
        start: usize,
        rows: &Vec<(usize, String, T)>,
    ) -> (r: bool)
        requires
            start + rows@.len() <= items@.len(),
        ensures
            r == block_at(
                self.kernels@,
                items@,
                start as int,
                row_names(row_views(rows@)),
            ),
    {
        let ghost pattern = row_names(row_views(rows@));
        let n: usize = items.len();
        let mut off: usize = 0;
        while off < rows.len()
            invariant
                off <= rows@.len(),
                start + rows@.len() <= n == items@.len(),
                pattern == row_names(row_views(rows@)),
                forall|o: int|
                    0 <= o < off ==> #[trigger] named_at(
                        self.kernels@,
                        items@,
                        start + o,
                        pattern[o],
                    ),
            decreases rows@.len() - off,
        {
            let idx: usize = items[start + off];
            if idx >= self.kernels.len() || self.kernels[idx].name != rows[off].1 {
                assert(!named_at(self.kernels@, items@, start + off, pattern[off as int]));
                return false;
            }
            off += 1;
        }
        true
    }

    /// Where a block of names stands in a lane, from `start` on.
    fn find_repetitions(
        &self,
        items: &[usize],
        start: usize,
        rows: &Vec<(usize, String, T)>,
    ) -> (r: Vec<usize>)
        requires
            rows@.len() > 0,
        ensures
            r@.map_values(|s: usize| s as int) == repetitions(
                self.kernels@,
                items@,
                start as int,
                row_names(row_views(rows@)),
            ),
            forall|i: int|
                0 <= i < r@.len() ==> block_at(
                    self.kernels@,
                    items@,
                    #[trigger] r@[i] as int,
                    row_names(row_views(rows@)),
                ),
    {
        let ghost pattern = row_names(row_views(rows@));
        let len: usize = rows.len();
        let n: usize = items.len();
        let mut out: Vec<usize> = Vec::new();
        let mut at: usize = start;
        let ghost goal = repetitions(self.kernels@, items@, start as int, pattern);
        assert(out@.map_values(|s: usize| s as int) + goal == goal);
        while at <= n && len <= n - at
            invariant
                n == items@.len(),
                len == rows@.len() == pattern.len(),
                len > 0,
                pattern == row_names(row_views(rows@)),
                goal == out@.map_values(|s: usize| s as int) + repetitions(
                    self.kernels@,
                    items@,
                    at as int,
                    pattern,
                ),
                forall|i: int|
                    0 <= i < out@.len() ==> block_at(
                        self.kernels@,
                        items@,
                        #[trigger] out@[i] as int,
                        pattern,
                    ),
            decreases n + 1 - at,
        {
            let ghost before = out@.map_values(|s: usize| s as int);
            if self.matches_block(items, at, rows) {
                out.push(at);
                proof {
                    let rest = repetitions(self.kernels@, items@, at + len, pattern);
                    assert(out@.map_values(|s: usize| s as int) == before.push(at as int));
                    assert(before + (seq![at as int] + rest) == before.push(at as int) + rest);
                }
                at = at + len;
            } else {
                at = at + 1;
            }
        }
        assert(out@.map_values(|s: usize| s as int) == goal);
        out
    }

    /// Scan forward for every block whose ordered kernel names exactly match the
    /// captured sequence; occurrences may be non-contiguous (intervening
    /// non-matching kernels are skipped). Then compute the per-position median
    /// duration across every matching block, including the captured one.
    pub fn extend_sequence_median(&mut self)
        ensures
            *final(self) == (App { sequence: final(self).sequence, ..*old(self) }),
            match old(self).sequence {
                None => final(self).sequence is None,
                Some(seq) => final(self).sequence is Some && old(self).extended(
                    seq,
                    final(self).sequence->0,
                ),
            },
    {
        let seq: &Sequence<T> = match &self.sequence {
            Some(seq) => seq,
            None => {
                return;
            },
        };
        let len: usize = seq.rows.len();
        if len == 0 {
            return;
        }
        if seq.source_lane >= self.lanes.len() || self.lanes[seq.source_lane].is_annotations() {
            return;
        }
        let items = self.lanes[seq.source_lane].item_indices();
        let reps = self.find_repetitions(items, seq.source_start, &seq.rows);
        let ghost pattern = row_names(row_views(seq.rows@));
        let ghost starts = reps@.map_values(|s: usize| s as int);
        let mut medians: Vec<(String, T)> = Vec::new();
        let mut off: usize = 0;
        while off < len
            invariant
                off <= len == seq.rows@.len() == pattern.len(),
                pattern == row_names(row_views(seq.rows@)),
                starts == reps@.map_values(|s: usize| s as int),
                forall|i: int|
                    0 <= i < reps@.len() ==> block_at(
                        self.kernels@,
                        items@,
                        #[trigger] reps@[i] as int,
                        pattern,
                    ),
                median_views(medians@) == block_medians(
                    self.kernels@,
                    items@,
                    starts,
                    pattern,
                ).take(off as int),
            decreases len - off,
        {
            let mut durs: Vec<T> = Vec::new();
            let n: usize = items.len();
            let mut i: usize = 0;
            while i < reps.len()
                invariant
                    i <= reps@.len(),
                    off < len == seq.rows@.len() == pattern.len(),
                    pattern == row_names(row_views(seq.rows@)),
                    n == items@.len(),
                    starts == reps@.map_values(|s: usize| s as int),
                    forall|i: int|
                        0 <= i < reps@.len() ==> block_at(
                            self.kernels@,
                            items@,
                            #[trigger] reps@[i] as int,
                            pattern,
                        ),
                    durs@ == durations_at(self.kernels@, items@, starts, off as int).take(
                        i as int,
                    ),
                decreases reps@.len() - i,
            {
                assert(block_at(self.kernels@, items@, reps@[i as int] as int, pattern));
                assert(named_at(
                    self.kernels@,
                    items@,
                    reps@[i as int] + off,
                    pattern[off as int],
                ));
                durs.push(self.kernels[items[reps[i] + off]].dur);
                i += 1;
                assert(durs@ == durations_at(self.kernels@, items@, starts, off as int).take(
                    i as int,
                ));
            }
            assert(durs@ == durations_at(self.kernels@, items@, starts, off as int));
            let ghost before = medians@;
            let m = median_of(durs.as_slice());
            medians.push((seq.rows[off].1.clone(), m));
            assert(median_views(medians@) == median_views(before).push((pattern[off as int], m)));
            off += 1;
            assert(median_views(medians@) == block_medians(
                self.kernels@,
                items@,
                starts,
                pattern,
            ).take(off as int));
        }
        assert(median_views(medians@) == block_medians(self.kernels@, items@, starts, pattern));
        let found: usize = reps.len();
        if let Some(seq) = &mut self.sequence {
            seq.median = Some(medians);
            seq.reps_found = found;
        }
    }
}

/// Where scrolling down by `amount` leads in a viewport of `viewport` rows.
pub open spec fn scrolled_down<T>(seq: Sequence<T>, amount: usize, viewport: usize) -> usize {
    let max = if seq.rows@.len() > viewport {
        seq.rows@.len() - viewport
    } else {
        0
    };
    if seq.scroll + amount > max {
        max as usize
    } else {
        (seq.scroll + amount) as usize
    }
}

/// The median shown in row `i`; zero where there is none.
pub open spec fn median_at<T: Scalar>(seq: Sequence<T>, i: int) -> T {
    match seq.median {
        Some(m) => if i < m@.len() {
            m@[i].1
        } else {
            T::whole_spec(0)
        },
        None => T::whole_spec(0),
    }
}

/// The median shown in row `i`; zero where there is none.
pub fn shown_median<T: Scalar>(seq: &Sequence<T>, i: usize) -> (r: T)
    ensures
        r == median_at(*seq, i as int),
{
    match &seq.median {
        Some(m) => if i < m.len() {
            m[i].1
        } else {
            T::whole(0)
        },
        None => T::whole(0),
    }
}

/// One row of the tab-separated text.
pub open spec fn sequence_line<T: Scalar>(seq: Sequence<T>, i: int) -> Seq<char> {
    text::decimal_text(seq.rows@[i].0 as nat) + "\t"@ + seq.rows@[i].1@ + "\t"@ + median_at(
        seq,
        i,
    ).show_places_spec(2) + "\n"@
}

/// The first `n` rows of the tab-separated text.
pub open spec fn sequence_lines<T: Scalar>(seq: Sequence<T>, n: int) -> Seq<char>
    decreases n,
{
    if n <= 0 {
        Seq::empty()
    } else {
        sequence_lines(seq, n - 1) + sequence_line(seq, n - 1)
    }
}

/// A search for a name stops at the first kernel that bears it.
pub proof fn the_next_of_a_name_is_the_first<T>(
    kernels: Seq<KernelEvent<T>>,
    items: Seq<usize>,
    pos: int,
    name: Seq<char>,
)
    requires
        0 <= pos <= items.len(),
    ensures
        ({
            let end = next_named(kernels, items, pos, name);
            &&& pos <= end <= items.len()
            &&& end < items.len() ==> named_at(kernels, items, end, name)
            &&& forall|p: int| pos <= p < end ==> !#[trigger] named_at(kernels, items, p, name)
        }),
    decreases items.len() - pos,
{
    if pos < items.len() && !named_at(kernels, items, pos, name) {
        the_next_of_a_name_is_the_first(kernels, items, pos + 1, name);
    }
}

pub(crate) proof fn lemma_block_rows<T>(
    kernels: Seq<KernelEvent<T>>,
    items: Seq<usize>,
    start: int,
    end: int,
)
    requires
        0 <= start <= end <= items.len(),
        forall|p: int| start <= p < end ==> #[trigger] items[p] < kernels.len(),
    ensures
        block_rows(kernels, items, start, end).len() == end - start,
        forall|o: int|
            0 <= o < end - start ==> #[trigger] block_rows(kernels, items, start, end)[o] == (
                o + 1,
                kernels[items[start + o] as int].name@,
                kernels[items[start + o] as int].dur,
            ),
    decreases end - start,
{
    if start < end {
        lemma_block_rows(kernels, items, start, end - 1);
        assert(items[end - 1] < kernels.len());
    }
}

/// A captured sequence is the first of its own repetitions, so that its median is
/// taken over one duration at least.
pub proof fn a_sequence_counts_itself<T>(
    kernels: Seq<KernelEvent<T>>,
    items: Seq<usize>,
    start: int,
    end: int,
)
    requires
        0 <= start < end <= items.len(),
        forall|p: int| start <= p < end ==> #[trigger] items[p] < kernels.len(),
    ensures
        ({
            let pattern = row_names(block_rows(kernels, items, start, end));
            let reps = repetitions(kernels, items, start, pattern);
            &&& pattern.len() == end - start
            &&& reps.len() >= 1
            &&& reps[0] == start
        }),
{
    lemma_block_rows(kernels, items, start, end);
    let rows = block_rows(kernels, items, start, end);
    let pattern = row_names(rows);
    assert forall|off: int| 0 <= off < pattern.len() implies #[trigger] named_at(
        kernels,
        items,
        start + off,
        pattern[off],
    ) by {
        assert(rows[off].1 == kernels[items[start + off] as int].name@);
        assert(items[start + off] < kernels.len());
    }
    assert(block_at(kernels, items, start, pattern));
}

/// Every repetition of a block stands where it is said to, and no two overlap.
pub proof fn repetitions_stand_apart<T>(
    kernels: Seq<KernelEvent<T>>,
    items: Seq<usize>,
    start: int,
    pattern: Seq<Seq<char>>,
)
    requires
        0 <= start,
    ensures
        ({
            let reps = repetitions(kernels, items, start, pattern);
            &&& forall|i: int|
                0 <= i < reps.len() ==> start <= #[trigger] reps[i] && block_at(
                    kernels,
                    items,
                    reps[i],
                    pattern,
                )
            &&& forall|i: int, j: int|
                0 <= i < j < reps.len() ==> #[trigger] reps[i] + pattern.len()
                    <= #[trigger] reps[j]
        }),
    decreases items.len() - start,
{
    if pattern.len() > 0 && start + pattern.len() <= items.len() {
        if block_at(kernels, items, start, pattern) {
            repetitions_stand_apart(kernels, items, start + pattern.len(), pattern);
            let rest = repetitions(kernels, items, start + pattern.len(), pattern);
            let reps = repetitions(kernels, items, start, pattern);
            assert forall|i: int| 0 <= i < reps.len() implies start <= #[trigger] reps[i] && block_at(
                kernels,
                items,
                reps[i],
                pattern,
            ) by {
                if i > 0 {
                    assert(reps[i] == rest[i - 1]);
                }
            }
            assert forall|i: int, j: int| 0 <= i < j < reps.len() implies #[trigger] reps[i]
                + pattern.len() <= #[trigger] reps[j] by {
                assert(reps[j] == rest[j - 1]);
                if i > 0 {
                    assert(reps[i] == rest[i - 1]);
                }
            }
        } else {
            repetitions_stand_apart(kernels, items, start + 1, pattern);
            let reps = repetitions(kernels, items, start, pattern);
            let rest = repetitions(kernels, items, start + 1, pattern);
            assert(reps == rest);
            assert forall|i: int| 0 <= i < reps.len() implies start <= #[trigger] reps[i] && block_at(
                kernels,
                items,
                reps[i],
                pattern,
            ) by {
                assert(start + 1 <= rest[i]);
            }
        }
    }
}

} // verus!
