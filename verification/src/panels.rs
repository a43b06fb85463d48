//! The texts around the lanes: header, titles, lane labels, the sequence popup
//! and the details of the selected item.
use vstd::prelude::*;
use vstd::string::StringExecFns;
use crate::app::sequence::{self, shown_median};
use crate::app::{self, App, LaneLayout, SelectedTraceItem, Sequence};
use crate::labels;
use crate::lane::{AlignMode, LaneView};
use crate::scalar::Scalar;
use crate::text::{
    self, chars_of, ellipsize, owned, pad_to, push_decimal, push_flush_left, push_flush_right,
    trim_end,
};
use crate::trace::{AnnotationEvent, KernelEvent};

verus! {

/// What the header line shows.
#[derive(Debug, Clone)]
pub enum Header {
    /// The keys that can be used.
    Help(&'static str),
    /// The outcome of the last action.
    Status(String),
    /// The search prompt: the query with its cursor, whether it failed, and a
    /// note.
    Search { query: String, failed: bool, note: String },
}

/// What the header line shows, as plain values.
pub enum HeaderView {
    Help(Seq<char>),
    Status(Seq<char>),
    Search { query: Seq<char>, failed: bool, note: Seq<char> },
}

impl View for Header {
    type V = HeaderView;

    open spec fn view(&self) -> HeaderView {
        match *self {
            Header::Help(s) => HeaderView::Help(s@),
            Header::Status(s) => HeaderView::Status(s@),
            Header::Search { query, failed, note } => HeaderView::Search {
                query: query@,
                failed,
                note: note@,
            },
        }
    }
}

/// The note behind the search query: that nothing matches, or which match is
/// current.
pub open spec fn search_note<T: Scalar>(app: App<T>) -> Seq<char> {
    if app.search_no_match {
        "  (no match)"@
    } else if app.search_matches@.len() == 0 {
        "  [Tab] keep  [Esc] cancel"@
    } else {
        "  "@ + (text::decimal_text((app.search_match_idx + 1) as nat) + "/"@ + text::decimal_text(
            app.search_matches@.len(),
        )) + "  [Enter/S-Enter] next/prev  [Esc] cancel"@
    }
}

/// What the header line shows: a status first, then a search, else the keys.
pub open spec fn header_of<T: Scalar>(app: App<T>) -> HeaderView {
    match app.status {
        Some(status) => HeaderView::Status(status@),
        None => if app.search_active {
            HeaderView::Search {
                query: app.search_query@.push('\u{2588}'),
                failed: app.search_no_match,
                note: search_note(app),
            }
        } else if app.traces@.len() == 2 {
            HeaderView::Help(
                "  [/] search  [Tab] lane  [A/D] item  [W/S] zoom  [E] export  [G] diff/normal  [Q] quit"@,
            )
        } else {
            HeaderView::Help(
                "  [/] search  [Tab] lane  [A/D] item  [W/S] zoom  [E] export  [Q] quit"@,
            )
        },
    }
}

/// What the header line shows.
pub fn header<T: Scalar>(app: &App<T>) -> (r: Header)
    ensures
        r@ == header_of(*app),
{
    if let Some(status) = &app.status {
        return Header::Status(status.clone());
    }
    if app.search_active {
        let mut query = app.search_query.clone();
        query.push('\u{2588}');
        let note = if app.search_no_match {
            owned("  (no match)")
        } else {
            match app.search_match_label() {
                Some(pos) => {
                    let mut note = owned("  ");
                    note.append(pos.as_str());
                    note.append("  [Enter/S-Enter] next/prev  [Esc] cancel");
                    note
                },
                None => owned("  [Tab] keep  [Esc] cancel"),
            }
        };
        return Header::Search { query, failed: app.search_no_match, note };
    }
    if app.traces.len() == 2 {
        Header::Help(
            "  [/] search  [Tab] lane  [A/D] item  [W/S] zoom  [E] export  [G] diff/normal  [Q] quit",
        )
    } else {
        Header::Help("  [/] search  [Tab] lane  [A/D] item  [W/S] zoom  [E] export  [Q] quit")
    }
}

/// The title of the lane area: the number of traces and their mode, or the
/// streams of a single trace.
pub open spec fn title_of<T: Scalar>(app: App<T>) -> Seq<char> {
    let n = app.traces@.len();
    if n == 2 {
        " "@ + text::decimal_text(n) + " traces \u{2014} "@ + match app.align_mode {
            AlignMode::Diff => "diff"@,
            AlignMode::Normal => "normal"@,
        } + " "@
    } else if n > 1 {
        " "@ + text::decimal_text(n) + " traces "@
    } else {
        " GPU Streams ("@ + text::decimal_text(app.streams@.len()) + ") \u{2014} active cuda:"@
            + text::decimal_text(
            (match app.active() {
                Some(lane) => lane.stream_id,
                None => if app.streams@.len() > 0 {
                    app.streams@[0]
                } else {
                    0
                },
            }) as nat,
        ) + " "@
    }
}

/// The title of the lane area.
pub fn lanes_title<T: Scalar>(app: &App<T>) -> (r: String)
    ensures
        r@ == title_of(*app),
{
    let n: usize = app.traces.len();
    match app.mode_label() {
        Some(mode) => {
            let mut out = owned(" ");
            push_decimal(&mut out, n as u128);
            out.append(" traces \u{2014} ");
            out.append(mode.as_str());
            out.append(" ");
            out
        },
        None => if n > 1 {
            let mut out = owned(" ");
            push_decimal(&mut out, n as u128);
            out.append(" traces ");
            out
        } else {
            let mut out = owned(" GPU Streams (");
            push_decimal(&mut out, app.streams.len() as u128);
            out.append(") \u{2014} active cuda:");
            push_decimal(&mut out, app.active_stream() as u128);
            out.append(" ");
            out
        },
    }
}

/// The name of a kernel lane without its trace.
pub open spec fn stream_label(stream: u64) -> Seq<char> {
    "cuda:"@ + text::decimal_text(stream as nat)
}

/// The name of a kernel lane without its trace.
fn stream_name(stream: u64) -> (r: String)
    ensures
        r@ == stream_label(stream),
{
    let mut out = owned("cuda:");
    push_decimal(&mut out, stream as u128);
    out
}

/// How wide the label of a lane is: with several traces the label of its trace
/// and a space, and for kernels the stream.
pub open spec fn label_need<T: Scalar>(app: App<T>, lane: LaneView) -> int {
    let prefix = if app.traces@.len() > 1 && lane.trace_id < app.traces@.len() {
        labels::short_label(app.labels(), lane.trace_id as int).len() + 1
    } else {
        0
    };
    let body = if lane.annotations {
        0
    } else {
        stream_label(lane.stream_id).len() as int
    };
    prefix + body
}

/// The widest label of the first `n` lanes.
pub open spec fn widest_label<T: Scalar>(app: App<T>, n: int) -> int
    decreases n,
{
    if n <= 0 {
        0
    } else {
        let before = widest_label(app, n - 1);
        let own = label_need(app, app.lanes@[n - 1]@);
        if own > before {
            own
        } else {
            before
        }
    }
}

/// The width of the label column: the widest label, or six without lanes, and
/// two more.
pub open spec fn label_column<T: Scalar>(app: App<T>) -> int {
    (if app.lanes@.len() == 0 {
        6
    } else {
        widest_label(app, app.lanes@.len() as int)
    }) + 2
}

/// The width of the label column, as far as it can be counted.
pub fn stream_label_width<T: Scalar>(app: &App<T>) -> (r: usize)
    ensures
        r == if label_column(*app) <= usize::MAX {
            label_column(*app)
        } else {
            usize::MAX as int
        },
{
    let multi: bool = app.traces.len() > 1;
    let short_labels = app.trace_display_labels();
    let mut widest: u128 = 0;
    let mut i: usize = 0;
    while i < app.lanes.len()
        invariant
            i <= app.lanes@.len(),
            multi == (app.traces@.len() > 1),
            short_labels@.len() == app.traces@.len(),
            forall|t: int|
                0 <= t < short_labels@.len() ==> (#[trigger] short_labels@[t])@
                    == labels::short_label(app.labels(), t),
            widest == widest_label(*app, i as int),
            widest <= 0x2_0000_0000_0000_0000,
        decreases app.lanes@.len() - i,
    {
        let lane = &app.lanes[i];
        let prefix: u128 = if multi && lane.trace_id() < short_labels.len() {
            assert(short_labels@[lane@.trace_id as int]@ == labels::short_label(
                app.labels(),
                lane@.trace_id as int,
            ));
            chars_of(short_labels[lane.trace_id()].as_str()).len() as u128 + 1
        } else {
            0
        };
        let body: u128 = if lane.is_annotations() {
            0
        } else {
            chars_of(stream_name(lane.stream_id()).as_str()).len() as u128
        };
        assert(prefix + body == label_need(*app, app.lanes@[i as int]@));
        if prefix + body > widest {
            widest = prefix + body;
        }
        i += 1;
    }
    let column: u128 = (if app.lanes.len() == 0 {
        6
    } else {
        widest
    }) + 2;
    if column <= usize::MAX as u128 {
        column as usize
    } else {
        usize::MAX
    }
}

/// The label of a lane: with several traces the short label of its trace, and
/// for kernels the stream.
pub open spec fn lane_label_of<T: Scalar>(
    app: App<T>,
    lane: LaneView,
    short_labels: Seq<String>,
) -> Seq<char> {
    let prefix = if app.traces@.len() > 1 {
        short_labels[lane.trace_id as int]@ + " "@
    } else {
        Seq::empty()
    };
    if lane.annotations {
        text::end_trimmed(prefix)
    } else {
        prefix + stream_label(lane.stream_id)
    }
}

/// The label of a lane, given the short labels of all traces, cut or filled to a
/// width.
pub fn lane_label<T: Scalar>(
    app: &App<T>,
    lane_idx: usize,
    short_labels: &Vec<String>,
    width: usize,
) -> (r: String)
    requires
        lane_idx < app.lanes@.len(),
        app.traces@.len() > 1 ==> app.lanes@[lane_idx as int]@.trace_id < short_labels@.len(),
    ensures
        r@ == text::padded(
            lane_label_of(*app, app.lanes@[lane_idx as int]@, short_labels@),
            width as nat,
        ),
{
    let lane = &app.lanes[lane_idx];
    let mut prefix = String::new();
    if app.traces.len() > 1 {
        prefix.append(short_labels[lane.trace_id()].as_str());
        prefix.append(" ");
    } else {
        assert(prefix@ == Seq::<char>::empty());
    }
    if lane.is_annotations() {
        pad_to(trim_end(prefix.as_str()), width)
    } else {
        prefix.append(stream_name(lane.stream_id()).as_str());
        pad_to(prefix, width)
    }
}

/// Which lanes are shown, and on which window.
#[derive(Debug, Clone, Copy)]
pub struct LanePlan<T> {
    /// The first lane shown.
    pub start: usize,
    /// The lane behind the last one shown.
    pub end: usize,
    /// The width of the label column.
    pub label_width: usize,
    /// The width of the timeline.
    pub lane_width: usize,
    pub ts_start: T,
    pub time_span: T,
}

/// The first lane shown: that of the scroll position, but never behind the last.
pub open spec fn first_shown<T: Scalar>(app: App<T>) -> int {
    let last = if app.lanes@.len() > 0 {
        app.lanes@.len() - 1
    } else {
        0
    };
    if app.lane_view_offset < last {
        app.lane_view_offset as int
    } else {
        last
    }
}

impl<T: Scalar> App<T> {
    /// Plans the lanes for an area with its upper left corner at `(x, y)`, and
    /// records the geometry for mouse clicks. An area too narrow for the labels
    /// shows no lanes.
    pub fn plan_lanes(&mut self, x: u16, y: u16, width: u16, height: u16) -> (r: Option<
        LanePlan<T>,
    >)
        ensures
            *final(self) == (App { lane_layout: final(self).lane_layout, ..*old(self) }),
            match r {
                None => width <= label_column(*old(self)) + 4 && final(self).lane_layout
                    == app::no_layout::<T>(),
                Some(plan) => {
                    let (from, to) = old(self).visible_window();
                    let span = to.minus_spec(from).larger_spec(T::whole_spec(1));
                    &&& width > label_column(*old(self)) + 4
                    &&& plan.start == first_shown(*old(self))
                    &&& plan.end == if plan.start + height < old(self).lanes@.len() {
                        plan.start + height
                    } else {
                        old(self).lanes@.len() as int
                    }
                    &&& plan.label_width == label_column(*old(self))
                    &&& plan.lane_width == width - label_column(*old(self))
                    &&& plan.ts_start == from
                    &&& plan.time_span == span
                    &&& final(self).lane_layout == (LaneLayout {
                        inner_x: x,
                        inner_y: y,
                        inner_h: height,
                        label_width: plan.label_width as u16,
                        lane_width: plan.lane_width as u16,
                        view_offset: plan.start,
                        ts_start: from,
                        time_span: span,
                    })
                },
            },
    {
        let label_width: usize = stream_label_width(self);
        if label_width >= 0x1_0000 || width as usize <= label_width + 4 {
            self.lane_layout = LaneLayout::default();
            return None;
        }
        let lane_width: usize = width as usize - label_width;
        let (ts_start, ts_end) = self.global_visible_window();
        let time_span = ts_end.minus(ts_start).larger(T::whole(1));
        let n: usize = self.lanes.len();
        let last: usize = if n > 0 {
            n - 1
        } else {
            0
        };
        let start: usize = if self.lane_view_offset < last {
            self.lane_view_offset
        } else {
            last
        };
        let rows: usize = height as usize;
        let end: usize = if rows < n - start {
            start + rows
        } else {
            n
        };
        self.lane_layout =
        LaneLayout {
            inner_x: x,
            inner_y: y,
            inner_h: height,
            label_width: label_width as u16,
            lane_width: lane_width as u16,
            view_offset: start,
            ts_start,
            time_span,
        };
        Some(LanePlan { start, end, label_width, lane_width, ts_start, time_span })
    }
}

/// The texts of the sequence popup.
#[derive(Debug, Clone)]
pub struct Popup {
    pub header: String,
    pub rows: Vec<String>,
    pub status: Option<String>,
    pub reps: String,
    pub hint: String,
}

/// How many rows of a sequence fit into an area of `height` rows: one goes to the
/// header and three to the footer, or four with a status.
pub open spec fn popup_rows(height: int, has_status: bool) -> int {
    let free = height - 1 - (if has_status {
        4int
    } else {
        3
    });
    if free > 1 {
        free
    } else {
        1
    }
}

/// How many rows of a sequence fit into an area of `height` rows.
fn viewport_rows(height: usize, has_status: bool) -> (r: usize)
    ensures
        r == popup_rows(height as int, has_status),
{
    let reserved: usize = if has_status {
        5
    } else {
        4
    };
    if height > reserved + 1 {
        height - reserved
    } else {
        1
    }
}

/// How many kernel rows the sequence popup shows on a terminal of `term_height`
/// rows: it takes 70 percent of them, two go to its border.
pub open spec fn viewport_of(term_height: int, has_status: bool) -> int {
    let inner = term_height * 70 / 100 - 2;
    popup_rows(
        if inner > 0 {
            inner
        } else {
            0
        },
        has_status,
    )
}

/// Number of scrollable kernel rows the sequence popup shows. Mirrors the popup's
/// geometry: it is 70% of the terminal height, two border rows drop out, then the
/// header row and the footer block (blank, optional status, reps-line, hint) are
/// reserved.
pub fn sequence_viewport<T: Scalar>(term_height: usize, app: &App<T>) -> (r: usize)
    ensures
        r == viewport_of(term_height as int, app.sequence_status is Some),
{
    let popup: usize = (term_height as u128 * 70 / 100) as usize;
    let inner: usize = if popup > 2 {
        popup - 2
    } else {
        0
    };
    let has_status: bool = match app.sequence_status {
        Some(_) => true,
        None => false,
    };
    viewport_rows(inner, has_status)
}

/// The width of the name column in a popup of `width` columns.
pub open spec fn name_column(width: int) -> int {
    if width - 19 > 8 {
        width - 19
    } else {
        8
    }
}

/// A line of the popup: the index right-aligned in five columns, the name in its
/// own, the median right-aligned in twelve.
pub open spec fn popup_line(idx: Seq<char>, name: Seq<char>, med: Seq<char>, name_w: int) -> Seq<
    char,
> {
    text::flush_right(idx, 5) + "  "@ + text::flush_left(name, name_w) + text::flush_right(med, 12)
}

/// A line of the popup.
fn make_popup_line(idx: &str, name: &str, med: &str, name_w: usize) -> (r: String)
    ensures
        r@ == popup_line(idx@, name@, med@, name_w as int),
{
    let mut out = String::new();
    push_flush_right(&mut out, idx, 5);
    out.append("  ");
    push_flush_left(&mut out, name, name_w);
    push_flush_right(&mut out, med, 12);
    assert(out@ == popup_line(idx@, name@, med@, name_w as int));
    out
}

/// Row `i` of a sequence as a line of the popup.
pub open spec fn popup_row<T: Scalar>(seq: Sequence<T>, i: int, name_w: int) -> Seq<char> {
    popup_line(
        text::decimal_text(seq.rows@[i].0 as nat),
        text::ellipsized(seq.rows@[i].1@, name_w as nat),
        sequence::median_at(seq, i).show_places_spec(2),
        name_w,
    )
}

/// The first row shown: that of the scroll position, but never so far down that
/// rows of the viewport stay empty.
pub open spec fn popup_start<T>(seq: Sequence<T>, viewport: int) -> int {
    let last = if seq.rows@.len() > viewport {
        seq.rows@.len() - viewport
    } else {
        0
    };
    if seq.scroll < last {
        seq.scroll as int
    } else {
        last
    }
}

/// The row behind the last one shown.
pub open spec fn popup_end<T>(seq: Sequence<T>, viewport: int) -> int {
    let end = popup_start(seq, viewport) + viewport;
    if end < seq.rows@.len() {
        end
    } else {
        seq.rows@.len() as int
    }
}

/// The line of keys under a sequence, with the rows shown where not all are.
pub open spec fn popup_hint<T>(seq: Sequence<T>, viewport: int) -> Seq<char> {
    "[y] copy   [Esc/n] close"@ + if seq.rows@.len() > viewport {
        "  ["@ + text::decimal_text((popup_start(seq, viewport) + 1) as nat) + "-"@
            + text::decimal_text(popup_end(seq, viewport) as nat) + "/"@ + text::decimal_text(
            seq.rows@.len(),
        ) + " \u{2191}\u{2193} PgUp/PgDn]"@
    } else {
        Seq::empty()
    }
}

/// Whether `popup` is the popup of a sequence in an area of `width` by `height`.
pub open spec fn shows_sequence<T: Scalar>(
    popup: Popup,
    seq: Sequence<T>,
    status: Option<String>,
    width: int,
    height: int,
) -> bool {
    let viewport = popup_rows(height, status is Some);
    let start = popup_start(seq, viewport);
    let end = popup_end(seq, viewport);
    &&& popup.header@ == popup_line("idx"@, "kernel name"@, "median"@, name_column(width))
    &&& text::texts(popup.rows@) == Seq::new(
        (end - start) as nat,
        |i: int| popup_row(seq, start + i, name_column(width)),
    )
    &&& popup.status == status
    &&& popup.reps@ == "median across "@ + text::decimal_text(seq.reps_found as nat)
        + " block(s)"@
    &&& popup.hint@ == popup_hint(seq, viewport)
}

/// The texts of the sequence popup in an area of `width` by `height`, where a
/// sequence is open.
pub fn sequence_popup<T: Scalar>(app: &App<T>, width: usize, height: usize) -> (r: Option<Popup>)
    ensures
        match app.sequence {
            None => r is None,
            Some(seq) => r is Some && shows_sequence(
                r->0,
                seq,
                app.sequence_status,
                width as int,
                height as int,
            ),
        },
{
    let seq = match &app.sequence {
        Some(seq) => seq,
        None => {
            return None;
        },
    };
    let name_w: usize = if width > 27 {
        width - 19
    } else {
        8
    };
    let (has_status, status): (bool, Option<String>) = match &app.sequence_status {
        Some(s) => (true, Some(s.clone())),
        None => (false, None),
    };
    let header = make_popup_line("idx", "kernel name", "median", name_w);
    let viewport: usize = viewport_rows(height, has_status);
    let total: usize = seq.rows.len();
    let last: usize = if total > viewport {
        total - viewport
    } else {
        0
    };
    let start: usize = if seq.scroll < last {
        seq.scroll
    } else {
        last
    };
    let end: usize = if viewport < total - start {
        start + viewport
    } else {
        total
    };
    let ghost goal = Seq::new(
        (end - start) as nat,
        |i: int| popup_row(*seq, start + i, name_w as int),
    );
    let mut rows: Vec<String> = Vec::new();
    let mut i: usize = start;
    assert(text::texts(rows@) == goal.take(0));
    while i < end
        invariant
            start <= i <= end <= seq.rows@.len(),
            goal == Seq::new(
                (end - start) as nat,
                |i: int| popup_row(*seq, start + i, name_w as int),
            ),
            text::texts(rows@) == goal.take(i - start),
        decreases end - i,
    {
        let mut idx = String::new();
        push_decimal(&mut idx, seq.rows[i].0 as u128);
        let name = ellipsize(seq.rows[i].1.as_str(), name_w);
        let med = shown_median(seq, i).show_places(2);
        let line = make_popup_line(idx.as_str(), name.as_str(), med.as_str(), name_w);
        assert(idx@ == text::decimal_text(seq.rows@[i as int].0 as nat));
        assert(line@ == goal[i - start]);
        assert(text::texts(rows@.push(line)) == text::texts(rows@).push(line@));
        rows.push(line);
        i += 1;
        assert(text::texts(rows@) == goal.take(i - start));
    }
    assert(goal.take(goal.len() as int) == goal);
    let mut reps = owned("median across ");
    push_decimal(&mut reps, seq.reps_found as u128);
    reps.append(" block(s)");
    let mut hint = owned("[y] copy   [Esc/n] close");
    if total > viewport {
        let mut part = owned("  [");
        push_decimal(&mut part, start as u128 + 1);
        part.append("-");
        push_decimal(&mut part, end as u128);
        part.append("/");
        push_decimal(&mut part, total as u128);
        part.append(" \u{2191}\u{2193} PgUp/PgDn]");
        hint.append(part.as_str());
    } else {
        assert(hint@ == hint@ + Seq::<char>::empty());
    }
    Some(Popup { header, rows, status, reps, hint })
}

/// A labelled value of the details panel.
#[derive(Debug, Clone)]
pub struct Detail {
    pub label: &'static str,
    pub value: String,
}

/// A labelled value as plain texts.
pub open spec fn detail(d: Detail) -> (Seq<char>, Seq<char>) {
    (d.label@, d.value@)
}

/// The lines of the details panel as plain texts.
pub open spec fn detail_lines(lines: Seq<Vec<Detail>>) -> Seq<Seq<(Seq<char>, Seq<char>)>> {
    lines.map_values(|l: Vec<Detail>| l@.map_values(|d: Detail| detail(d)))
}

/// A time in microseconds with three decimal places.
pub open spec fn micros<T: Scalar>(t: T) -> Seq<char> {
    t.show_places_spec(3) + " \u{3bc}s"@
}

/// A text, or `N/A` where there is none.
pub open spec fn or_na(s: Option<Seq<char>>) -> Seq<char> {
    match s {
        Some(t) => t,
        None => "N/A"@,
    }
}

/// A count, or `N/A` where there is none.
pub open spec fn count_or_na(n: Option<u64>, unit: Seq<char>) -> Seq<char> {
    match n {
        Some(v) => text::decimal_text(v as nat) + unit,
        None => "N/A"@,
    }
}

/// The details of a kernel.
pub open spec fn kernel_details<T: Scalar>(k: KernelEvent<T>) -> Seq<Seq<(Seq<char>, Seq<char>)>> {
    seq![
        seq![("Name: "@, k.name@)],
        seq![
            ("Stream: "@, stream_label(k.stream)),
            ("Device: "@, text::decimal_text(k.device as nat)),
        ],
        seq![
            ("Start: "@, micros(k.ts)),
            ("End: "@, micros(k.end_spec())),
            ("Dur: "@, micros(k.dur)),
        ],
        seq![
            ("Grid: "@, or_na(crate::trace::opt_text(k.grid))),
            ("Block: "@, or_na(crate::trace::opt_text(k.block))),
        ],
        seq![
            ("Shared Mem: "@, count_or_na(k.shared_memory, " B"@)),
            ("Regs/Thread: "@, count_or_na(k.registers_per_thread, Seq::empty())),
        ],
        seq![("Correlation: "@, count_or_na(k.correlation, Seq::empty()))],
    ]
}

/// The details of an annotation.
pub open spec fn annotation_details<T: Scalar>(a: AnnotationEvent<T>) -> Seq<
    Seq<(Seq<char>, Seq<char>)>,
> {
    seq![
        seq![("Name: "@, a.name@)],
        seq![("Stream: "@, stream_label(a.stream))],
        seq![
            ("Start: "@, micros(a.ts)),
            ("End: "@, micros(a.end_spec())),
            ("Dur: "@, micros(a.dur)),
        ],
    ]
}

/// A time in microseconds with three decimal places.
fn show_micros<T: Scalar>(t: T) -> (r: String)
    ensures
        r@ == micros(t),
{
    let mut out = t.show_places(3);
    out.append(" \u{3bc}s");
    out
}

/// A text, or `N/A` where there is none.
fn show_text(s: &Option<String>) -> (r: String)
    ensures
        r@ == or_na(crate::trace::opt_text(*s)),
{
    match s {
        Some(t) => t.clone(),
        None => owned("N/A"),
    }
}

/// A count, or `N/A` where there is none.
fn show_count(n: Option<u64>, unit: &str) -> (r: String)
    ensures
        r@ == count_or_na(n, unit@),
{
    match n {
        Some(v) => {
            let mut out = text::decimal(v);
            out.append(unit);
            out
        },
        None => owned("N/A"),
    }
}

/// The details of a kernel.
fn list_kernel_details<T: Scalar>(k: &KernelEvent<T>) -> (r: Vec<Vec<Detail>>)
    ensures
        detail_lines(r@) == kernel_details(*k),
{
    let empty = String::new();
    let name: Vec<Detail> = vec![Detail { label: "Name: ", value: k.name.clone() }];
    let place: Vec<Detail> = vec![
        Detail { label: "Stream: ", value: stream_name(k.stream) },
        Detail { label: "Device: ", value: text::decimal(k.device) },
    ];
    let times: Vec<Detail> = vec![
        Detail { label: "Start: ", value: show_micros(k.ts) },
        Detail { label: "End: ", value: show_micros(k.end_ts()) },
        Detail { label: "Dur: ", value: show_micros(k.dur) },
    ];
    let dims: Vec<Detail> = vec![
        Detail { label: "Grid: ", value: show_text(&k.grid) },
        Detail { label: "Block: ", value: show_text(&k.block) },
    ];
    let memory: Vec<Detail> = vec![
        Detail { label: "Shared Mem: ", value: show_count(k.shared_memory, " B") },
        Detail {
            label: "Regs/Thread: ",
            value: show_count(k.registers_per_thread, empty.as_str()),
        },
    ];
    let correlation: Vec<Detail> = vec![
        Detail { label: "Correlation: ", value: show_count(k.correlation, empty.as_str()) },
    ];
    proof {
        let goal = kernel_details(*k);
        assert(empty@ == Seq::<char>::empty());
        assert(name@.map_values(|d: Detail| detail(d)) == goal[0]);
        assert(place@.map_values(|d: Detail| detail(d)) == goal[1]);
        assert(times@.map_values(|d: Detail| detail(d)) == goal[2]);
        assert(dims@.map_values(|d: Detail| detail(d)) == goal[3]);
        assert(memory@.map_values(|d: Detail| detail(d)) == goal[4]);
        assert(correlation@.map_values(|d: Detail| detail(d)) == goal[5]);
    }
    let lines: Vec<Vec<Detail>> = vec![name, place, times, dims, memory, correlation];
    assert(detail_lines(lines@) == kernel_details(*k));
    lines
}

/// The details of an annotation.
fn list_annotation_details<T: Scalar>(a: &AnnotationEvent<T>) -> (r: Vec<Vec<Detail>>)
    ensures
        detail_lines(r@) == annotation_details(*a),
{
    let name: Vec<Detail> = vec![Detail { label: "Name: ", value: a.name.clone() }];
    let stream: Vec<Detail> = vec![Detail { label: "Stream: ", value: stream_name(a.stream) }];
    let times: Vec<Detail> = vec![
        Detail { label: "Start: ", value: show_micros(a.ts) },
        Detail { label: "End: ", value: show_micros(a.end_ts()) },
        Detail { label: "Dur: ", value: show_micros(a.dur) },
    ];
    proof {
        let goal = annotation_details(*a);
        assert(name@.map_values(|d: Detail| detail(d)) == goal[0]);
        assert(stream@.map_values(|d: Detail| detail(d)) == goal[1]);
        assert(times@.map_values(|d: Detail| detail(d)) == goal[2]);
    }
    let lines: Vec<Vec<Detail>> = vec![name, stream, times];
    assert(detail_lines(lines@) == annotation_details(*a));
    lines
}

/// The title of the details panel.
pub fn details_title<T: Scalar>(app: &App<T>) -> (r: &'static str)
    ensures
        r@ == match app.active() {
            Some(lane) => if lane.annotations {
                " Annotation Info "@
            } else {
                " Kernel Info "@
            },
            None => " Kernel Info "@,
        },
{
    if app.active_lane_is_annotations() {
        " Annotation Info "
    } else {
        " Kernel Info "
    }
}

/// The details of the selected item, line by line; `None` where nothing is
/// selected.
pub fn selected_details<T: Scalar>(app: &App<T>) -> (r: Option<Vec<Vec<Detail>>>)
    ensures
        match app.selected_index() {
            None => r is None,
            Some(idx) => if app.active()->0.annotations {
                if idx < app.annotations@.len() {
                    r is Some && detail_lines((r->0)@) == annotation_details(
                        app.annotations@[idx as int],
                    )
                } else {
                    r is None
                }
            } else {
                if idx < app.kernels@.len() {
                    r is Some && detail_lines((r->0)@) == kernel_details(app.kernels@[idx as int])
                } else {
                    r is None
                }
            },
        },
{
    match app.selected_trace_item() {
        None => None,
        Some(SelectedTraceItem::Annotation(a)) => Some(list_annotation_details(a)),
        Some(SelectedTraceItem::Kernel(k)) => Some(list_kernel_details(k)),
    }
}

} // verus!
