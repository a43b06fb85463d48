//! What the screen shows: lanes as styled runs of characters, and the texts
//! around them.
use vstd::prelude::*;
use crate::app::columns::kernel_columns;
use crate::app::App;
use crate::lane::{AlignMode, ColumnClass, LaneView};
use crate::scalar::Scalar;
use crate::text::{self, chars_of, ellipsize, pad_to, same_text};

verus! {

/// A colour of the screen.
#[derive(Debug, Clone, Copy, PartialEq, Eq, Structural)]
pub enum Color {
    Black,
    White,
    Rgb(u8, u8, u8),
}

/// A run of characters in one style; without a foreground it is blank.
#[derive(Debug, Clone)]
pub struct Span {
    pub text: String,
    pub fg: Option<Color>,
    pub bg: Color,
}

/// A run of characters in one style, as plain values.
pub struct SpanView {
    pub text: Seq<char>,
    pub fg: Option<Color>,
    pub bg: Color,
}

impl View for Span {
    type V = SpanView;

    open spec fn view(&self) -> SpanView {
        SpanView { text: self.text@, fg: self.fg, bg: self.bg }
    }
}

/// The views of a list of runs.
pub open spec fn span_views(spans: Seq<Span>) -> Seq<SpanView> {
    spans.map_values(|s: Span| s@)
}

/// The colour of kernels that stand in the second trace only.
pub open spec fn diff_added() -> Color {
    Color::Rgb(34, 197, 94)
}

/// The colour of kernels that stand in the anchor trace only.
pub open spec fn diff_deleted() -> Color {
    Color::Rgb(220, 38, 38)
}

/// The background of annotations.
pub open spec fn annotation_background() -> Color {
    Color::Rgb(90, 90, 110)
}

/// The colours that ordinary kernels take in turn.
pub open spec fn palette(i: int) -> Color {
    if i == 0 {
        Color::Rgb(59, 130, 246)
    } else if i == 1 {
        Color::Rgb(16, 185, 129)
    } else if i == 2 {
        Color::Rgb(245, 158, 11)
    } else if i == 3 {
        Color::Rgb(239, 68, 68)
    } else if i == 4 {
        Color::Rgb(168, 85, 247)
    } else if i == 5 {
        Color::Rgb(20, 184, 166)
    } else if i == 6 {
        Color::Rgb(249, 115, 22)
    } else {
        Color::Rgb(236, 72, 153)
    }
}

/// The colour of the kernel at position `idx` of its lane: copies and fills have
/// their own, other kernels take turns.
pub open spec fn color_of(cat: Seq<char>, idx: int) -> Color {
    if cat == "gpu_memcpy"@ {
        Color::Rgb(139, 92, 246)
    } else if cat == "gpu_memset"@ {
        Color::Rgb(251, 191, 36)
    } else {
        palette(idx % 8)
    }
}

/// A colour darkened to a third.
pub open spec fn dimmed(c: Color) -> Color {
    match c {
        Color::Rgb(r, g, b) => Color::Rgb(r / 3, g / 3, b / 3),
        other => other,
    }
}

/// The colour of the kernel at position `idx` of its lane.
pub fn kernel_color(cat: &str, idx: usize) -> (r: Color)
    ensures
        r == color_of(cat@, idx as int),
{
    if same_text(cat, "gpu_memcpy") {
        return Color::Rgb(139, 92, 246);
    }
    if same_text(cat, "gpu_memset") {
        return Color::Rgb(251, 191, 36);
    }
    match idx % 8 {
        0 => Color::Rgb(59, 130, 246),
        1 => Color::Rgb(16, 185, 129),
        2 => Color::Rgb(245, 158, 11),
        3 => Color::Rgb(239, 68, 68),
        4 => Color::Rgb(168, 85, 247),
        5 => Color::Rgb(20, 184, 166),
        6 => Color::Rgb(249, 115, 22),
        _ => Color::Rgb(236, 72, 153),
    }
}

/// Darkens a block colour toward black so that matched (unchanged) kernels recede
/// and the added and deleted ones stand out.
pub fn dim_color(c: Color) -> (r: Color)
    ensures
        r == dimmed(c),
{
    match c {
        Color::Rgb(r, g, b) => Color::Rgb(r / 3, g / 3, b / 3),
        other => other,
    }
}

/// The end of the run of columns, from `i` on, that have the given style.
pub open spec fn run_end(fg: Seq<Color>, bg: Seq<Color>, f: Color, b: Color, i: int) -> int
    decreases fg.len() - i,
{
    if 0 <= i < fg.len() && fg[i] == f && bg[i] == b {
        run_end(fg, bg, f, b, i + 1)
    } else {
        i
    }
}

pub(crate) proof fn lemma_run_end(fg: Seq<Color>, bg: Seq<Color>, f: Color, b: Color, i: int)
    requires
        0 <= i <= fg.len(),
    ensures
        i <= run_end(fg, bg, f, b, i) <= fg.len(),
    decreases fg.len() - i,
{
    if i < fg.len() && fg[i] == f && bg[i] == b {
        lemma_run_end(fg, bg, f, b, i + 1);
    }
}

/// Columns from the `i`-th on as runs of identical style.
pub open spec fn runs_from(fg: Seq<Color>, bg: Seq<Color>, chars: Seq<char>, i: int) -> Seq<
    SpanView,
>
    decreases fg.len() - i,
    via runs_from_decreases
{
    if i < 0 || i >= fg.len() {
        Seq::empty()
    } else {
        let e = run_end(fg, bg, fg[i], bg[i], i);
        seq![SpanView { text: chars.subrange(i, e), fg: Some(fg[i]), bg: bg[i] }] + runs_from(
            fg,
            bg,
            chars,
            e,
        )
    }
}

#[via_fn]
proof fn runs_from_decreases(fg: Seq<Color>, bg: Seq<Color>, chars: Seq<char>, i: int) {
    if 0 <= i < fg.len() {
        lemma_run_end(fg, bg, fg[i], bg[i], i + 1);
    }
}

/// Merges per-column (fg, bg, char) cells into styled runs, one per stretch of
/// identical style.
pub fn coalesce_columns(fg: &Vec<Color>, bg: &Vec<Color>, chars: &Vec<char>) -> (r: Vec<Span>)
    requires
        fg@.len() == bg@.len() == chars@.len(),
    ensures
        span_views(r@) == runs_from(fg@, bg@, chars@, 0),
{
    let width: usize = fg.len();
    let mut spans: Vec<Span> = Vec::new();
    let mut col: usize = 0;
    assert(span_views(spans@) + runs_from(fg@, bg@, chars@, 0) == runs_from(fg@, bg@, chars@, 0));
    while col < width
        invariant
            col <= width == fg@.len() == bg@.len() == chars@.len(),
            span_views(spans@) + runs_from(fg@, bg@, chars@, col as int) == runs_from(
                fg@,
                bg@,
                chars@,
                0,
            ),
        decreases width - col,
    {
        let f = fg[col];
        let b = bg[col];
        let start: usize = col;
        let mut run = String::new();
        while col < width && fg[col] == f && bg[col] == b
            invariant
                start <= col <= width == fg@.len() == bg@.len() == chars@.len(),
                run@ == chars@.subrange(start as int, col as int),
                run_end(fg@, bg@, f, b, start as int) == run_end(fg@, bg@, f, b, col as int),
            decreases width - col,
        {
            run.push(chars[col]);
            col += 1;
        }
        proof {
            lemma_run_end(fg@, bg@, f, b, start + 1);
        }
        let span = Span { text: run, fg: Some(f), bg: b };
        proof {
            let rest = runs_from(fg@, bg@, chars@, col as int);
            assert(span_views(spans@.push(span)) == span_views(spans@).push(span@));
            assert(span_views(spans@) + (seq![span@] + rest) == span_views(spans@).push(span@)
                + rest);
        }
        spans.push(span);
    }
    assert(runs_from(fg@, bg@, chars@, width as int) == Seq::<SpanView>::empty());
    assert(span_views(spans@) + Seq::<SpanView>::empty() == span_views(spans@));
    spans
}

/// A name cut or filled to a width.
pub open spec fn fitted(name: Seq<char>, width: nat) -> Seq<char> {
    text::padded(text::ellipsized(name, width), width)
}

/// A name cut or filled to a width.
fn fit(name: &str, width: usize) -> (r: String)
    ensures
        r@ == fitted(name@, width as nat),
{
    pad_to(ellipsize(name, width), width)
}

/// The foreground and background of a column, by what it shows.
pub open spec fn cell_colors<T: Scalar>(
    app: App<T>,
    lane: LaneView,
    cell: Option<(ColumnClass, usize)>,
    diff_active: bool,
) -> (Color, Color) {
    match cell {
        None => (Color::White, Color::Black),
        Some((class, pos)) => {
            let base = color_of(app.kernels@[lane.items[pos as int] as int].cat@, pos as int);
            match class {
                ColumnClass::Selected => (Color::Black, Color::White),
                ColumnClass::Added => (Color::Black, diff_added()),
                ColumnClass::Deleted => (Color::White, diff_deleted()),
                ColumnClass::Matched => if diff_active {
                    (Color::Rgb(140, 140, 140), dimmed(base))
                } else {
                    (Color::Black, base)
                },
            }
        },
    }
}

/// The character that the labels of the first `n` items of a kernel lane leave in
/// a column: that of the last item that covers it.
pub open spec fn label_char<T: Scalar>(
    app: App<T>,
    lane: LaneView,
    ts_start: T,
    ts_end: T,
    width: usize,
    n: int,
    col: int,
) -> char
    decreases n,
{
    if n <= 0 {
        ' '
    } else if app.covers(lane, n - 1, ts_start, ts_end, width, col) {
        let (s, e) = app.item_columns(lane, n - 1, ts_start, ts_end, width)->0;
        fitted(app.kernels@[lane.items[n - 1] as int].name@, (e - s) as nat)[col - s]
    } else {
        label_char(app, lane, ts_start, ts_end, width, n - 1, col)
    }
}

impl<T: Scalar> App<T> {
    /// Whether lane `lane_idx` exists and its items do.
    pub open spec fn lane_is_sound(&self, lane_idx: usize) -> bool {
        &&& lane_idx < self.lanes@.len()
        &&& forall|p: int|
            0 <= p < self.lanes@[lane_idx as int]@.items.len() ==> #[trigger] self.lanes@[lane_idx as int]@.items[p]
                < if self.lanes@[lane_idx as int]@.annotations {
                self.annotations@.len()
            } else {
                self.kernels@.len()
            }
    }

    /// Whether differences between two traces are shown.
    pub open spec fn diff_shown(&self) -> bool {
        self.traces@.len() == 2 && self.align_mode == AlignMode::Diff
    }
}

/// Whether differences between two traces are shown.
pub fn shows_diff<T: Scalar>(app: &App<T>) -> (r: bool)
    ensures
        r == app.diff_shown(),
{
    app.traces.len() == 2 && match app.align_mode {
        AlignMode::Diff => true,
        AlignMode::Normal => false,
    }
}

/// Whether `spans` draw a kernel lane: in every column the colour of the item
/// that wins it, and the last label written over it, in runs of one style.
pub open spec fn draws_kernels<T: Scalar>(
    spans: Seq<SpanView>,
    app: App<T>,
    lane_idx: usize,
    ts_start: T,
    ts_end: T,
    width: usize,
) -> bool {
    let lane = app.lanes@[lane_idx as int]@;
    let n = lane.items.len() as int;
    exists|cells: Seq<Option<(ColumnClass, usize)>>|
        {
            &&& #[trigger] cells.len() == width
            &&& forall|col: int|
                0 <= col < width ==> app.wins(
                    lane_idx,
                    lane,
                    ts_start,
                    ts_end,
                    width,
                    app.diff_shown(),
                    n,
                    col,
                    #[trigger] cells[col],
                )
            &&& spans == runs_from(
                Seq::new(
                    width as nat,
                    |col: int| cell_colors(app, lane, cells[col], app.diff_shown()).0,
                ),
                Seq::new(
                    width as nat,
                    |col: int| cell_colors(app, lane, cells[col], app.diff_shown()).1,
                ),
                Seq::new(
                    width as nat,
                    |col: int| label_char(app, lane, ts_start, ts_end, width, n, col),
                ),
                0,
            )
        }
}

/// The foreground and background of a column.
fn pick_cell_colors<T: Scalar>(
    app: &App<T>,
    lane_idx: usize,
    cell: Option<(ColumnClass, usize)>,
    diff_active: bool,
) -> (r: (Color, Color))
    requires
        app.lane_is_sound(lane_idx),
        !app.lanes@[lane_idx as int]@.annotations,
        cell matches Some((_, pos)) ==> pos < app.lanes@[lane_idx as int]@.items.len(),
    ensures
        r == cell_colors(*app, app.lanes@[lane_idx as int]@, cell, diff_active),
{
    match cell {
        None => (Color::White, Color::Black),
        Some((class, pos)) => {
            let items = app.lanes[lane_idx].item_indices();
            assert(app.lanes@[lane_idx as int]@.items[pos as int] < app.kernels@.len());
            let base = kernel_color(app.kernels[items[pos]].cat.as_str(), pos);
            match class {
                ColumnClass::Selected => (Color::Black, Color::White),
                ColumnClass::Added => (Color::Black, Color::Rgb(34, 197, 94)),
                ColumnClass::Deleted => (Color::White, Color::Rgb(220, 38, 38)),
                ColumnClass::Matched => if diff_active {
                    (Color::Rgb(140, 140, 140), dim_color(base))
                } else {
                    (Color::Black, base)
                },
            }
        },
    }
}

/// The characters that the labels of a kernel lane leave in its columns.
fn write_labels<T: Scalar>(
    app: &App<T>,
    lane_idx: usize,
    ts_start: T,
    ts_end: T,
    width: usize,
) -> (r: Vec<char>)
    requires
        app.lane_is_sound(lane_idx),
        !app.lanes@[lane_idx as int]@.annotations,
    ensures
        r@ == Seq::new(
            width as nat,
            |col: int|
                label_char(
                    *app,
                    app.lanes@[lane_idx as int]@,
                    ts_start,
                    ts_end,
                    width,
                    app.lanes@[lane_idx as int]@.items.len() as int,
                    col,
                ),
        ),
{
    let lane = &app.lanes[lane_idx];
    let ghost view = lane@;
    let items = lane.item_indices();
    let mut chars: Vec<char> = Vec::new();
    let mut c: usize = 0;
    while c < width
        invariant
            c <= width,
            chars@.len() == c,
            forall|q: int| 0 <= q < c ==> #[trigger] chars@[q] == ' ',
        decreases width - c,
    {
        chars.push(' ');
        c += 1;
    }
    let mut pos: usize = 0;
    while pos < items.len()
        invariant
            pos <= items@.len(),
            app.lane_is_sound(lane_idx),
            *lane == app.lanes@[lane_idx as int],
            view == lane@,
            !view.annotations,
            items@ == view.items,
            chars@.len() == width,
            forall|q: int|
                0 <= q < width ==> #[trigger] chars@[q] == label_char(
                    *app,
                    view,
                    ts_start,
                    ts_end,
                    width,
                    pos as int,
                    q,
                ),
        decreases items@.len() - pos,
    {
        let (start, end) = app.item_render_span(lane, pos);
        let span = kernel_columns(start, end, ts_start, ts_end, width);
        assert(span == app.item_columns(view, pos as int, ts_start, ts_end, width));
        let ghost before = chars@;
        if let Some((s, e)) = span {
            assert(app.lanes@[lane_idx as int]@.items[pos as int] < app.kernels@.len());
            let label = fit(app.kernels[items[pos]].name.as_str(), e - s);
            proof {
                text::padded_is_exactly_as_wide(
                    text::ellipsized(app.kernels@[items@[pos as int] as int].name@, (e - s) as nat),
                    (e - s) as nat,
                );
            }
            let letters = chars_of(label.as_str());
            let mut o: usize = 0;
            while o < e - s
                invariant
                    o <= e - s,
                    s < e <= width == chars@.len() == before.len(),
                    letters@.len() == e - s,
                    forall|q: int|
                        0 <= q < width && !(s <= q < s + o) ==> #[trigger] chars@[q] == before[q],
                    forall|q: int| s <= q < s + o ==> #[trigger] chars@[q] == letters@[q - s],
                decreases e - s - o,
            {
                chars.set(s + o, letters[o]);
                o += 1;
            }
        }
        pos += 1;
    }
    chars
}

/// Draws a kernel lane.
fn build_kernel_lane<T: Scalar>(
    app: &App<T>,
    lane_idx: usize,
    ts_start: T,
    time_span: T,
    width: usize,
) -> (r: Vec<Span>)
    requires
        app.lane_is_sound(lane_idx),
        !app.lanes@[lane_idx as int]@.annotations,
    ensures
        draws_kernels(
            span_views(r@),
            *app,
            lane_idx,
            ts_start,
            ts_start.plus_spec(time_span),
            width,
        ),
{
    let ts_end = ts_start.plus(time_span);
    let diff_active: bool = shows_diff(app);
    let ghost lane = app.lanes@[lane_idx as int]@;
    let cells = app.lane_column_classes(lane_idx, ts_start, time_span, width, diff_active);
    let mut fg: Vec<Color> = Vec::new();
    let mut bg: Vec<Color> = Vec::new();
    let mut col: usize = 0;
    while col < width
        invariant
            col <= width == cells@.len(),
            app.lane_is_sound(lane_idx),
            lane == app.lanes@[lane_idx as int]@,
            !lane.annotations,
            diff_active == app.diff_shown(),
            forall|col: int|
                0 <= col < width ==> app.wins(
                    lane_idx,
                    lane,
                    ts_start,
                    ts_end,
                    width,
                    diff_active,
                    lane.items.len() as int,
                    col,
                    #[trigger] cells@[col],
                ),
            fg@.len() == col,
            bg@.len() == col,
            forall|q: int|
                0 <= q < col ==> #[trigger] fg@[q] == cell_colors(
                    *app,
                    lane,
                    cells@[q],
                    diff_active,
                ).0,
            forall|q: int|
                0 <= q < col ==> #[trigger] bg@[q] == cell_colors(
                    *app,
                    lane,
                    cells@[q],
                    diff_active,
                ).1,
        decreases width - col,
    {
        assert(app.wins(
            lane_idx,
            lane,
            ts_start,
            ts_end,
            width,
            diff_active,
            lane.items.len() as int,
            col as int,
            cells@[col as int],
        ));
        let (f, b) = pick_cell_colors(app, lane_idx, cells[col], diff_active);
        fg.push(f);
        bg.push(b);
        col += 1;
    }
    let chars = write_labels(app, lane_idx, ts_start, ts_end, width);
    assert(fg@ == Seq::new(
        width as nat,
        |col: int| cell_colors(*app, lane, cells@[col], app.diff_shown()).0,
    ));
    assert(bg@ == Seq::new(
        width as nat,
        |col: int| cell_colors(*app, lane, cells@[col], app.diff_shown()).1,
    ));
    let spans = coalesce_columns(&fg, &bg, &chars);
    assert(cells@.len() == width);
    spans
}

/// A blank run.
pub open spec fn blank(width: nat) -> SpanView {
    SpanView { text: Seq::new(width, |i: int| ' '), fg: None, bg: Color::Black }
}

/// The runs that the first `n` items of an annotation lane draw, and the column
/// behind the last one: an item starts behind the one before it, and is left out
/// where nothing of it is left.
pub open spec fn annotation_runs<T: Scalar>(
    app: App<T>,
    lane_idx: usize,
    lane: LaneView,
    ts_start: T,
    ts_end: T,
    width: usize,
    n: int,
) -> (Seq<SpanView>, int)
    decreases n,
{
    if n <= 0 {
        (Seq::empty(), 0)
    } else {
        let (runs, cursor) = annotation_runs(
            app,
            lane_idx,
            lane,
            ts_start,
            ts_end,
            width,
            n - 1,
        );
        match app.item_columns(lane, n - 1, ts_start, ts_end, width) {
            None => (runs, cursor),
            Some((s, e)) => {
                let from = if s > cursor {
                    s as int
                } else {
                    cursor
                };
                if from >= e {
                    (runs, cursor)
                } else {
                    let gap = if from > cursor {
                        seq![blank((from - cursor) as nat)]
                    } else {
                        Seq::empty()
                    };
                    let selected = lane_idx == app.active_lane && n - 1 == app.selected_item;
                    let label = SpanView {
                        text: fitted(
                            app.annotations@[lane.items[n - 1] as int].name@,
                            (e - from) as nat,
                        ),
                        fg: Some(
                            if selected {
                                Color::Black
                            } else {
                                Color::White
                            },
                        ),
                        bg: if selected {
                            Color::White
                        } else {
                            annotation_background()
                        },
                    };
                    (runs + gap + seq![label], e as int)
                }
            },
        }
    }
}

/// The runs that draw an annotation lane: its items, and what is left of the
/// width blank.
pub open spec fn annotation_lane<T: Scalar>(
    app: App<T>,
    lane_idx: usize,
    ts_start: T,
    ts_end: T,
    width: usize,
) -> Seq<SpanView> {
    let lane = app.lanes@[lane_idx as int]@;
    let (runs, cursor) = annotation_runs(
        app,
        lane_idx,
        lane,
        ts_start,
        ts_end,
        width,
        lane.items.len() as int,
    );
    if cursor < width {
        runs.push(blank((width - cursor) as nat))
    } else {
        runs
    }
}

/// A blank run.
fn blank_span(width: usize) -> (r: Span)
    ensures
        r@ == blank(width as nat),
{
    let mut out = String::new();
    let mut i: usize = 0;
    while i < width
        invariant
            i <= width,
            out@ == Seq::new(i as nat, |j: int| ' '),
        decreases width - i,
    {
        out.push(' ');
        i += 1;
        assert(out@ == Seq::new(i as nat, |j: int| ' '));
    }
    Span { text: out, fg: None, bg: Color::Black }
}

/// Draws an annotation lane: a single background and no diff colouring.
pub fn build_annotation_lane<T: Scalar>(
    app: &App<T>,
    lane_idx: usize,
    ts_start: T,
    time_span: T,
    width: usize,
) -> (r: Vec<Span>)
    requires
        app.lane_is_sound(lane_idx),
        app.lanes@[lane_idx as int]@.annotations,
    ensures
        span_views(r@) == annotation_lane(
            *app,
            lane_idx,
            ts_start,
            ts_start.plus_spec(time_span),
            width,
        ),
{
    let lane = &app.lanes[lane_idx];
    let ghost view = lane@;
    let items = lane.item_indices();
    let ts_end = ts_start.plus(time_span);
    let mut spans: Vec<Span> = Vec::new();
    let mut cursor: usize = 0;
    let mut pos: usize = 0;
    assert(span_views(spans@) == Seq::<SpanView>::empty());
    while pos < items.len()
        invariant
            pos <= items@.len(),
            app.lane_is_sound(lane_idx),
            *lane == app.lanes@[lane_idx as int],
            view == lane@,
            view.annotations,
            items@ == view.items,
            cursor <= width,
            (span_views(spans@), cursor as int) == annotation_runs(
                *app,
                lane_idx,
                view,
                ts_start,
                ts_end,
                width,
                pos as int,
            ),
        decreases items@.len() - pos,
    {
        let (start, end) = app.item_render_span(lane, pos);
        let span = kernel_columns(start, end, ts_start, ts_end, width);
        assert(span == app.item_columns(view, pos as int, ts_start, ts_end, width));
        if let Some((s, e)) = span {
            let from: usize = if s > cursor {
                s
            } else {
                cursor
            };
            if from < e {
                let ghost before = span_views(spans@);
                let ghost gap = if from > cursor {
                    seq![blank((from - cursor) as nat)]
                } else {
                    Seq::empty()
                };
                if from > cursor {
                    let space = blank_span(from - cursor);
                    spans.push(space);
                }
                assert(span_views(spans@) == before + gap);
                assert(app.lanes@[lane_idx as int]@.items[pos as int] < app.annotations@.len());
                let label = fit(app.annotations[items[pos]].name.as_str(), e - from);
                let selected: bool = lane_idx == app.active_lane && pos == app.selected_item;
                let (fg, bg) = if selected {
                    (Color::Black, Color::White)
                } else {
                    (Color::White, Color::Rgb(90, 90, 110))
                };
                let run = Span { text: label, fg: Some(fg), bg };
                assert(span_views(spans@.push(run)) == span_views(spans@).push(run@));
                spans.push(run);
                assert(span_views(spans@) == before + gap + seq![run@]);
                cursor = e;
            }
        }
        pos += 1;
    }
    if cursor < width {
        let space = blank_span(width - cursor);
        assert(span_views(spans@.push(space)) == span_views(spans@).push(space@));
        spans.push(space);
    }
    spans
}

/// Draws a lane: `width` columns for the window that starts at `ts_start` and
/// spans `time_span`.
pub fn build_lane<T: Scalar>(
    app: &App<T>,
    lane_idx: usize,
    ts_start: T,
    time_span: T,
    width: usize,
) -> (r: Vec<Span>)
    requires
        app.lane_is_sound(lane_idx),
    ensures
        app.lanes@[lane_idx as int]@.annotations ==> span_views(r@) == annotation_lane(
            *app,
            lane_idx,
            ts_start,
            ts_start.plus_spec(time_span),
            width,
        ),
        !app.lanes@[lane_idx as int]@.annotations ==> draws_kernels(
            span_views(r@),
            *app,
            lane_idx,
            ts_start,
            ts_start.plus_spec(time_span),
            width,
        ),
{
    if app.lanes[lane_idx].is_annotations() {
        build_annotation_lane(app, lane_idx, ts_start, time_span, width)
    } else {
        build_kernel_lane(app, lane_idx, ts_start, time_span, width)
    }
}

/// How many characters some runs hold.
pub open spec fn total_width(runs: Seq<SpanView>) -> int
    decreases runs.len(),
{
    if runs.len() == 0 {
        0
    } else {
        total_width(runs.drop_last()) + runs.last().text.len()
    }
}

proof fn lemma_total_width_push(runs: Seq<SpanView>, run: SpanView)
    ensures
        total_width(runs.push(run)) == total_width(runs) + run.text.len(),
{
    assert(runs.push(run).drop_last() == runs);
}

/// Whether a colour is one that annotation lanes use.
pub open spec fn annotation_color(c: Color) -> bool {
    c == Color::Black || c == Color::White || c == annotation_background()
}

proof fn lemma_annotation_runs<T: Scalar>(
    app: App<T>,
    lane_idx: usize,
    lane: LaneView,
    ts_start: T,
    ts_end: T,
    width: usize,
    n: int,
)
    requires
        0 <= n <= lane.items.len(),
    ensures
        ({
            let (runs, cursor) = annotation_runs(
                app,
                lane_idx,
                lane,
                ts_start,
                ts_end,
                width,
                n,
            );
            &&& 0 <= cursor <= width
            &&& total_width(runs) == cursor
            &&& forall|i: int| 0 <= i < runs.len() ==> annotation_color((#[trigger] runs[i]).bg)
        }),
    decreases n,
{
    if n > 0 {
        lemma_annotation_runs(app, lane_idx, lane, ts_start, ts_end, width, n - 1);
        let (before, cursor) = annotation_runs(
            app,
            lane_idx,
            lane,
            ts_start,
            ts_end,
            width,
            n - 1,
        );
        match app.item_columns(lane, n - 1, ts_start, ts_end, width) {
            None => {},
            Some((s, e)) => {
                let from = if s > cursor {
                    s as int
                } else {
                    cursor
                };
                if from < e {
                    let (runs, _) = annotation_runs(
                        app,
                        lane_idx,
                        lane,
                        ts_start,
                        ts_end,
                        width,
                        n,
                    );
                    let label = runs.last();
                    text::padded_is_exactly_as_wide(
                        text::ellipsized(
                            app.annotations@[lane.items[n - 1] as int].name@,
                            (e - from) as nat,
                        ),
                        (e - from) as nat,
                    );
                    if from > cursor {
                        let gap = blank((from - cursor) as nat);
                        lemma_total_width_push(before, gap);
                        lemma_total_width_push(before.push(gap), label);
                        assert(before + seq![gap] + seq![label] == before.push(gap).push(label));
                    } else {
                        lemma_total_width_push(before, label);
                        assert(before + Seq::<SpanView>::empty() + seq![label] == before.push(
                            label,
                        ));
                    }
                }
            },
        }
    }
}

/// An annotation lane fills its width exactly, and never uses the colours of
/// differences.
pub proof fn annotation_lanes_are_plain<T: Scalar>(
    app: App<T>,
    lane_idx: usize,
    ts_start: T,
    ts_end: T,
    width: usize,
)
    ensures
        total_width(annotation_lane(app, lane_idx, ts_start, ts_end, width)) == width,
        forall|i: int|
            0 <= i < annotation_lane(app, lane_idx, ts_start, ts_end, width).len() ==> {
                let bg = (#[trigger] annotation_lane(app, lane_idx, ts_start, ts_end, width)[i]).bg;
                bg != diff_added() && bg != diff_deleted()
            },
{
    let lane = app.lanes@[lane_idx as int]@;
    let n = lane.items.len() as int;
    lemma_annotation_runs(app, lane_idx, lane, ts_start, ts_end, width, n);
    let (runs, cursor) = annotation_runs(app, lane_idx, lane, ts_start, ts_end, width, n);
    if cursor < width {
        lemma_total_width_push(runs, blank((width - cursor) as nat));
    }
}

} // verus!
