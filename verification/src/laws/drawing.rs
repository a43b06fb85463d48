//! What the columns of a drawn lane show.
use vstd::prelude::*;
use crate::app::columns;
use crate::app::App;
use crate::lane::{ColumnClass, KernelDiff, LaneView};
use crate::scalar::{self, Scalar};
use crate::text;
use crate::ui::{self, Color, SpanView};

verus! {

/// Whether rounding to whole numbers and counting them go together as they do for real
/// numbers.
pub open spec fn rounds_like_reals<T: Scalar>() -> bool {
    &&& forall|x: T, n: u64|
        #![trigger T::whole_spec(n).at_most_spec(x.rounded_down_spec())]
        T::whole_spec(n).at_most_spec(x.rounded_down_spec()) <==> T::whole_spec(n).at_most_spec(x)
    &&& forall|x: T, n: u64|
        #![trigger x.rounded_up_spec().at_most_spec(T::whole_spec(n))]
        x.rounded_up_spec().at_most_spec(T::whole_spec(n)) <==> x.at_most_spec(T::whole_spec(n))
    &&& forall|x: T, n: u64|
        #![trigger x.rounded_down_spec().index_spec(), T::whole_spec(n)]
        T::whole_spec(0).at_most_spec(x.rounded_down_spec()) && n <= usize::MAX ==> (n
            <= x.rounded_down_spec().index_spec() <==> T::whole_spec(n).at_most_spec(
            x.rounded_down_spec(),
        ))
    &&& forall|x: T, n: u64|
        #![trigger x.rounded_up_spec().index_spec(), T::whole_spec(n)]
        n < usize::MAX ==> (x.rounded_up_spec().index_spec() <= n
            <==> x.rounded_up_spec().at_most_spec(T::whole_spec(n)))
    &&& T::whole_spec(0).index_spec() == 0
}

/// Where in a window of `width` columns a time lies, from its left edge.
pub open spec fn place<T: Scalar>(t: T, ts_start: T, ts_end: T, width: usize) -> T {
    let span = if ts_end.minus_spec(ts_start).at_most_spec(T::whole_spec(1)) {
        T::whole_spec(1)
    } else {
        ts_end.minus_spec(ts_start)
    };
    t.minus_spec(ts_start).over_spec(span).times_spec(T::whole_spec(width as u64))
}

/// A span takes the columns that it reaches into: its first column holds its start, or is
/// the first of the window, and its last column holds its end, or is the last of the window.
/// It takes one column at least, and none where it is outside of the window.
pub proof fn spans_take_the_columns_they_reach_into<T: Scalar>(
    start: T,
    end: T,
    ts_start: T,
    ts_end: T,
    width: usize,
)
    requires
        scalar::counts_like_reals::<T>(),
        rounds_like_reals::<T>(),
        width < u32::MAX,
    ensures
        end.at_most_spec(ts_start) || ts_end.at_most_spec(start) ==> columns::columns_of(
            start,
            end,
            ts_start,
            ts_end,
            width,
        ) is None,
        columns::columns_of(start, end, ts_start, ts_end, width) is None ==> end.at_most_spec(
            ts_start,
        ) || ts_end.at_most_spec(start) || width == 0 || T::whole_spec(
            width as u64,
        ).at_most_spec(place(start, ts_start, ts_end, width)),
        columns::columns_of(start, end, ts_start, ts_end, width) matches Some((a, b)) ==> {
            let left = place(start, ts_start, ts_end, width);
            let right = place(end, ts_start, ts_end, width);
            &&& a < b <= width
            &&& ts_start.at_most_spec(start) && T::whole_spec(0).at_most_spec(left)
                ==> T::whole_spec(a as u64).at_most_spec(left) && left.less_spec(
                T::whole_spec((a + 1) as u64),
            )
            &&& start.at_most_spec(ts_start) ==> a == 0
            &&& end.at_most_spec(ts_end) && b < width && b > a + 1 ==> right.at_most_spec(
                T::whole_spec(b as u64),
            ) && T::whole_spec((b - 1) as u64).less_spec(right)
            &&& end.at_most_spec(ts_end) && b == a + 1 && b < width ==> right.at_most_spec(
                T::whole_spec(b as u64),
            )
        },
{
    let span = ts_end.minus_spec(ts_start).larger_spec(T::whole_spec(1));
    let from = start.larger_spec(ts_start);
    let to = end.smaller_spec(ts_end);
    let left = columns::column_of(from, ts_start, span, width);
    let right = columns::column_of(to, ts_start, span, width);
    if start.at_most_spec(ts_start) {
        assert(from == ts_start);
        assert(ts_start.minus_spec(ts_start) == T::whole_spec(0));
        assert(left == T::whole_spec(0).over_spec(span).times_spec(T::whole_spec(width as u64)));
    } else {
        assert(from == start);
        assert(left == place(start, ts_start, ts_end, width));
    }
    let down = left.rounded_down_spec();
    let clamped = down.larger_spec(T::whole_spec(0));
    let a = clamped.index_spec();
    let b = right.rounded_up_spec().index_spec();
    assert(T::whole_spec(0).at_most_spec(down) ==> clamped == down);
    assert(!T::whole_spec(0).at_most_spec(down) ==> clamped == T::whole_spec(0));
    if end.at_most_spec(ts_end) {
        assert(to == end);
        assert(right == place(end, ts_start, ts_end, width));
    }
    if a < width {
        assert(T::whole_spec(0).at_most_spec(left) ==> T::whole_spec(0).at_most_spec(down));
        assert(T::whole_spec(0).at_most_spec(down) ==> (T::whole_spec(a as u64).at_most_spec(down)
            && !T::whole_spec((a + 1) as u64).at_most_spec(down)));
        assert(T::whole_spec(a as u64).at_most_spec(down) <==> T::whole_spec(
            a as u64,
        ).at_most_spec(left));
        assert(T::whole_spec((a + 1) as u64).at_most_spec(down) <==> T::whole_spec(
            (a + 1) as u64,
        ).at_most_spec(left));
    } else if width > 0 {
        assert(T::whole_spec(width as u64).at_most_spec(down));
        assert(T::whole_spec(width as u64).at_most_spec(left));
    }
    if b <= width {
        let up = right.rounded_up_spec();
        assert(up.at_most_spec(T::whole_spec(b as u64)));
        assert(b > 0 ==> !up.at_most_spec(T::whole_spec((b - 1) as u64)));
    }
    let least = (a + 1) as u64;
    assert(b <= a + 1 && a < width ==> right.rounded_up_spec().at_most_spec(
        T::whole_spec(least),
    ));
    assert(right.rounded_up_spec().at_most_spec(T::whole_spec(least)) <==> right.at_most_spec(
        T::whole_spec(least),
    ));
}

/// The foreground, the background and the character that runs leave in a column.
pub open spec fn cell_at(spans: Seq<SpanView>, col: int) -> (Option<Color>, Color, char)
    decreases spans.len(),
{
    if spans.len() == 0 {
        (None, Color::Black, ' ')
    } else if col < spans[0].text.len() {
        (spans[0].fg, spans[0].bg, spans[0].text[col])
    } else {
        cell_at(spans.skip(1), col - spans[0].text.len())
    }
}

/// How many columns runs take.
pub open spec fn total_width(spans: Seq<SpanView>) -> int
    decreases spans.len(),
{
    if spans.len() == 0 {
        0
    } else {
        spans[0].text.len() + total_width(spans.skip(1))
    }
}

proof fn lemma_run_style(fg: Seq<Color>, bg: Seq<Color>, f: Color, b: Color, i: int, col: int)
    requires
        0 <= i <= col < ui::run_end(fg, bg, f, b, i),
    ensures
        col < fg.len(),
        fg[col] == f,
        bg[col] == b,
    decreases fg.len() - i,
{
    if i < fg.len() && fg[i] == f && bg[i] == b {
        ui::lemma_run_end(fg, bg, f, b, i + 1);
        if i < col {
            lemma_run_style(fg, bg, f, b, i + 1, col);
        }
    }
}

proof fn lemma_runs(fg: Seq<Color>, bg: Seq<Color>, chars: Seq<char>, i: int)
    requires
        0 <= i <= fg.len(),
        fg.len() == bg.len() == chars.len(),
    ensures
        total_width(ui::runs_from(fg, bg, chars, i)) == fg.len() - i,
        forall|col: int|
            i <= col < fg.len() ==> #[trigger] cell_at(ui::runs_from(fg, bg, chars, i), col - i)
                == (Some(fg[col]), bg[col], chars[col]),
    decreases fg.len() - i,
{
    let runs = ui::runs_from(fg, bg, chars, i);
    if i < fg.len() {
        let e = ui::run_end(fg, bg, fg[i], bg[i], i);
        ui::lemma_run_end(fg, bg, fg[i], bg[i], i + 1);
        assert(runs.skip(1) == ui::runs_from(fg, bg, chars, e));
        assert(runs[0].text == chars.subrange(i, e));
        lemma_runs(fg, bg, chars, e);
        assert forall|col: int| i <= col < fg.len() implies #[trigger] cell_at(runs, col - i) == (
            Some(fg[col]),
            bg[col],
            chars[col],
        ) by {
            if col < e {
                lemma_run_style(fg, bg, fg[i], bg[i], i, col);
            } else {
                assert(cell_at(runs.skip(1), (col - i) - (e - i)) == cell_at(
                    ui::runs_from(fg, bg, chars, e),
                    col - e,
                ));
            }
        }
    }
}

/// Putting columns together into runs keeps the colours and the character of every column.
pub proof fn runs_keep_every_column(
    fg: Seq<Color>,
    bg: Seq<Color>,
    chars: Seq<char>,
    col: int,
)
    requires
        fg.len() == bg.len() == chars.len(),
        0 <= col < fg.len(),
    ensures
        cell_at(ui::runs_from(fg, bg, chars, 0), col) == (Some(fg[col]), bg[col], chars[col]),
        total_width(ui::runs_from(fg, bg, chars, 0)) == fg.len(),
{
    lemma_runs(fg, bg, chars, 0);
    assert(cell_at(ui::runs_from(fg, bg, chars, 0), col - 0) == (
        Some(fg[col]),
        bg[col],
        chars[col],
    ));
}

/// From where to where item `pos` of a lane is drawn on the time axis: where it was moved
/// to, else where it is.
pub open spec fn drawn_span<T: Scalar>(app: App<T>, lane: LaneView, pos: int) -> (T, T) {
    let i = lane.items[pos] as int;
    if lane.annotations {
        match app.annotation_render_overrides@[i] {
            Some(span) => span,
            None => (
                app.annotations@[i].ts,
                app.annotations@[i].ts.plus_spec(app.annotations@[i].dur),
            ),
        }
    } else {
        let start = match app.kernel_render_overrides@[i] {
            Some(start) => start,
            None => app.kernels@[i].ts,
        };
        (start, start.plus_spec(app.kernels@[i].dur))
    }
}

/// Whether item `pos` of a lane takes column `col` of a window.
pub open spec fn takes<T: Scalar>(
    app: App<T>,
    lane: LaneView,
    pos: int,
    window: (T, T),
    width: usize,
    col: int,
) -> bool {
    let span = drawn_span(app, lane, pos);
    columns::columns_of(span.0, span.1, window.0, window.1, width) matches Some((a, b)) && a <= col
        < b
}

/// Whether the items of a lane are events that have their places.
pub open spec fn items_exist<T: Scalar>(app: App<T>, lane: LaneView) -> bool {
    forall|p: int|
        0 <= p < lane.items.len() ==> (#[trigger] lane.items[p]) < if lane.annotations {
            app.annotations@.len()
        } else {
            app.kernels@.len()
        }
}

pub(crate) proof fn lemma_takes<T: Scalar>(
    app: App<T>,
    lane: LaneView,
    pos: int,
    window: (T, T),
    width: usize,
    col: int,
)
    requires
        app.consistent(),
        items_exist(app, lane),
        0 <= pos < lane.items.len(),
    ensures
        takes(app, lane, pos, window, width, col) == app.covers(
            lane,
            pos,
            window.0,
            window.1,
            width,
            col,
        ),
        app.item_span(lane.annotations, lane.items[pos] as int) == drawn_span(app, lane, pos),
{
    assert(lane.items[pos] < if lane.annotations {
        app.annotations@.len()
    } else {
        app.kernels@.len()
    });
}

/// A column of a kernel lane is blank where no kernel is. The selected kernel is shown
/// inverted, before any other. In diff mode a kernel of the first trace alone is red and one
/// of the second alone green, red before green, and both before the kernels of both traces;
/// of these the first is shown, in its own colour, darkened in diff mode.
pub proof fn kernel_lanes_show_what_matters_most<T: Scalar>(
    spans: Seq<SpanView>,
    app: App<T>,
    lane_idx: usize,
    window: (T, T),
    width: usize,
    col: int,
    pos: int,
)
    requires
        app.consistent(),
        lane_idx < app.lanes@.len(),
        !app.lanes@[lane_idx as int]@.annotations,
        items_exist(app, app.lanes@[lane_idx as int]@),
        ui::draws_kernels(spans, app, lane_idx, window.0, window.1, width),
        0 <= col < width,
        0 <= pos < app.lanes@[lane_idx as int]@.items.len(),
    ensures
        total_width(spans) == width,
        ({
            let lane = app.lanes@[lane_idx as int]@;
            let n = lane.items.len();
            let (fg, bg, c) = cell_at(spans, col);
            let diff = |p: int| app.kernel_diff_status@[lane.items[p] as int];
            let compared = app.traces@.len() == 2 && app.align_mode
                == crate::lane::AlignMode::Diff;
            let selected = |p: int| lane_idx == app.active_lane && p == app.selected_item;
            &&& (forall|q: int|
                0 <= q < n ==> !#[trigger] takes(app, lane, q, window, width, col)) ==> bg
                == Color::Black && c == ' '
            &&& takes(app, lane, pos, window, width, col) ==> {
                &&& selected(pos) ==> fg == Some(Color::Black) && bg == Color::White
                &&& !selected(pos) && compared && diff(pos) == Some(KernelDiff::Deleted)
                    && (forall|q: int|
                    0 <= q < n && #[trigger] takes(app, lane, q, window, width, col)
                        ==> !selected(q)) ==> bg == Color::Rgb(220, 38, 38)
                &&& !selected(pos) && compared && diff(pos) == Some(KernelDiff::Added) && (forall|
                    q: int,
                |
                    0 <= q < n && #[trigger] takes(app, lane, q, window, width, col)
                        ==> !selected(q) && diff(q) != Some(KernelDiff::Deleted)) ==> bg
                    == Color::Rgb(34, 197, 94)
                &&& (forall|q: int|
                    0 <= q < n && #[trigger] takes(app, lane, q, window, width, col)
                        ==> !selected(q) && (compared ==> diff(q) is None) && pos <= q) ==> {
                    let own = ui::color_of(app.kernels@[lane.items[pos] as int].cat@, pos);
                    bg == if compared {
                        ui::dimmed(own)
                    } else {
                        own
                    }
                }
            }
        }),
{
    let lane = app.lanes@[lane_idx as int]@;
    let n = lane.items.len() as int;
    let cells = choose|cells: Seq<Option<(ColumnClass, usize)>>|
        {
            &&& #[trigger] cells.len() == width
            &&& forall|col: int|
                0 <= col < width ==> app.wins(
                    lane_idx,
                    lane,
                    window.0,
                    window.1,
                    width,
                    app.diff_shown(),
                    n,
                    col,
                    #[trigger] cells[col],
                )
            &&& spans == ui::runs_from(
                Seq::new(
                    width as nat,
                    |col: int| ui::cell_colors(app, lane, cells[col], app.diff_shown()).0,
                ),
                Seq::new(
                    width as nat,
                    |col: int| ui::cell_colors(app, lane, cells[col], app.diff_shown()).1,
                ),
                Seq::new(
                    width as nat,
                    |col: int| ui::label_char(app, lane, window.0, window.1, width, n, col),
                ),
                0,
            )
        };
    let fg = Seq::new(
        width as nat,
        |col: int| ui::cell_colors(app, lane, cells[col], app.diff_shown()).0,
    );
    let bg = Seq::new(
        width as nat,
        |col: int| ui::cell_colors(app, lane, cells[col], app.diff_shown()).1,
    );
    let chars = Seq::new(
        width as nat,
        |col: int| ui::label_char(app, lane, window.0, window.1, width, n, col),
    );
    assert(spans == ui::runs_from(fg, bg, chars, 0));
    runs_keep_every_column(fg, bg, chars, col);
    assert(app.wins(
        lane_idx,
        lane,
        window.0,
        window.1,
        width,
        app.diff_shown(),
        n,
        col,
        cells[col],
    ));
    assert forall|q: int| 0 <= q < n implies #[trigger] app.covers(
        lane,
        q,
        window.0,
        window.1,
        width,
        col,
    ) == takes(app, lane, q, window, width, col) && app.diff_of(lane.items[q] as int)
        == app.kernel_diff_status@[lane.items[q] as int] by {
        lemma_takes(app, lane, q, window, width, col);
        assert(lane.items[q] < app.kernels@.len());
    }
    lemma_takes(app, lane, pos, window, width, col);
    if forall|q: int| 0 <= q < n ==> !#[trigger] takes(app, lane, q, window, width, col) {
        lemma_no_label(app, lane, window, width, n, col);
        if cells[col] is Some {
            let p = (cells[col]->0).1;
            assert(takes(app, lane, p as int, window, width, col));
        }
    }
}

proof fn lemma_no_label<T: Scalar>(
    app: App<T>,
    lane: LaneView,
    window: (T, T),
    width: usize,
    n: int,
    col: int,
)
    requires
        forall|q: int|
            0 <= q < n ==> !#[trigger] app.covers(lane, q, window.0, window.1, width, col),
    ensures
        ui::label_char(app, lane, window.0, window.1, width, n, col) == ' ',
    decreases n,
{
    if n > 0 {
        assert(!app.covers(lane, n - 1, window.0, window.1, width, col));
        lemma_no_label(app, lane, window, width, n - 1, col);
    }
}

proof fn lemma_label<T: Scalar>(
    app: App<T>,
    lane: LaneView,
    window: (T, T),
    width: usize,
    n: int,
    pos: int,
    col: int,
)
    requires
        0 <= pos < n,
        app.covers(lane, pos, window.0, window.1, width, col),
        forall|q: int|
            pos < q < n ==> !#[trigger] app.covers(lane, q, window.0, window.1, width, col),
    ensures
        ({
            let (s, e) = app.item_columns(lane, pos, window.0, window.1, width)->0;
            ui::label_char(app, lane, window.0, window.1, width, n, col) == ui::fitted(
                app.kernels@[lane.items[pos] as int].name@,
                (e - s) as nat,
            )[col - s]
        }),
    decreases n,
{
    if pos < n - 1 {
        assert(!app.covers(lane, n - 1, window.0, window.1, width, col));
        lemma_label(app, lane, window, width, n - 1, pos, col);
    }
}

/// The columns of a kernel that no later one is drawn over show its name, from its first
/// column on.
pub proof fn kernel_lanes_show_names<T: Scalar>(
    spans: Seq<SpanView>,
    app: App<T>,
    lane_idx: usize,
    window: (T, T),
    width: usize,
    col: int,
    pos: int,
)
    requires
        app.consistent(),
        lane_idx < app.lanes@.len(),
        !app.lanes@[lane_idx as int]@.annotations,
        items_exist(app, app.lanes@[lane_idx as int]@),
        ui::draws_kernels(spans, app, lane_idx, window.0, window.1, width),
        0 <= col < width,
        0 <= pos < app.lanes@[lane_idx as int]@.items.len(),
        takes(app, app.lanes@[lane_idx as int]@, pos, window, width, col),
        forall|q: int|
            pos < q < app.lanes@[lane_idx as int]@.items.len() ==> !#[trigger] takes(
                app,
                app.lanes@[lane_idx as int]@,
                q,
                window,
                width,
                col,
            ),
    ensures
        ({
            let lane = app.lanes@[lane_idx as int]@;
            let span = drawn_span(app, lane, pos);
            let name = app.kernels@[lane.items[pos] as int].name@;
            columns::columns_of(span.0, span.1, window.0, window.1, width) matches Some((a, b))
                && (name.len() <= b - a ==> cell_at(spans, col).2 == if col - a < name.len() {
                name[col - a]
            } else {
                ' '
            }) && (name.len() > b - a && col + 1 < b ==> cell_at(spans, col).2 == name[col - a])
        }),
{
    let lane = app.lanes@[lane_idx as int]@;
    let n = lane.items.len() as int;
    let cells = choose|cells: Seq<Option<(ColumnClass, usize)>>|
        {
            &&& #[trigger] cells.len() == width
            &&& spans == ui::runs_from(
                Seq::new(
                    width as nat,
                    |col: int| ui::cell_colors(app, lane, cells[col], app.diff_shown()).0,
                ),
                Seq::new(
                    width as nat,
                    |col: int| ui::cell_colors(app, lane, cells[col], app.diff_shown()).1,
                ),
                Seq::new(
                    width as nat,
                    |col: int| ui::label_char(app, lane, window.0, window.1, width, n, col),
                ),
                0,
            )
        };
    let fg = Seq::new(
        width as nat,
        |col: int| ui::cell_colors(app, lane, cells[col], app.diff_shown()).0,
    );
    let bg = Seq::new(
        width as nat,
        |col: int| ui::cell_colors(app, lane, cells[col], app.diff_shown()).1,
    );
    let chars = Seq::new(
        width as nat,
        |col: int| ui::label_char(app, lane, window.0, window.1, width, n, col),
    );
    assert(spans == ui::runs_from(fg, bg, chars, 0));
    runs_keep_every_column(fg, bg, chars, col);
    assert forall|q: int| pos <= q < n implies #[trigger] app.covers(
        lane,
        q,
        window.0,
        window.1,
        width,
        col,
    ) == takes(app, lane, q, window, width, col) by {
        lemma_takes(app, lane, q, window, width, col);
    }
    lemma_takes(app, lane, pos, window, width, col);
    lemma_label(app, lane, window, width, n, pos, col);
    let name = app.kernels@[lane.items[pos] as int].name@;
    let span = drawn_span(app, lane, pos);
    let (a, b) = columns::columns_of(span.0, span.1, window.0, window.1, width)->0;
    fitted_texts_start_with_the_text(name, (b - a) as nat, col - a);
}

/// A text cut or filled to a width has that width: a short text is followed by blanks, and
/// all but the last character of a cut one are its own.
pub proof fn fitted_texts_start_with_the_text(s: Seq<char>, width: nat, i: int)
    requires
        0 <= i < width,
    ensures
        ui::fitted(s, width).len() == width,
        s.len() <= width ==> ui::fitted(s, width)[i] == if i < s.len() {
            s[i]
        } else {
            ' '
        },
        s.len() > width && i + 1 < width ==> ui::fitted(s, width)[i] == s[i],
        s.len() > width && i + 1 == width && width > 1 ==> ui::fitted(s, width)[i] == '\u{2026}',
{
    let cut = text::ellipsized(s, width);
    assert(cut.len() <= width);
}

/// Kernels take eight colours in turn, no two of them alike, and copies and fills have
/// colours of their own.
pub proof fn neighbours_differ_in_colour(cat: Seq<char>, i: int, j: int)
    requires
        0 <= i,
        0 <= j,
    ensures
        cat != "gpu_memcpy"@ && cat != "gpu_memset"@ ==> (ui::color_of(cat, i) == ui::color_of(
            cat,
            j,
        ) <==> i % 8 == j % 8),
        cat != "gpu_memcpy"@ && cat != "gpu_memset"@ ==> ui::color_of(cat, i) != ui::color_of(
            "gpu_memcpy"@,
            j,
        ) && ui::color_of(cat, i) != ui::color_of("gpu_memset"@, j),
        ui::color_of("gpu_memcpy"@, i) == ui::color_of("gpu_memcpy"@, j),
        ui::color_of("gpu_memset"@, i) == ui::color_of("gpu_memset"@, j),
        ui::color_of("gpu_memcpy"@, i) != ui::color_of("gpu_memset"@, j),
{
    reveal_strlit("gpu_memcpy");
    reveal_strlit("gpu_memset");
    assert("gpu_memcpy"@[7] != "gpu_memset"@[7]);
}

/// A darkened colour has a third of each channel.
pub proof fn darkening_takes_two_thirds(r: u8, g: u8, b: u8)
    ensures
        ui::dimmed(Color::Rgb(r, g, b)) matches Color::Rgb(x, y, z) && 3 * x <= r < 3 * x + 3
            && 3 * y <= g < 3 * y + 3 && 3 * z <= b < 3 * z + 3,
{
}

/// The columns of item `pos` of a lane.
pub open spec fn columns_taken<T: Scalar>(
    app: App<T>,
    lane: LaneView,
    pos: int,
    window: (T, T),
    width: usize,
) -> Option<(usize, usize)> {
    let span = drawn_span(app, lane, pos);
    columns::columns_of(span.0, span.1, window.0, window.1, width)
}

/// The first column of item `pos` of a lane.
pub open spec fn starts_at<T: Scalar>(
    app: App<T>,
    lane: LaneView,
    pos: int,
    window: (T, T),
    width: usize,
) -> int {
    (columns_taken(app, lane, pos, window, width)->0).0 as int
}

/// Whether the items of a lane start one behind the other on the screen.
pub open spec fn starts_ascend<T: Scalar>(
    app: App<T>,
    lane: LaneView,
    window: (T, T),
    width: usize,
) -> bool {
    forall|p: int, q: int|
        #![trigger columns_taken(app, lane, p, window, width), columns_taken(
            app,
            lane,
            q,
            window,
            width,
        )]
        0 <= p <= q < lane.items.len() && columns_taken(app, lane, p, window, width) is Some
            && columns_taken(app, lane, q, window, width) is Some ==> starts_at(
            app,
            lane,
            p,
            window,
            width,
        ) <= starts_at(app, lane, q, window, width)
}

/// What the columns before `upto` of an annotation lane show of its first `n` items.
spec fn shows_first<T: Scalar>(
    spans: Seq<SpanView>,
    app: App<T>,
    lane_idx: usize,
    lane: LaneView,
    window: (T, T),
    width: usize,
    n: int,
    col: int,
) -> bool {
    let (fg, bg, c) = cell_at(spans, col);
    &&& (forall|q: int| 0 <= q < n ==> !#[trigger] takes(app, lane, q, window, width, col)) ==> fg
        is None && bg == Color::Black && c == ' '
    &&& forall|p: int|
        0 <= p < n && #[trigger] takes(app, lane, p, window, width, col) && (forall|q: int|
            0 <= q < p ==> !#[trigger] takes(app, lane, q, window, width, col)) ==> if lane_idx
            == app.active_lane && p == app.selected_item {
            fg == Some(Color::Black) && bg == Color::White
        } else {
            fg == Some(Color::White) && bg == Color::Rgb(90, 90, 110)
        }
}

/// Whether one of the first `n` items takes a column.
spec fn taken_before<T: Scalar>(
    app: App<T>,
    lane: LaneView,
    n: int,
    window: (T, T),
    width: usize,
    col: int,
) -> bool {
    exists|q: int| 0 <= q < n && #[trigger] takes(app, lane, q, window, width, col)
}

proof fn lemma_cell_before(spans: Seq<SpanView>, more: Seq<SpanView>, col: int)
    requires
        0 <= col < total_width(spans),
    ensures
        cell_at(spans + more, col) == cell_at(spans, col),
    decreases spans.len(),
{
    if spans.len() > 0 {
        let all = spans + more;
        assert(all.skip(1) == spans.skip(1) + more);
        if col >= spans[0].text.len() {
            lemma_cell_before(spans.skip(1), more, col - spans[0].text.len());
        }
    }
}

proof fn lemma_cell_behind(spans: Seq<SpanView>, more: Seq<SpanView>, col: int)
    requires
        total_width(spans) <= col,
    ensures
        cell_at(spans + more, col) == cell_at(more, col - total_width(spans)),
        0 <= total_width(spans),
    decreases spans.len(),
{
    if spans.len() > 0 {
        let all = spans + more;
        assert(all.skip(1) == spans.skip(1) + more);
        lemma_width_counts(spans.skip(1));
        lemma_cell_behind(spans.skip(1), more, col - spans[0].text.len());
    } else {
        assert(spans + more == more);
    }
}

proof fn lemma_width_counts(spans: Seq<SpanView>)
    ensures
        0 <= total_width(spans),
    decreases spans.len(),
{
    if spans.len() > 0 {
        lemma_width_counts(spans.skip(1));
    }
}

proof fn lemma_width_adds(spans: Seq<SpanView>, more: Seq<SpanView>)
    ensures
        total_width(spans + more) == total_width(spans) + total_width(more),
    decreases spans.len(),
{
    if spans.len() > 0 {
        let all = spans + more;
        assert(all.skip(1) == spans.skip(1) + more);
        lemma_width_adds(spans.skip(1), more);
    } else {
        assert(spans + more == more);
    }
}

proof fn lemma_single(span: SpanView, col: int)
    ensures
        total_width(seq![span]) == span.text.len(),
        col < span.text.len() ==> cell_at(seq![span], col) == (span.fg, span.bg, span.text[col]),
{
    let one = seq![span];
    assert(one.skip(1) == Seq::<SpanView>::empty());
    reveal_with_fuel(total_width, 2);
}

#[verifier::rlimit(40)]
proof fn lemma_annotation_runs<T: Scalar>(
    app: App<T>,
    lane_idx: usize,
    lane: LaneView,
    window: (T, T),
    width: usize,
    n: int,
)
    requires
        app.consistent(),
        items_exist(app, lane),
        lane.annotations,
        0 <= n <= lane.items.len(),
        starts_ascend(app, lane, window, width),
    ensures
        ({
            let (runs, cursor) = ui::annotation_runs(
                app,
                lane_idx,
                lane,
                window.0,
                window.1,
                width,
                n,
            );
            &&& 0 <= cursor <= width
            &&& total_width(runs) == cursor
            &&& forall|col: int|
                0 <= col < cursor ==> #[trigger] shows_first(
                    runs,
                    app,
                    lane_idx,
                    lane,
                    window,
                    width,
                    n,
                    col,
                )
            &&& forall|col: int, q: int|
                0 <= q < n && cursor <= col ==> !#[trigger] takes(
                    app,
                    lane,
                    q,
                    window,
                    width,
                    col,
                )
            &&& forall|m: int|
                n <= m < lane.items.len() && (#[trigger] columns_taken(
                    app,
                    lane,
                    m,
                    window,
                    width,
                )) is Some ==> forall|col: int|
                    starts_at(app, lane, m, window, width) <= col < cursor ==> #[trigger] taken_before(app, lane, n, window, width, col)
        }),
    decreases n,
{
    let all = ui::annotation_runs(app, lane_idx, lane, window.0, window.1, width, n);
    if n > 0 {
        lemma_annotation_runs(app, lane_idx, lane, window, width, n - 1);
        lemma_takes(app, lane, n - 1, window, width, 0);
        let (runs, cursor) = ui::annotation_runs(
            app,
            lane_idx,
            lane,
            window.0,
            window.1,
            width,
            n - 1,
        );
        let own = columns_taken(app, lane, n - 1, window, width);
        assert forall|col: int|
            taken_before(app, lane, n - 1, window, width, col) implies #[trigger] taken_before(
            app,
            lane,
            n,
            window,
            width,
            col,
        ) by {
            let q = choose|q: int|
                0 <= q < n - 1 && #[trigger] takes(app, lane, q, window, width, col);
            assert(takes(app, lane, q, window, width, col));
        }
        assert(own == app.item_columns(lane, n - 1, window.0, window.1, width));
        match own {
            None => {
                assert(all == (runs, cursor));
                assert forall|col: int| 0 <= col < cursor implies #[trigger] shows_first(
                    all.0,
                    app,
                    lane_idx,
                    lane,
                    window,
                    width,
                    n,
                    col,
                ) by {
                    assert(shows_first(runs, app, lane_idx, lane, window, width, n - 1, col));
                    assert(!takes(app, lane, n - 1, window, width, col));
                }
                lemma_still_taken(app, lane, window, width, n, cursor);
            },
            Some((s, e)) => {
                let from = if s > cursor {
                    s as int
                } else {
                    cursor
                };
                lemma_hidden(runs, app, lane_idx, lane, window, width, n, cursor);
                if from >= e {
                    assert(all == (runs, cursor));
                    lemma_still_taken(app, lane, window, width, n, cursor);
                } else {
                    let gap = if from > cursor {
                        seq![ui::blank((from - cursor) as nat)]
                    } else {
                        Seq::empty()
                    };
                    let label = all.0.last();
                    assert(all.0 == runs + gap + seq![label]);
                    fitted_texts_start_with_the_text(
                        app.annotations@[lane.items[n - 1] as int].name@,
                        (e - from) as nat,
                        0,
                    );
                    assert(label.text.len() == e - from);
                    lemma_single(label, 0);
                    lemma_single(ui::blank((from - cursor) as nat), 0);
                    lemma_width_adds(runs, gap);
                    lemma_width_adds(runs + gap, seq![label]);
                    assert(total_width(gap) == from - cursor);
                    assert forall|col: int| 0 <= col < e implies #[trigger] shows_first(
                        all.0,
                        app,
                        lane_idx,
                        lane,
                        window,
                        width,
                        n,
                        col,
                    ) by {
                        if col < cursor {
                            lemma_cell_before(runs + gap, seq![label], col);
                            lemma_cell_before(runs, gap, col);
                            assert(shows_first(runs, app, lane_idx, lane, window, width, n, col));
                        } else if col < from {
                            lemma_cell_before(runs + gap, seq![label], col);
                            lemma_cell_behind(runs, gap, col);
                            lemma_single(ui::blank((from - cursor) as nat), col - cursor);
                            assert(forall|q: int|
                                0 <= q < n ==> !#[trigger] takes(
                                    app,
                                    lane,
                                    q,
                                    window,
                                    width,
                                    col,
                                ));
                        } else {
                            lemma_cell_behind(runs + gap, seq![label], col);
                            lemma_single(label, col - from);
                            assert(takes(app, lane, n - 1, window, width, col));
                        }
                    }
                    assert forall|m: int|
                        n <= m < lane.items.len() && (#[trigger] columns_taken(
                            app,
                            lane,
                            m,
                            window,
                            width,
                        )) is Some implies forall|col: int|
                        starts_at(app, lane, m, window, width) <= col < e ==> #[trigger] taken_before(app, lane, n, window, width, col) by {
                        assert forall|col: int|
                            starts_at(app, lane, m, window, width) <= col
                                < e implies #[trigger] taken_before(app, lane, n, window, width, col) by {
                            assert(own is Some);
                            if col < cursor {
                                assert(taken_before(app, lane, n - 1, window, width, col));
                            } else if col >= s {
                                assert(takes(app, lane, n - 1, window, width, col));
                            }
                        }
                    }
                }
            },
        }
    }
}

proof fn lemma_still_taken<T: Scalar>(
    app: App<T>,
    lane: LaneView,
    window: (T, T),
    width: usize,
    n: int,
    cursor: int,
)
    requires
        0 < n,
        forall|m: int|
            n - 1 <= m < lane.items.len() && (#[trigger] columns_taken(
                app,
                lane,
                m,
                window,
                width,
            )) is Some ==> forall|col: int|
                starts_at(app, lane, m, window, width) <= col < cursor ==> #[trigger] taken_before(
                    app,
                    lane,
                    n - 1,
                    window,
                    width,
                    col,
                ),
    ensures
        forall|m: int|
            n <= m < lane.items.len() && (#[trigger] columns_taken(
                app,
                lane,
                m,
                window,
                width,
            )) is Some ==> forall|col: int|
                starts_at(app, lane, m, window, width) <= col < cursor ==> #[trigger] taken_before(
                    app,
                    lane,
                    n,
                    window,
                    width,
                    col,
                ),
{
    assert forall|m: int|
        n <= m < lane.items.len() && (#[trigger] columns_taken(
            app,
            lane,
            m,
            window,
            width,
        )) is Some implies forall|col: int|
        starts_at(app, lane, m, window, width) <= col < cursor ==> #[trigger] taken_before(
            app,
            lane,
            n,
            window,
            width,
            col,
        ) by {
        assert forall|col: int|
            starts_at(app, lane, m, window, width) <= col
                < cursor implies #[trigger] taken_before(app, lane, n, window, width, col) by {
            assert(taken_before(app, lane, n - 1, window, width, col));
            let q = choose|q: int|
                0 <= q < n - 1 && #[trigger] takes(app, lane, q, window, width, col);
            assert(takes(app, lane, q, window, width, col));
        }
    }
}

proof fn lemma_hidden<T: Scalar>(
    runs: Seq<SpanView>,
    app: App<T>,
    lane_idx: usize,
    lane: LaneView,
    window: (T, T),
    width: usize,
    n: int,
    cursor: int,
)
    requires
        0 < n <= lane.items.len(),
        forall|col: int|
            0 <= col < cursor ==> #[trigger] shows_first(
                runs,
                app,
                lane_idx,
                lane,
                window,
                width,
                n - 1,
                col,
            ),
        columns_taken(app, lane, n - 1, window, width) is Some,
        forall|col: int|
            starts_at(app, lane, n - 1, window, width) <= col < cursor ==> #[trigger] taken_before(app, lane, n - 1, window, width, col),
    ensures
        forall|col: int|
            0 <= col < cursor ==> #[trigger] shows_first(
                runs,
                app,
                lane_idx,
                lane,
                window,
                width,
                n,
                col,
            ),
{
    assert forall|col: int| 0 <= col < cursor implies #[trigger] shows_first(
        runs,
        app,
        lane_idx,
        lane,
        window,
        width,
        n,
        col,
    ) by {
        assert(shows_first(runs, app, lane_idx, lane, window, width, n - 1, col));
        if takes(app, lane, n - 1, window, width, col) {
            assert(starts_at(app, lane, n - 1, window, width) <= col);
            assert(taken_before(app, lane, n - 1, window, width, col));
            let q = choose|q: int|
                0 <= q < n - 1 && #[trigger] takes(app, lane, q, window, width, col);
            assert(takes(app, lane, q, window, width, col));
        }
    }
}

/// A column of an annotation lane, whose annotations start one behind the other, is blank
/// where no annotation is; elsewhere it shows the first annotation that reaches into it, on
/// the background of annotations, or inverted where that one is selected.
pub proof fn annotation_lanes_show_the_first_annotation<T: Scalar>(
    app: App<T>,
    lane_idx: usize,
    window: (T, T),
    width: usize,
    col: int,
    pos: int,
)
    requires
        app.consistent(),
        lane_idx < app.lanes@.len(),
        app.lanes@[lane_idx as int]@.annotations,
        items_exist(app, app.lanes@[lane_idx as int]@),
        starts_ascend(app, app.lanes@[lane_idx as int]@, window, width),
        0 <= col < width,
    ensures
        ({
            let lane = app.lanes@[lane_idx as int]@;
            let n = lane.items.len();
            let spans = ui::annotation_lane(app, lane_idx, window.0, window.1, width);
            let (fg, bg, c) = cell_at(spans, col);
            &&& total_width(spans) == width
            &&& (forall|q: int|
                0 <= q < n ==> !#[trigger] takes(app, lane, q, window, width, col)) ==> fg is None
                && bg == Color::Black && c == ' '
            &&& 0 <= pos < n && takes(app, lane, pos, window, width, col) && (forall|q: int|
                0 <= q < pos ==> !#[trigger] takes(app, lane, q, window, width, col)) ==> if lane_idx
                == app.active_lane && pos == app.selected_item {
                fg == Some(Color::Black) && bg == Color::White
            } else {
                fg == Some(Color::White) && bg == Color::Rgb(90, 90, 110)
            }
        }),
{
    let lane = app.lanes@[lane_idx as int]@;
    let n = lane.items.len() as int;
    lemma_annotation_runs(app, lane_idx, lane, window, width, n);
    let (runs, cursor) = ui::annotation_runs(
        app,
        lane_idx,
        lane,
        window.0,
        window.1,
        width,
        n,
    );
    let spans = ui::annotation_lane(app, lane_idx, window.0, window.1, width);
    if cursor < width {
        let rest = ui::blank((width - cursor) as nat);
        assert(spans == runs + seq![rest]);
        lemma_single(rest, col - cursor);
        lemma_width_adds(runs, seq![rest]);
        if col < cursor {
            lemma_cell_before(runs, seq![rest], col);
            assert(shows_first(runs, app, lane_idx, lane, window, width, n, col));
        } else {
            lemma_cell_behind(runs, seq![rest], col);
        }
    } else {
        assert(shows_first(runs, app, lane_idx, lane, window, width, n, col));
    }
}

} // verus!
