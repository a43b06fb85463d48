//! What the panels around the lanes tell.
use vstd::prelude::*;
use crate::app::sequence;
use crate::app::{App, Sequence};
use crate::lane::LaneView;
use crate::panels::{self, Popup};
use crate::scalar::Scalar;
use crate::text;
use crate::trace::{AnnotationEvent, KernelEvent};

verus! {

/// Whether labelled values tell a value under a label: somewhere, and nothing else under it.
pub open spec fn tells(
    lines: Seq<Seq<(Seq<char>, Seq<char>)>>,
    label: Seq<char>,
    value: Seq<char>,
) -> bool {
    &&& exists|l: int, i: int| #[trigger] entry(lines, l, i) == (label, value) && exists_at(lines, l, i)
    &&& forall|l: int, i: int|
        exists_at(lines, l, i) && (#[trigger] entry(lines, l, i)).0 == label ==> entry(lines, l, i).1
            == value
}

/// The entry at a place.
pub open spec fn entry(lines: Seq<Seq<(Seq<char>, Seq<char>)>>, l: int, i: int) -> (
    Seq<char>,
    Seq<char>,
) {
    lines[l][i]
}

/// Whether there is an entry at a place.
pub open spec fn exists_at(lines: Seq<Seq<(Seq<char>, Seq<char>)>>, l: int, i: int) -> bool {
    0 <= l < lines.len() && 0 <= i < lines[l].len()
}

/// A time with three decimal places and its unit.
pub open spec fn as_micros<T: Scalar>(t: T) -> Seq<char> {
    t.show_places_spec(3) + " \u{3bc}s"@
}

proof fn lemma_labels_differ()
    ensures
        "Name: "@.len() == 6 && "Name: "@[0] == 'N',
        "Stream: "@.len() == 8 && "Stream: "@[1] == 't' && "Stream: "@[0] == 'S',
        "Device: "@.len() == 8 && "Device: "@[0] == 'D',
        "Start: "@.len() == 7 && "Start: "@[0] == 'S',
        "End: "@.len() == 5 && "End: "@[0] == 'E',
        "Dur: "@.len() == 5 && "Dur: "@[0] == 'D',
        "Grid: "@.len() == 6 && "Grid: "@[0] == 'G',
        "Block: "@.len() == 7 && "Block: "@[0] == 'B',
        "Shared Mem: "@.len() == 12 && "Shared Mem: "@[0] == 'S',
        "Regs/Thread: "@.len() == 13,
        "Correlation: "@.len() == 13 && "Correlation: "@[0] == 'C',
        "Regs/Thread: "@[0] == 'R',
{
    reveal_strlit("Name: ");
    reveal_strlit("Stream: ");
    reveal_strlit("Device: ");
    reveal_strlit("Start: ");
    reveal_strlit("End: ");
    reveal_strlit("Dur: ");
    reveal_strlit("Grid: ");
    reveal_strlit("Block: ");
    reveal_strlit("Shared Mem: ");
    reveal_strlit("Regs/Thread: ");
    reveal_strlit("Correlation: ");
}

/// The details of a kernel tell each of its values under its own label, and `N/A` where it
/// has none.
#[verifier::rlimit(40)]
pub proof fn kernel_details_tell_each_value<T: Scalar>(k: KernelEvent<T>)
    ensures
        ({
            let d = panels::kernel_details(k);
            &&& tells(d, "Name: "@, k.name@)
            &&& tells(d, "Stream: "@, "cuda:"@ + text::decimal_text(k.stream as nat))
            &&& tells(d, "Device: "@, text::decimal_text(k.device as nat))
            &&& tells(d, "Start: "@, as_micros(k.ts))
            &&& tells(d, "End: "@, as_micros(k.ts.plus_spec(k.dur)))
            &&& tells(d, "Dur: "@, as_micros(k.dur))
            &&& tells(
                d,
                "Grid: "@,
                match k.grid {
                    Some(g) => g@,
                    None => "N/A"@,
                },
            )
            &&& tells(
                d,
                "Block: "@,
                match k.block {
                    Some(b) => b@,
                    None => "N/A"@,
                },
            )
            &&& tells(
                d,
                "Shared Mem: "@,
                match k.shared_memory {
                    Some(n) => text::decimal_text(n as nat) + " B"@,
                    None => "N/A"@,
                },
            )
            &&& tells(
                d,
                "Regs/Thread: "@,
                match k.registers_per_thread {
                    Some(n) => text::decimal_text(n as nat),
                    None => "N/A"@,
                },
            )
            &&& tells(
                d,
                "Correlation: "@,
                match k.correlation {
                    Some(n) => text::decimal_text(n as nat),
                    None => "N/A"@,
                },
            )
        }),
{
    lemma_labels_differ();
    let d = panels::kernel_details(k);
    assert(d.len() == 6);
    assert(d[0].len() == 1 && d[1].len() == 2 && d[2].len() == 3 && d[3].len() == 2 && d[4].len()
        == 2 && d[5].len() == 1);
    match k.registers_per_thread {
        Some(n) => {
            assert(text::decimal_text(n as nat) + Seq::<char>::empty() =~= text::decimal_text(
                n as nat,
            ));
        },
        None => {},
    }
    match k.correlation {
        Some(n) => {
            assert(text::decimal_text(n as nat) + Seq::<char>::empty() =~= text::decimal_text(
                n as nat,
            ));
        },
        None => {},
    }
    assert(entry(d, 0, 0).0 == "Name: "@ && exists_at(d, 0, 0));
    assert(entry(d, 1, 0).0 == "Stream: "@ && exists_at(d, 1, 0));
    assert(entry(d, 1, 1).0 == "Device: "@ && exists_at(d, 1, 1));
    assert(entry(d, 2, 0).0 == "Start: "@ && exists_at(d, 2, 0));
    assert(entry(d, 2, 1).0 == "End: "@ && exists_at(d, 2, 1));
    assert(entry(d, 2, 2).0 == "Dur: "@ && exists_at(d, 2, 2));
    assert(entry(d, 3, 0).0 == "Grid: "@ && exists_at(d, 3, 0));
    assert(entry(d, 3, 1).0 == "Block: "@ && exists_at(d, 3, 1));
    assert(entry(d, 4, 0).0 == "Shared Mem: "@ && exists_at(d, 4, 0));
    assert(entry(d, 4, 1).0 == "Regs/Thread: "@ && exists_at(d, 4, 1));
    assert(entry(d, 5, 0).0 == "Correlation: "@ && exists_at(d, 5, 0));
}

/// The details of an annotation tell each of its values under its own label.
pub proof fn annotation_details_tell_each_value<T: Scalar>(a: AnnotationEvent<T>)
    ensures
        ({
            let d = panels::annotation_details(a);
            &&& tells(d, "Name: "@, a.name@)
            &&& tells(d, "Stream: "@, "cuda:"@ + text::decimal_text(a.stream as nat))
            &&& tells(d, "Start: "@, as_micros(a.ts))
            &&& tells(d, "End: "@, as_micros(a.ts.plus_spec(a.dur)))
            &&& tells(d, "Dur: "@, as_micros(a.dur))
        }),
{
    lemma_labels_differ();
    let d = panels::annotation_details(a);
    assert(d.len() == 3);
    assert(d[0].len() == 1 && d[1].len() == 1 && d[2].len() == 3);
    assert(entry(d, 0, 0).0 == "Name: "@ && exists_at(d, 0, 0));
    assert(entry(d, 1, 0).0 == "Stream: "@ && exists_at(d, 1, 0));
    assert(entry(d, 2, 0).0 == "Start: "@ && exists_at(d, 2, 0));
    assert(entry(d, 2, 1).0 == "End: "@ && exists_at(d, 2, 1));
    assert(entry(d, 2, 2).0 == "Dur: "@ && exists_at(d, 2, 2));
}

/// A text at the right end of its field.
pub open spec fn right_aligned(s: Seq<char>, field: Seq<char>, width: int) -> bool {
    &&& s.len() <= width ==> field.len() == width
    &&& s.len() <= field.len()
    &&& field.skip(field.len() - s.len()) == s
    &&& forall|i: int| 0 <= i < field.len() - s.len() ==> #[trigger] field[i] == ' '
    &&& s.len() > width ==> field == s
}

/// The rows of the sequence popup are rows of the sequence that follow each other: from
/// the one scrolled to, or so that the last one closes the popup. As many are shown as fit,
/// each with its number, its name and its median, in columns.
pub proof fn popups_show_the_rows_scrolled_to<T: Scalar>(
    popup: Popup,
    seq: Sequence<T>,
    status: Option<String>,
    width: int,
    height: int,
    i: int,
)
    requires
        panels::shows_sequence(popup, seq, status, width, height),
        0 <= i < popup.rows@.len(),
    ensures
        popup.rows@.len() == if seq.rows@.len() < rows_that_fit(height, status is Some) {
            seq.rows@.len() as int
        } else {
            rows_that_fit(height, status is Some)
        },
        exists|first: int| #[trigger]
            row_from(popup, seq, first, i, name_width(width)) && 0 <= first && first
                + popup.rows@.len() <= seq.rows@.len() && if seq.scroll + popup.rows@.len()
                <= seq.rows@.len() {
                first == seq.scroll
            } else {
                first + popup.rows@.len() == seq.rows@.len()
            },
{
    let viewport = panels::popup_rows(height, status is Some);
    let first = panels::popup_start(seq, viewport);
    assert(text::texts(popup.rows@).len() == popup.rows@.len());
    assert(text::texts(popup.rows@)[i] == popup.rows@[i]@);
    let row = popup.rows@[i]@;
    let name_w = panels::name_column(width);
    let at = first + i;
    let number = text::flush_right(text::decimal_text(seq.rows@[at].0 as nat), 5);
    let name = text::flush_left(text::ellipsized(seq.rows@[at].1@, name_w as nat), name_w);
    let med = text::flush_right(sequence::median_at(seq, at).show_places_spec(2), 12);
    assert(row == number + "  "@ + name + med);
    lemma_flush_right(text::decimal_text(seq.rows@[at].0 as nat), 5);
    lemma_flush_right(sequence::median_at(seq, at).show_places_spec(2), 12);
    assert(name.len() == name_w);
    assert(name == crate::ui::fitted(seq.rows@[at].1@, name_w as nat));
    assert(row_from(popup, seq, first, i, name_width(width)));
}

/// How many rows of a sequence fit into a popup: its header, a blank line, the count of
/// repetitions and the line of keys take one each, and so does a status. One row always
/// fits.
pub open spec fn rows_that_fit(height: int, has_status: bool) -> int {
    let left = height - 4 - (if has_status {
        1int
    } else {
        0
    });
    if left < 1 {
        1
    } else {
        left
    }
}

/// How wide the column of names is: what the number, the gap behind it and the median
/// leave, but eight columns at least.
pub open spec fn name_width(width: int) -> int {
    if width < 5 + 2 + 8 + 12 {
        8
    } else {
        width - 5 - 2 - 12
    }
}

/// Whether row `i` of a popup shows row `first + i` of a sequence.
pub open spec fn row_from<T: Scalar>(
    popup: Popup,
    seq: Sequence<T>,
    first: int,
    i: int,
    name_width: int,
) -> bool {
    is_row(popup.rows@[i]@, seq, first + i, name_width)
}

proof fn lemma_flush_right(s: Seq<char>, width: int)
    requires
        0 <= width,
    ensures
        right_aligned(s, text::flush_right(s, width), width),
{
    let f = text::flush_right(s, width);
    assert(f.skip(f.len() - s.len()) == s);
    if s.len() > width {
        assert(f == s);
    }
}

/// Whether a line shows row `at` of a sequence: its number right-aligned in five columns,
/// its name cut or filled to its column, and its median right-aligned in twelve.
pub open spec fn is_row<T: Scalar>(line: Seq<char>, seq: Sequence<T>, at: int, name_width: int) -> bool {
    exists|number: Seq<char>, med: Seq<char>|
        {
            &&& line == #[trigger] (number + "  "@ + crate::ui::fitted(
                seq.rows@[at].1@,
                name_width as nat,
            ) + med)
            &&& right_aligned(text::decimal_text(seq.rows@[at].0 as nat), number, 5)
            &&& right_aligned(median_of_row(seq, at).show_places_spec(2), med, 12)
        }
}

/// The median of a row, or zero before one is known.
pub open spec fn median_of_row<T: Scalar>(seq: Sequence<T>, at: int) -> T {
    if seq.median is Some && at < (seq.median->0)@.len() {
        (seq.median->0)@[at].1
    } else {
        T::whole_spec(0)
    }
}

/// A copied sequence has a line for each of its rows, in their order: the number, the name
/// and the median, with tabs between them.
pub proof fn copies_have_a_line_for_each_row<T: Scalar>(seq: Sequence<T>, n: int)
    requires
        0 <= n <= seq.rows@.len(),
    ensures
        exists|lines: Seq<Seq<char>>|
            {
                &&& lines.len() == n
                &&& sequence::sequence_lines(seq, n) == #[trigger] text::joined(lines, Seq::empty())
                &&& forall|i: int|
                    0 <= i < n ==> #[trigger] lines[i] == text::decimal_text(
                        seq.rows@[i].0 as nat,
                    ) + "\t"@ + seq.rows@[i].1@ + "\t"@ + median_of_row(seq, i).show_places_spec(2)
                        + "\n"@
            },
    decreases n,
{
    let lines = Seq::new(n as nat, |i: int| sequence::sequence_line(seq, i));
    lemma_lines_join(seq, n);
    assert(sequence::sequence_lines(seq, n) == text::joined(lines, Seq::empty()));
}

proof fn lemma_lines_join<T: Scalar>(seq: Sequence<T>, n: int)
    requires
        0 <= n,
    ensures
        sequence::sequence_lines(seq, n) == text::joined(
            Seq::new(n as nat, |i: int| sequence::sequence_line(seq, i)),
            Seq::empty(),
        ),
    decreases n,
{
    let lines = Seq::new(n as nat, |i: int| sequence::sequence_line(seq, i));
    if n > 0 {
        lemma_lines_join(seq, n - 1);
        let before = Seq::new((n - 1) as nat, |i: int| sequence::sequence_line(seq, i));
        assert(lines.drop_last() == before);
        assert(lines.last() == sequence::sequence_line(seq, n - 1));
        if n == 1 {
            assert(sequence::sequence_lines(seq, 0) == Seq::<char>::empty());
            assert(Seq::<char>::empty() + lines[0] == lines[0]);
        } else {
            assert(text::joined(before, Seq::empty()) + Seq::<char>::empty() == text::joined(
                before,
                Seq::empty(),
            ));
        }
    }
}

/// The label of every lane fits the label column, which is no wider than the widest label
/// and two columns more.
pub proof fn the_label_column_fits_every_label<T: Scalar>(app: App<T>, l: int)
    requires
        0 <= l < app.lanes@.len(),
    ensures
        label_width(app, app.lanes@[l]@) + 2 <= panels::label_column(app),
        exists|k: int|
            0 <= k < app.lanes@.len() && panels::label_column(app) == #[trigger] label_width(
                app,
                app.lanes@[k]@,
            ) + 2,
{
    lemma_widest(app, app.lanes@.len() as int);
    assert(label_width(app, app.lanes@[l]@) <= panels::widest_label(
        app,
        app.lanes@.len() as int,
    ));
}

/// How wide the label of a lane is: that of its trace and a space where there are several
/// traces, and the name of its stream where it shows kernels.
pub open spec fn label_width<T: Scalar>(app: App<T>, lane: LaneView) -> int {
    (if app.traces@.len() > 1 && lane.trace_id < app.traces@.len() {
        crate::labels::short_label(app.labels(), lane.trace_id as int).len() + 1
    } else {
        0
    }) + (if lane.annotations {
        0
    } else {
        ("cuda:"@ + text::decimal_text(lane.stream_id as nat)).len() as int
    })
}

proof fn lemma_widest<T: Scalar>(app: App<T>, n: int)
    requires
        0 <= n <= app.lanes@.len(),
    ensures
        forall|l: int|
            0 <= l < n ==> #[trigger] label_width(app, app.lanes@[l]@) <= panels::widest_label(
                app,
                n,
            ),
        n > 0 ==> exists|k: int|
            0 <= k < n && panels::widest_label(app, n) == #[trigger] label_width(
                app,
                app.lanes@[k]@,
            ),
    decreases n,
{
    if n > 0 {
        lemma_widest(app, n - 1);
        assert(label_width(app, app.lanes@[n - 1]@) == panels::label_need(app, app.lanes@[n - 1]@));
        if n == 1 {
            assert(panels::widest_label(app, 0) == 0);
            assert(panels::widest_label(app, 1) == label_width(app, app.lanes@[0]@));
        }
    }
}

/// A lane is labelled with the short label of its trace where there are several, and with
/// its stream where it shows kernels.
pub proof fn lanes_are_labelled_by_trace_and_stream<T: Scalar>(
    app: App<T>,
    lane: LaneView,
    short_labels: Seq<String>,
)
    ensures
        ({
            let label = panels::lane_label_of(app, lane, short_labels);
            let stream = "cuda:"@ + text::decimal_text(lane.stream_id as nat);
            let own = short_labels[lane.trace_id as int]@;
            &&& app.traces@.len() <= 1 && !lane.annotations ==> label == stream
            &&& app.traces@.len() <= 1 && lane.annotations ==> label.len() == 0
            &&& app.traces@.len() > 1 && !lane.annotations ==> label == own + " "@ + stream
            &&& app.traces@.len() > 1 && lane.annotations && (own.len() > 0
                && !text::white_space(own.last())) ==> label == own
        }),
{
    let own = short_labels[lane.trace_id as int]@;
    reveal_strlit(" ");
    if app.traces@.len() > 1 {
        let prefix = own + " "@;
        assert(prefix.drop_last() == own);
        assert(prefix.last() == ' ');
        assert(text::white_space(' '));
        reveal_with_fuel(text::end_trimmed, 3);
    } else {
        assert(Seq::<char>::empty() + ("cuda:"@ + text::decimal_text(lane.stream_id as nat))
            == "cuda:"@ + text::decimal_text(lane.stream_id as nat));
    }
}

/// The sequence popup takes seven tenths of the screen: what it shows of a sequence and what
/// goes around it, its border among that, fill as many whole lines of them as there are.
pub proof fn the_popup_takes_seven_tenths_of_the_screen(height: int, has_status: bool)
    requires
        0 <= height,
    ensures
        ({
            let rows = panels::viewport_of(height, has_status);
            let around = 2 + 4 + (if has_status {
                1int
            } else {
                0
            });
            &&& rows >= 1
            &&& rows > 1 ==> 10 * (rows + around) <= 7 * height < 10 * (rows + around + 1)
            &&& rows == 1 ==> 7 * height < 10 * (rows + around + 1)
        }),
{
}

} // verus!
