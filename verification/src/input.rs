//! What keys and the mouse do.
use vstd::prelude::*;
use crate::app::alignment;
use crate::app::{App, Sequence};
use crate::panels::{self, sequence_viewport};
use crate::scalar::Scalar;
use crate::text::owned;

verus! {

/// A key of the keyboard, as far as the viewer knows it.
#[derive(Debug, Clone, Copy, PartialEq, Eq, Structural)]
pub enum Key {
    Char(char),
    Enter { shift: bool },
    Esc,
    Backspace,
    Tab,
    BackTab,
    Up,
    Down,
    Left,
    Right,
    PageUp,
    PageDown,
    Other,
}

/// What is left to do outside the state of the viewer.
#[derive(Debug, Clone)]
pub enum Action {
    /// Nothing.
    Stay,
    /// End the program.
    Quit,
    /// Copy a text to the clipboard.
    Copy(String),
    /// Write a text to a file.
    Export { file_name: String, csv: String },
}

/// What a key of the main view does.
pub enum Command {
    Quit,
    SearchStart,
    Sequence,
    ToggleMode,
    Export,
    PrevItem,
    NextItem,
    ZoomIn,
    ZoomOut,
    NextLane,
    PrevLane,
    Nothing,
}

/// What a key of the main view does; letters count in upper and lower case.
pub open spec fn main_command(key: Key) -> Command {
    match key {
        Key::Char(c) => if c == 'q' || c == 'Q' {
            Command::Quit
        } else if c == '/' {
            Command::SearchStart
        } else if c == 'n' || c == 'N' {
            Command::Sequence
        } else if c == 'g' || c == 'G' {
            Command::ToggleMode
        } else if c == 'e' || c == 'E' {
            Command::Export
        } else if c == 'a' || c == 'A' {
            Command::PrevItem
        } else if c == 'd' || c == 'D' {
            Command::NextItem
        } else if c == 'w' || c == 'W' {
            Command::ZoomIn
        } else if c == 's' || c == 'S' {
            Command::ZoomOut
        } else {
            Command::Nothing
        },
        Key::Esc => Command::Quit,
        Key::Left => Command::PrevItem,
        Key::Right => Command::NextItem,
        Key::Up => Command::ZoomIn,
        Key::Down => Command::ZoomOut,
        Key::Tab => Command::NextLane,
        Key::BackTab => Command::PrevLane,
        _ => Command::Nothing,
    }
}

/// What a key of the main view does.
fn command_of(key: Key) -> (r: Command)
    ensures
        r == main_command(key),
{
    match key {
        Key::Char(c) => if c == 'q' || c == 'Q' {
            Command::Quit
        } else if c == '/' {
            Command::SearchStart
        } else if c == 'n' || c == 'N' {
            Command::Sequence
        } else if c == 'g' || c == 'G' {
            Command::ToggleMode
        } else if c == 'e' || c == 'E' {
            Command::Export
        } else if c == 'a' || c == 'A' {
            Command::PrevItem
        } else if c == 'd' || c == 'D' {
            Command::NextItem
        } else if c == 'w' || c == 'W' {
            Command::ZoomIn
        } else if c == 's' || c == 'S' {
            Command::ZoomOut
        } else {
            Command::Nothing
        },
        Key::Esc => Command::Quit,
        Key::Left => Command::PrevItem,
        Key::Right => Command::NextItem,
        Key::Up => Command::ZoomIn,
        Key::Down => Command::ZoomOut,
        Key::Tab => Command::NextLane,
        Key::BackTab => Command::PrevLane,
        _ => Command::Nothing,
    }
}

impl<T: Scalar> App<T> {
    /// The sequence popup after it was scrolled to `scroll`.
    pub open spec fn scrolled(self, scroll: usize) -> App<T> {
        App {
            sequence: match self.sequence {
                Some(seq) => Some(Sequence { scroll, ..seq }),
                None => None,
            },
            ..self
        }
    }
}

/// Scrolling up by `amount` from `scroll`.
pub open spec fn scrolled_up(scroll: usize, amount: int) -> usize {
    if scroll > amount {
        (scroll - amount) as usize
    } else {
        0
    }
}

/// Whether a key leads from one state to another, and to an action, while the
/// sequence popup is open. Nothing but the popup reacts.
pub open spec fn popup_step<T: Scalar>(
    before: App<T>,
    key: Key,
    term_height: usize,
    after: App<T>,
    action: Action,
) -> bool {
    let seq = before.sequence->0;
    let viewport = panels::viewport_of(term_height as int, before.sequence_status is Some) as usize;
    match key {
        Key::Esc => action is Stay && after == (App {
            sequence: None,
            sequence_status: None,
            ..before
        }),
        Key::Up => action is Stay && after == before.scrolled(scrolled_up(seq.scroll, 1)),
        Key::Down => action is Stay && after == before.scrolled(
            crate::app::sequence::scrolled_down(seq, 1, viewport),
        ),
        Key::PageUp => action is Stay && after == before.scrolled(
            scrolled_up(seq.scroll, viewport as int),
        ),
        Key::PageDown => action is Stay && after == before.scrolled(
            crate::app::sequence::scrolled_down(seq, viewport, viewport),
        ),
        Key::Char(c) => if c == 'n' || c == 'N' {
            action is Stay && after == (App { sequence: None, sequence_status: None, ..before })
        } else if c == 'y' || c == 'Y' {
            after == before && (action matches Action::Copy(text) && text@
                == "idx\tkernel name\tmedian\n"@ + crate::app::sequence::sequence_lines(
                seq,
                seq.rows@.len() as int,
            ))
        } else {
            action is Stay && after == before
        },
        _ => action is Stay && after == before,
    }
}

/// Whether a key leads from one state to another while a search is active:
/// characters make the query, Enter goes through the matches, Tab keeps the
/// current match and Esc gives the search up.
pub open spec fn search_step<T: Scalar>(before: App<T>, key: Key, after: App<T>) -> bool {
    match key {
        Key::Esc => {
            &&& after.search_query@.len() == 0
            &&& after.search_matches@.len() == 0
            &&& after == (App {
                search_active: false,
                search_query: after.search_query,
                search_no_match: false,
                search_matches: after.search_matches,
                search_match_idx: 0,
                ..before
            })
        },
        Key::Tab => after == (App { search_active: false, ..before }),
        Key::Enter { shift } => after == if before.search_matches@.len() == 0 {
            before
        } else if shift {
            before.on_match(
                ((before.search_match_idx + before.search_matches@.len() - 1)
                    % before.search_matches@.len() as int) as usize,
            )
        } else {
            before.on_match(
                ((before.search_match_idx + 1) % before.search_matches@.len() as int) as usize,
            )
        },
        Key::Backspace => before.applied(
            if before.search_query@.len() > 0 {
                before.search_query@.drop_last()
            } else {
                before.search_query@
            },
            after,
        ),
        Key::Char(c) => before.applied(before.search_query@.push(c), after),
        _ => after == before,
    }
}

/// Whether a key of the main view leads from one state to another, and to an
/// action.
pub open spec fn main_step<T: Scalar>(
    before: App<T>,
    key: Key,
    after: App<T>,
    action: Action,
) -> bool {
    match main_command(key) {
        Command::Quit => action is Quit && after == before,
        Command::SearchStart => {
            &&& action is Stay
            &&& after.search_query@.len() == 0
            &&& after.search_matches@.len() == 0
            &&& after == (App {
                search_active: true,
                search_query: after.search_query,
                search_no_match: false,
                search_matches: after.search_matches,
                search_match_idx: 0,
                ..before
            })
        },
        Command::Sequence => action is Stay && if before.can_start_sequence() {
            &&& after == (App { sequence: after.sequence, sequence_status: None, ..before })
            &&& after.sequence is Some
            &&& before.starts(after.sequence->0)
        } else {
            after == before
        },
        Command::ToggleMode => action is Stay && if before.traces@.len() == 2 {
            let mode = alignment::other_mode(before.align_mode);
            &&& after == before.redrawn(after, mode)
            &&& after.alignment() == before.alignment_in(mode)
        } else {
            after == before
        },
        Command::Export => match before.kernel_lane_items(before.active_lane) {
            Some(items) => after == before && (action matches Action::Export { file_name, csv }
                && is_lane_file(before, file_name@) && csv@ == crate::csv::kernel_table_header()
                + before.lane_lines(items, items.len() as int)),
            None => action is Stay && (after.status matches Some(s) && s@
                == "no kernel lane to export"@) && after == (App {
                status: after.status,
                ..before
            }),
        },
        Command::PrevItem => action is Stay && after == (App {
            selected_item: if before.selected_item > 0 {
                (before.selected_item - 1) as usize
            } else {
                0
            },
            ..before
        }),
        Command::NextItem => action is Stay && after == (App {
            selected_item: if before.selected_item + 1 < before.active_len() {
                (before.selected_item + 1) as usize
            } else {
                before.selected_item
            },
            ..before
        }),
        Command::ZoomIn => action is Stay && after == (App {
            zoom_level: before.zoom_level.times_spec(T::ratio_spec(15, 10)),
            ..before
        }),
        Command::ZoomOut => action is Stay && after == (App {
            zoom_level: before.zoom_level.over_spec(T::ratio_spec(15, 10)).larger_spec(
                T::ratio_spec(1, 10),
            ),
            ..before
        }),
        Command::NextLane => action is Stay && after == if before.lanes@.len() <= 1 {
            before
        } else {
            before.in_lane(((before.active_lane + 1) % before.lanes@.len() as int) as usize)
        },
        Command::PrevLane => action is Stay && after == if before.lanes@.len() <= 1 {
            before
        } else {
            before.in_lane(
                ((before.active_lane + before.lanes@.len() - 1)
                    % before.lanes@.len() as int) as usize,
            )
        },
        Command::Nothing => action is Stay && after == before,
    }
}

/// The name of the file to which the active lane is exported.
pub open spec fn is_lane_file<T: Scalar>(app: App<T>, name: Seq<char>) -> bool {
    let lane = app.active()->0;
    name == if app.traces@.len() > 1 {
        "lane-cuda"@ + crate::text::decimal_text(lane.stream_id as nat) + "-trace"@
            + crate::text::decimal_text(lane.trace_id as nat) + ".csv"@
    } else {
        "lane-cuda"@ + crate::text::decimal_text(lane.stream_id as nat) + ".csv"@
    }
}

/// Whether a key leads from one state to another, and to an action. Any key
/// first clears the status line; then the sequence popup, a running search or
/// the main view reacts.
pub open spec fn key_step<T: Scalar>(
    before: App<T>,
    key: Key,
    term_height: usize,
    after: App<T>,
    action: Action,
) -> bool {
    let cleared = App { status: None, ..before };
    if before.sequence is Some {
        popup_step(cleared, key, term_height, after, action)
    } else if before.search_active {
        action is Stay && search_step(cleared, key, after)
    } else {
        main_step(cleared, key, after, action)
    }
}

/// Handles a key while the sequence popup is open.
fn handle_popup_key<T: Scalar>(app: &mut App<T>, key: Key, term_height: usize) -> (r: Action)
    requires
        old(app).sequence is Some,
    ensures
        popup_step(*old(app), key, term_height, *final(app), r),
        old(app).consistent() ==> final(app).consistent(),
{
    let viewport: usize = sequence_viewport(term_height, app);
    match key {
        Key::Esc => {
            app.close_sequence();
        },
        Key::Up => {
            app.sequence_scroll_up(1);
        },
        Key::Down => {
            app.sequence_scroll_down(1, viewport);
        },
        Key::PageUp => {
            app.sequence_scroll_up(viewport);
        },
        Key::PageDown => {
            app.sequence_scroll_down(viewport, viewport);
        },
        Key::Char(c) => {
            if c == 'n' || c == 'N' {
                app.close_sequence();
            } else if c == 'y' || c == 'Y' {
                if let Some(text) = app.sequence_csv() {
                    return Action::Copy(text);
                }
            }
        },
        _ => {},
    }
    Action::Stay
}

/// Handles a key while a search is active.
fn handle_search_key<T: Scalar>(app: &mut App<T>, key: Key)
    ensures
        search_step(*old(app), key, *final(app)),
        old(app).consistent() ==> final(app).consistent(),
{
    match key {
        Key::Esc => {
            app.search_cancel();
        },
        Key::Tab => {
            app.search_commit();
        },
        Key::Enter { shift } => {
            if shift {
                app.search_prev();
            } else {
                app.search_next();
            }
        },
        Key::Backspace => {
            app.search_backspace();
        },
        Key::Char(c) => {
            app.search_push(c);
        },
        _ => {},
    }
}

/// Handles a key of the main view.
fn handle_main_key<T: Scalar>(app: &mut App<T>, key: Key) -> (r: Action)
    requires
        old(app).consistent(),
    ensures
        main_step(*old(app), key, *final(app), r),
        final(app).consistent(),
{
    match command_of(key) {
        Command::Quit => {
            return Action::Quit;
        },
        Command::SearchStart => {
            app.search_start();
        },
        Command::Sequence => {
            app.start_sequence();
        },
        Command::ToggleMode => {
            app.toggle_align_mode();
        },
        Command::Export => {
            match app.lane_kernels_csv() {
                Some(csv) => {
                    return Action::Export { file_name: app.lane_csv_filename(), csv };
                },
                None => {
                    app.status = Some(owned("no kernel lane to export"));
                },
            }
        },
        Command::PrevItem => {
            app.prev_item();
        },
        Command::NextItem => {
            app.next_item();
        },
        Command::ZoomIn => {
            app.zoom_in();
        },
        Command::ZoomOut => {
            app.zoom_out();
        },
        Command::NextLane => {
            app.next_lane();
        },
        Command::PrevLane => {
            app.prev_lane();
        },
        Command::Nothing => {},
    }
    Action::Stay
}

/// Handles a key on a terminal of `term_height` rows, and says what is left to
/// do.
pub fn handle_key<T: Scalar>(app: &mut App<T>, key: Key, term_height: usize) -> (r: Action)
    requires
        old(app).consistent(),
    ensures
        key_step(*old(app), key, term_height, *final(app), r),
        final(app).consistent(),
{
    app.status = None;
    match app.sequence {
        Some(_) => {
            return handle_popup_key(app, key, term_height);
        },
        None => {},
    }
    if app.search_active {
        handle_search_key(app, key);
        return Action::Stay;
    }
    handle_main_key(app, key)
}

/// What the mouse does.
#[derive(Debug, Clone, Copy, PartialEq, Eq, Structural)]
pub enum Mouse {
    /// The left button is pressed at a column and a row.
    Click { col: u16, row: u16 },
    WheelUp,
    WheelDown,
    Other,
}

/// Whether the mouse leads from one state to another.
pub open spec fn mouse_step<T: Scalar>(before: App<T>, mouse: Mouse, after: App<T>) -> bool {
    if before.sequence is Some {
        after == before
    } else {
        match mouse {
            Mouse::Click { col, row } => match before.row_lane(row) {
                None => after == before,
                Some(lane_idx) => if before.clickable(lane_idx, col) {
                    &&& after == (App {
                        active_lane: lane_idx,
                        selected_item: after.selected_item,
                        ..before
                    })
                    &&& before.means(lane_idx, col, after.selected_item as int)
                } else {
                    after == before.with_lane(lane_idx)
                },
            },
            Mouse::WheelUp => after == (App {
                zoom_level: before.zoom_level.times_spec(T::ratio_spec(15, 10)),
                ..before
            }),
            Mouse::WheelDown => after == (App {
                zoom_level: before.zoom_level.over_spec(T::ratio_spec(15, 10)).larger_spec(
                    T::ratio_spec(1, 10),
                ),
                ..before
            }),
            Mouse::Other => after == before,
        }
    }
}

/// Handles the mouse: a left click selects, the wheel zooms. Nothing happens while
/// the sequence popup is open.
pub fn handle_mouse<T: Scalar>(app: &mut App<T>, mouse: Mouse)
    ensures
        mouse_step(*old(app), mouse, *final(app)),
        old(app).consistent() ==> final(app).consistent(),
        if old(app).sequence is Some {
            *final(app) == *old(app)
        } else {
            match mouse {
                Mouse::Click { col, row } => match old(app).row_lane(row) {
                    None => *final(app) == *old(app),
                    Some(lane_idx) => if old(app).clickable(lane_idx, col) {
                        &&& *final(app) == (App {
                            active_lane: lane_idx,
                            selected_item: final(app).selected_item,
                            ..*old(app)
                        })
                        &&& old(app).means(lane_idx, col, final(app).selected_item as int)
                    } else {
                        *final(app) == old(app).with_lane(lane_idx)
                    },
                },
                Mouse::WheelUp => *final(app) == (App {
                    zoom_level: old(app).zoom_level.times_spec(T::ratio_spec(15, 10)),
                    ..*old(app)
                }),
                Mouse::WheelDown => *final(app) == (App {
                    zoom_level: old(app).zoom_level.over_spec(T::ratio_spec(15, 10)).larger_spec(
                        T::ratio_spec(1, 10),
                    ),
                    ..*old(app)
                }),
                Mouse::Other => *final(app) == *old(app),
            }
        },
{
    match app.sequence {
        Some(_) => {
            return;
        },
        None => {},
    }
    match mouse {
        Mouse::Click { col, row } => {
            app.click_select(col, row);
        },
        Mouse::WheelUp => {
            app.zoom_in();
        },
        Mouse::WheelDown => {
            app.zoom_out();
        },
        Mouse::Other => {},
    }
}

/// How many lanes are assumed to fit on a terminal of `term_height` rows; one at
/// least.
pub fn lane_rows(term_height: usize) -> (r: usize)
    ensures
        r == if term_height > 17 {
            term_height - 16
        } else {
            1
        },
{
    if term_height > 17 {
        term_height - 16
    } else {
        1
    }
}

} // verus!
