//! How a screen is divided.

use ratatui::layout::{Constraint, Direction, Layout};
use vstd::prelude::*;

verus! {

/// An area of the screen.
#[derive(Debug, Clone, Copy, PartialEq, Eq, Structural)]
pub struct Rect {
    pub x: u16,
    pub y: u16,
    pub width: u16,
    pub height: u16,
}

/// How much room a part of an area asks for.
#[derive(Debug, Clone, Copy, PartialEq, Eq, Structural)]
pub enum Room {
    /// So many cells or more.
    AtLeast(u16),
    /// So many cells.
    Exactly(u16),
    /// A share of the whole.
    Percent(u16),
}

/// Whether the ends of an area are coordinates too.
pub open spec fn has_ends(area: Rect) -> bool {
    area.x + area.width <= u16::MAX && area.y + area.height <= u16::MAX
}

/// Whether an area lies inside another one.
pub open spec fn lies_in(part: Rect, area: Rect) -> bool {
    &&& area.x <= part.x && part.x + part.width <= area.x + area.width
    &&& area.y <= part.y && part.y + part.height <= area.y + area.height
}

/// Whether a part of an area reaches from one side of it to the other: from the
/// left to the right where parts are stacked, else from the top to the bottom.
pub open spec fn reaches_across(stacked: bool, part: Rect, area: Rect) -> bool {
    if stacked {
        part.x == area.x && part.width == area.width
    } else {
        part.y == area.y && part.height == area.height
    }
}

/// `Layout::split` of ratatui: the parts of an area, above each other or side
/// by side. Claimed: there is one part for each room asked for, and each lies
/// inside the area and reaches from one side of it to the other, where the ends
/// of the area are coordinates. How large they are is left to the solver behind
/// it, which breaks ties by hash order.
#[verifier::external_body]
fn split_area(stacked: bool, rooms: &Vec<Room>, area: Rect) -> (parts: Vec<Rect>)
    ensures
        parts@.len() == rooms@.len(),
        has_ends(area) ==> forall|i: int|
            0 <= i < parts@.len() ==> lies_in(#[trigger] parts@[i], area) && reaches_across(
                stacked,
                parts@[i],
                area,
            ),
{
    let constraints = rooms.iter().map(|room| match *room {
        Room::AtLeast(n) => Constraint::Min(n),
        Room::Exactly(n) => Constraint::Length(n),
        Room::Percent(n) => Constraint::Percentage(n),
    });
    let direction = if stacked { Direction::Vertical } else { Direction::Horizontal };
    let whole = ratatui::layout::Rect::new(area.x, area.y, area.width, area.height);
    let parts = Layout::default().direction(direction).constraints(constraints).split(whole);
    parts.iter().map(|r| Rect { x: r.x, y: r.y, width: r.width, height: r.height }).collect()
}

/// A coordinate behind another one; the last one has none behind it.
pub open spec fn next_cell(at: u16, room: u16) -> u16 {
    if room == 0 || at == u16::MAX {
        at
    } else {
        (at + 1) as u16
    }
}

/// A length without its two borders.
pub open spec fn without_borders(n: u16) -> u16 {
    if n < 2 {
        0
    } else {
        (n - 2) as u16
    }
}

/// What a box with borders leaves of an area.
pub open spec fn bordered(area: Rect) -> Rect {
    Rect {
        x: next_cell(area.x, area.width),
        y: next_cell(area.y, area.height),
        width: without_borders(area.width),
        height: without_borders(area.height),
    }
}

/// `Block::inner` of ratatui, of a box with all four borders: one cell less on
/// each side.
#[verifier::external_body]
fn inside_borders(area: Rect) -> (inner: Rect)
    ensures
        inner == bordered(area),
{
    let whole = ratatui::layout::Rect { x: area.x, y: area.y, width: area.width, height: area.height };
    let block = ratatui::widgets::Block::default().borders(ratatui::widgets::Borders::ALL);
    let inner = block.inner(whole);
    Rect { x: inner.x, y: inner.y, width: inner.width, height: inner.height }
}

/// Whether an area is divided into these parts.
pub closed spec fn parted(stacked: bool, rooms: Seq<Room>, area: Rect, parts: Seq<Rect>) -> bool {
    exists|asked: Vec<Room>, out: Vec<Rect>|
        {
            &&& #[trigger] call_ensures(split_area, (stacked, &asked, area), out)
            &&& asked@ == rooms
            &&& out@ == parts
        }
}

/// The parts of an area lie inside it, and each reaches from one side of it to
/// the other.
pub proof fn law_parts_lie_inside(stacked: bool, rooms: Seq<Room>, area: Rect, parts: Seq<Rect>)
    requires
        parted(stacked, rooms, area, parts),
        has_ends(area),
    ensures
        parts.len() == rooms.len(),
        forall|i: int|
            0 <= i < parts.len() ==> has_ends(#[trigger] parts[i]) && lies_in(parts[i], area)
                && reaches_across(stacked, parts[i], area),
{
}

/// The parts of an area.
fn parts_of(stacked: bool, rooms: Vec<Room>, area: Rect) -> (parts: Vec<Rect>)
    ensures
        parts@.len() == rooms@.len(),
        parted(stacked, rooms@, area, parts@),
        has_ends(area) ==> forall|i: int|
            0 <= i < parts@.len() ==> lies_in(#[trigger] parts@[i], area) && reaches_across(
                stacked,
                parts@[i],
                area,
            ),
{
    split_area(stacked, &rooms, area)
}

/// The areas of the picker.
#[derive(Debug, Clone, Copy, PartialEq, Eq, Structural)]
pub struct SelectLayout {
    /// The line above the list, where a tag was entered.
    pub heading: Option<Rect>,
    pub list: Rect,
    pub preview: Rect,
    pub header: Rect,
    pub footer: Rect,
}

/// The rooms of the picker, from top to bottom.
pub open spec fn select_rows() -> Seq<Room> {
    seq![Room::AtLeast(1), Room::Exactly(2), Room::Exactly(1)]
}

/// The rooms of the list and the preview.
pub open spec fn select_columns() -> Seq<Room> {
    seq![Room::Percent(42), Room::Percent(58)]
}

/// The rooms of a line and the list below it.
pub open spec fn tag_rows() -> Seq<Room> {
    seq![Room::Exactly(1), Room::AtLeast(0)]
}

/// Whether the picker is divided like this: the list and the preview side by
/// side, two lines below them, and the last line. Where a tag was entered, the
/// list leaves a line above it.
pub open spec fn select_parts(outer: Rect, below_tag: bool, layout: SelectLayout) -> bool {
    exists|rows: Seq<Rect>, columns: Seq<Rect>|
        {
            &&& #[trigger] parted(
                true,
                select_rows(),
                bordered(outer),
                rows,
            )
            &&& #[trigger] parted(
                false,
                select_columns(),
                rows[0],
                columns,
            )
            &&& layout.header == rows[1]
            &&& layout.footer == rows[2]
            &&& layout.preview == columns[1]
            &&& list_part(columns[0], below_tag, layout)
        }
}

/// Whether the list stands in an area like this.
pub open spec fn list_part(area: Rect, below_tag: bool, layout: SelectLayout) -> bool {
    if below_tag {
        exists|parts: Seq<Rect>|
            {
                &&& #[trigger] parted(
                    true,
                    tag_rows(),
                    area,
                    parts,
                )
                &&& layout.heading == Some(parts[0])
                &&& layout.list == parts[1]
            }
    } else {
        layout.heading is None && layout.list == area
    }
}

/// Divides the picker.
pub fn select_layout(outer: Rect, below_tag: bool) -> (layout: SelectLayout)
    ensures
        select_parts(outer, below_tag, layout),
        has_ends(outer) ==> {
            &&& lies_in(layout.list, outer)
            &&& lies_in(layout.preview, outer)
            &&& lies_in(layout.header, outer)
            &&& lies_in(layout.footer, outer)
            &&& layout.heading matches Some(heading) ==> lies_in(heading, outer)
        },
{
    let area = inside_borders(outer);
    let rooms = vec![Room::AtLeast(1), Room::Exactly(2), Room::Exactly(1)];
    assert(rooms@ =~= select_rows());
    let rows = parts_of(true, rooms, area);
    let rooms = vec![Room::Percent(42), Room::Percent(58)];
    assert(rooms@ =~= select_columns());
    let columns = parts_of(false, rooms, rows[0]);
    let mut heading: Option<Rect> = None;
    let mut list = columns[0];
    if below_tag {
        let rooms = vec![Room::Exactly(1), Room::AtLeast(0)];
        assert(rooms@ =~= tag_rows());
        let parts = parts_of(true, rooms, columns[0]);
        heading = Some(parts[0]);
        list = parts[1];
    }
    SelectLayout { heading, list, preview: columns[1], header: rows[1], footer: rows[2] }
}

/// The areas of the prompt.
#[derive(Debug, Clone, Copy, PartialEq, Eq, Structural)]
pub struct PromptLayout {
    pub command: Rect,
    pub status: Rect,
    /// Where suggestions are listed, if there are any.
    pub suggestions: Option<Rect>,
    pub footer: Rect,
}

/// The larger of a number and one.
pub open spec fn at_least_one(n: u16) -> u16 {
    if n == 0 {
        1
    } else {
        n
    }
}

/// The smaller of two numbers.
pub open spec fn at_most(n: u16, most: u16) -> u16 {
    if n < most {
        n
    } else {
        most
    }
}

/// What is left of `n`; nothing where `m` is more.
pub open spec fn less(n: u16, m: nat) -> u16 {
    if m <= n {
        (n - m) as u16
    } else {
        0
    }
}

/// How many lines the suggestions get: as many as are visible, so far as a line
/// for the command and two more are left; one at least.
pub open spec fn suggestion_lines(height: u16, visible: u16) -> u16 {
    at_least_one(at_most(visible, less(height, 3)))
}

/// How many lines the command gets: as many as it has, so far as `others` lines
/// are left; one at least.
pub open spec fn command_lines(height: u16, lines: u16, others: nat) -> u16 {
    at_most(at_least_one(lines), at_least_one(less(height, others)))
}

/// The rooms of the prompt: the command, the status, the suggestions where
/// there are some, and the last line.
pub open spec fn prompt_rooms(height: u16, lines: u16, visible: Option<u16>) -> Seq<Room> {
    match visible {
        None => seq![
            Room::Exactly(command_lines(height, lines, 2)),
            Room::Exactly(1),
            Room::Exactly(1),
        ],
        Some(n) => seq![
            Room::Exactly(
                command_lines(height, lines, (suggestion_lines(height, n) + 2) as nat),
            ),
            Room::Exactly(1),
            Room::Exactly(suggestion_lines(height, n)),
            Room::Exactly(1),
        ],
    }
}

/// Whether the prompt is divided like this.
pub open spec fn prompt_parts(
    outer: Rect,
    lines: u16,
    visible: Option<u16>,
    layout: PromptLayout,
) -> bool {
    let area = bordered(outer);
    exists|parts: Seq<Rect>|
        {
            &&& #[trigger] parted(true, prompt_rooms(area.height, lines, visible), area, parts)
            &&& layout.command == parts[0]
            &&& layout.status == parts[1]
            &&& match visible {
                None => layout.suggestions is None && layout.footer == parts[2],
                Some(_) => layout.suggestions == Some(parts[2]) && layout.footer == parts[3],
            }
        }
}

fn larger_than_none(n: u16) -> (out: u16)
    ensures
        out == at_least_one(n),
{
    if n == 0 {
        1
    } else {
        n
    }
}

fn smaller(n: u16, most: u16) -> (out: u16)
    ensures
        out == at_most(n, most),
{
    if n < most {
        n
    } else {
        most
    }
}

fn command_height(height: u16, lines: u16, others: u16) -> (out: u16)
    ensures
        out == command_lines(height, lines, others as nat),
{
    smaller(larger_than_none(lines), larger_than_none(height.saturating_sub(others)))
}

/// Divides the prompt, for a command of so many lines and so many visible
/// suggestions. `None` where the variable has no suggestions at all.
pub fn prompt_layout(outer: Rect, lines: u16, visible: Option<u16>) -> (layout: PromptLayout)
    ensures
        prompt_parts(outer, lines, visible, layout),
        has_ends(outer) ==> {
            &&& lies_in(layout.command, outer)
            &&& lies_in(layout.status, outer)
            &&& lies_in(layout.footer, outer)
            &&& layout.suggestions matches Some(list) ==> lies_in(list, outer)
        },
{
    let area = inside_borders(outer);
    match visible {
        None => {
            let rooms = vec![
                Room::Exactly(command_height(area.height, lines, 2)),
                Room::Exactly(1),
                Room::Exactly(1),
            ];
            assert(rooms@ =~= prompt_rooms(area.height, lines, visible));
            let parts = parts_of(true, rooms, area);
            PromptLayout {
                command: parts[0],
                status: parts[1],
                suggestions: None,
                footer: parts[2],
            }
        },
        Some(n) => {
            let listed = larger_than_none(smaller(n, area.height.saturating_sub(3)));
            let rooms = vec![
                Room::Exactly(command_height(area.height, lines, listed + 2)),
                Room::Exactly(1),
                Room::Exactly(listed),
                Room::Exactly(1),
            ];
            assert(rooms@ =~= prompt_rooms(area.height, lines, visible));
            let parts = parts_of(true, rooms, area);
            PromptLayout {
                command: parts[0],
                status: parts[1],
                suggestions: Some(parts[2]),
                footer: parts[3],
            }
        },
    }
}

/// How far a text of `lines` lines can be scrolled in an area of `height`.
pub open spec fn last_scroll(lines: u16, height: u16) -> u16 {
    less(lines, height as nat)
}

/// How far the command is scrolled: so far that the line of the cursor is the
/// last one shown.
pub open spec fn command_scroll(row: u16, lines: u16, height: u16) -> u16 {
    let shown = at_least_one(height);
    at_most(less(row, (shown - 1) as nat), last_scroll(lines, shown))
}

/// How far the command is scrolled.
pub fn scroll_command(row: u16, lines: u16, height: u16) -> (scroll: u16)
    ensures
        scroll == command_scroll(row, lines, height),
{
    let shown = larger_than_none(height);
    smaller(row.saturating_sub(shown - 1), lines.saturating_sub(shown))
}

/// The cursor's line of a command that is scrolled is on screen, so far as the
/// command has that line.
pub proof fn law_cursor_stays_visible(row: u16, lines: u16, height: u16)
    requires
        row < lines,
    ensures
        command_scroll(row, lines, height) <= row,
        row - command_scroll(row, lines, height) < at_least_one(height),
{
}

/// The command leaves the lines below it their room wherever the area has room
/// for them and one line more.
pub proof fn law_command_leaves_room(height: u16, lines: u16, visible: u16)
    ensures
        height >= 3 ==> command_lines(height, lines, 2) + 2 <= height,
        height >= 4 ==> command_lines(
            height,
            lines,
            (suggestion_lines(height, visible) + 2) as nat,
        ) + suggestion_lines(height, visible) + 2 <= height,
{
}

/// A box with borders leaves what stands inside them: one column and one row less at
/// each side.
pub proof fn law_borders_take_one_cell(area: Rect)
    requires
        has_ends(area),
        area.width >= 2,
        area.height >= 2,
    ensures
        bordered(area).x == area.x + 1,
        bordered(area).y == area.y + 1,
        bordered(area).width + 2 == area.width,
        bordered(area).height + 2 == area.height,
        lies_in(bordered(area), area),
{
}

/// The suggestions get as many lines as are visible, and the command as many as it
/// has, where there is room for them.
pub proof fn law_lines_where_there_is_room(height: u16, lines: u16, visible: u16)
    requires
        lines > 0,
        visible > 0,
        lines + visible + 2 <= height,
    ensures
        suggestion_lines(height, visible) == visible,
        command_lines(height, lines, (visible + 2) as nat) == lines,
{
}

} // verus!
