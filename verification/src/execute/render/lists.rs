//! Lists in markdown, and whether a column has room for their bullets and
//! numbers.

use vstd::prelude::*;
use crate::line_edit;
use crate::parser;
use crate::text;

verus! {

broadcast use vstd::string::group_string_axioms;

/// An item of a list: how far it is indented, and its number where it has one.
#[derive(Debug, Clone, Copy, PartialEq, Eq, Structural)]
pub struct Item {
    pub level: usize,
    pub number: Option<u32>,
}

/// How many digits a text starts with.
pub open spec fn leading_digits(s: Seq<char>) -> nat
    decreases s.len(),
{
    if s.len() > 0 && text::digit_value(s[0]) is Some {
        leading_digits(s.skip(1)) + 1
    } else {
        0
    }
}

/// The number that digits write; one where it is too large.
pub open spec fn item_number(digits: Seq<char>) -> u32 {
    match text::digits_value(digits) {
        Some(n) if n <= u32::MAX => n as u32,
        _ => 1,
    }
}

/// The item that a text starts: less than four blanks, then a bullet or a
/// number with a dot or a bracket behind it, and a blank.
pub open spec fn item_of(s: Seq<char>) -> Option<Item> {
    let level = parser::leading(s, ' ');
    let rest = s.skip(level as int);
    let n = leading_digits(rest) as int;
    if level >= 4 {
        None
    } else if rest.len() >= 2 && (rest[0] == '*' || rest[0] == '-' || rest[0] == '+') && rest[1]
        == ' ' {
        Some(Item { level: level as usize, number: None })
    } else if n > 0 && n < rest.len() && (rest[n] == '.' || rest[n] == ')') && (n + 1 == rest.len()
        || rest[n + 1] == ' ') {
        Some(Item { level: level as usize, number: Some(item_number(rest.take(n))) })
    } else {
        None
    }
}

/// Whether a line opens or closes a code block.
pub open spec fn is_fence(line: Seq<char>) -> bool {
    "```"@.is_prefix_of(line)
}

/// Whether a line is inside a code block.
pub open spec fn in_code(lines: Seq<Seq<char>>, n: int) -> bool
    decreases n,
{
    n > 0 && in_code(lines, n - 1) != is_fence(lines[n - 1])
}

/// Whether a line is a row of a table.
pub open spec fn is_row(line: Seq<char>) -> bool {
    line.len() > 0 && line[0] == '|'
}

/// Whether a line is code by its indentation.
pub open spec fn is_indented(line: Seq<char>) -> bool {
    "    "@.is_prefix_of(line) || (line.len() > 0 && line[0] == '\t')
}

/// The item on a line of a text; none in code and in tables.
pub open spec fn item_on(lines: Seq<Seq<char>>, i: int) -> Option<Item> {
    if in_code(lines, i) || is_row(lines[i]) || is_indented(lines[i]) {
        None
    } else {
        item_of(lines[i])
    }
}

/// The number on a line of a text.
pub open spec fn number_on(lines: Seq<Seq<char>>, i: int) -> Option<u32> {
    match item_on(lines, i) {
        Some(item) => item.number,
        None => None,
    }
}

/// How many of the first `n` lines are numbered.
pub open spec fn numbered(lines: Seq<Seq<char>>, n: int) -> nat
    decreases n,
{
    if n <= 0 {
        0
    } else if number_on(lines, n - 1) is Some {
        numbered(lines, n - 1) + 1
    } else {
        numbered(lines, n - 1)
    }
}

/// The largest number on the first `n` lines.
pub open spec fn largest(lines: Seq<Seq<char>>, n: int) -> nat
    decreases n,
{
    if n <= 0 {
        0
    } else {
        match number_on(lines, n - 1) {
            Some(k) if k > largest(lines, n - 1) => k as nat,
            _ => largest(lines, n - 1),
        }
    }
}

/// A number that no item is given when the items of each list are counted on
/// from the first one's number.
pub open spec fn bound(lines: Seq<Seq<char>>) -> nat {
    largest(lines, lines.len() as int) + numbered(lines, lines.len() as int)
}

/// How many columns stand before the text of an item whose number is less than
/// `bound`: its level, and a bullet or a number, and what is between that and
/// the text.
pub open spec fn indent_below(item: Item, bound: nat) -> nat {
    match item.number {
        None => (item.level + 2) as nat,
        Some(_) => (item.level + 2 + text::decimal((bound - 1) as nat).len()) as nat,
    }
}

/// How many columns stand before the text of an item in a table, where it keeps
/// its number.
pub open spec fn own_indent(item: Item) -> nat {
    match item.number {
        None => (item.level + 2) as nat,
        Some(n) => (item.level + 2 + text::decimal(n as nat).len()) as nat,
    }
}

/// Whether every item in a row of a table fits the narrowest column that a
/// table can have.
pub open spec fn row_fits(line: Seq<char>) -> bool {
    forall|k: int|
        0 <= k < line.len() && #[trigger] line[k] == '|' ==> match item_of(line.skip(k + 1)) {
            Some(item) => own_indent(item) <= 3,
            None => true,
        }
}

/// The rows of a table so far.
#[verifier::ext_equal]
pub struct TableView {
    /// How many columns the longest cell of each column takes at most.
    pub widths: Seq<nat>,
    /// Whether every bar in the rows stands between two cells.
    pub plain: bool,
    /// Whether the items in the rows fit the narrowest columns.
    pub narrow: bool,
}

/// No row.
pub open spec fn no_table() -> TableView {
    TableView { widths: Seq::empty(), plain: true, narrow: true }
}

/// Columns after another row: a cell takes no more of them than it has bytes,
/// and one that a number ends takes one more. No column of a table is narrower
/// than three.
pub open spec fn widened(widths: Seq<nat>, cells: Seq<Seq<char>>) -> Seq<nat> {
    Seq::new(
        if widths.len() >= cells.len() {
            widths.len()
        } else {
            cells.len()
        },
        |k: int|
            {
                let before = if k < widths.len() {
                    widths[k]
                } else {
                    3
                };
                let now = if k < cells.len() {
                    line_edit::byte_len(cells[k]) + 1
                } else {
                    0
                };
                if before >= now {
                    before
                } else {
                    now
                }
            },
    )
}

/// The texts between the bars of a row; a bar at the end opens no cell.
pub open spec fn cells_of(line: Seq<char>) -> Seq<Seq<char>> {
    let pieces = text::split_of(line.skip(1), '|');
    if pieces.last().len() == 0 {
        pieces.drop_last()
    } else {
        pieces
    }
}

/// A table with another row. In code, and behind a backslash, a bar belongs to a
/// cell.
pub open spec fn with_row(table: TableView, line: Seq<char>) -> TableView {
    TableView {
        widths: widened(table.widths, cells_of(line)),
        plain: table.plain && !line.contains('`') && !line.contains('\\'),
        narrow: table.narrow && row_fits(line),
    }
}

/// Whether a line is part of a table.
pub open spec fn in_table(lines: Seq<Seq<char>>, i: int) -> bool {
    !in_code(lines, i) && is_row(lines[i])
}

/// The table that the first `n` lines end in. The lines that open and close code
/// are not shown, so that a table goes on behind them.
pub open spec fn table_at(lines: Seq<Seq<char>>, n: int) -> TableView
    decreases n,
{
    if n <= 0 {
        no_table()
    } else if in_table(lines, n - 1) {
        with_row(table_at(lines, n - 1), lines[n - 1])
    } else if is_fence(lines[n - 1]) {
        table_at(lines, n - 1)
    } else {
        no_table()
    }
}

/// The columns of a table together.
pub open spec fn total(widths: Seq<nat>) -> nat
    decreases widths.len(),
{
    if widths.len() == 0 {
        0
    } else {
        total(widths.drop_last()) + widths.last()
    }
}

/// Whether a table has room: its longest cells and its borders fit, so that no
/// cell is wrapped, or the items in it fit the narrowest columns.
pub open spec fn table_fits(table: TableView, room: usize) -> bool {
    table.narrow || (table.plain && total(table.widths) + table.widths.len() + 1 <= room)
}

/// Whether every table that the first `n` lines hold and that has ended has
/// room.
pub open spec fn ended_tables_fit(lines: Seq<Seq<char>>, n: int, room: usize) -> bool
    decreases n,
{
    n <= 0 || {
        &&& ended_tables_fit(lines, n - 1, room)
        &&& in_table(lines, n - 1) || is_fence(lines[n - 1]) || table_fits(
            table_at(lines, n - 1),
            room,
        )
    }
}

/// Whether every table has room.
pub open spec fn tables_fit(lines: Seq<Seq<char>>, room: usize) -> bool {
    let n = lines.len() as int;
    ended_tables_fit(lines, n, room) && table_fits(table_at(lines, n), room)
}

/// Whether a line of a text leaves room for what stands before the item on it.
pub open spec fn line_fits(lines: Seq<Seq<char>>, i: int, room: usize) -> bool {
    match item_on(lines, i) {
        Some(item) => indent_below(item, bound(lines)) <= room,
        None => true,
    }
}

/// Whether so many columns have room for what stands before the items of every
/// list, and every number that an item can be given fits.
pub open spec fn lists_fit(markdown: Seq<char>, room: usize) -> bool {
    let lines = text::lines_of(markdown);
    &&& bound(lines) <= u32::MAX
    &&& forall|i: int| 0 <= i < lines.len() ==> #[trigger] line_fits(lines, i, room)
    &&& tables_fit(lines, room)
}

fn is_digit(c: char) -> (yes: bool)
    ensures
        yes == text::digit_value(c) is Some,
{
    '0' <= c && c <= '9'
}

/// The item that the characters from `from` on start.
fn item_at(chars: &Vec<char>, from: usize) -> (item: Option<Item>)
    requires
        from <= chars@.len(),
    ensures
        item == item_of(chars@.skip(from as int)),
{
    let ghost s = chars@.skip(from as int);
    let len: usize = chars.len();
    let mut at: usize = from;
    assert(s.skip(0) =~= s);
    while at < len && chars[at] == ' '
        invariant
            from <= at <= len,
            len == chars@.len(),
            s == chars@.skip(from as int),
            parser::leading(s, ' ') == parser::leading(s.skip(at - from), ' ') + (at - from),
        decreases len - at,
    {
        assert(s.skip(at - from)[0] == chars@[at as int]);
        assert(s.skip(at - from).skip(1) =~= s.skip(at - from + 1));
        at = at + 1;
    }
    let level: usize = at - from;
    let ghost rest = s.skip(level as int);
    assert(parser::leading(s, ' ') == level) by {
        if at < len {
            assert(rest[0] == chars@[at as int]);
        }
    }
    if level >= 4 {
        return None;
    }
    assert(rest =~= chars@.skip(at as int));
    if len - at >= 2 && (chars[at] == '*' || chars[at] == '-' || chars[at] == '+') && chars[at + 1]
        == ' ' {
        return Some(Item { level, number: None });
    }
    let mut end: usize = at;
    assert(rest.skip(0) =~= rest);
    while end < len && is_digit(chars[end])
        invariant
            at <= end <= len,
            len == chars@.len(),
            rest == chars@.skip(at as int),
            leading_digits(rest) == leading_digits(rest.skip(end - at)) + (end - at),
        decreases len - end,
    {
        assert(rest.skip(end - at)[0] == chars@[end as int]);
        assert(rest.skip(end - at).skip(1) =~= rest.skip(end - at + 1));
        end = end + 1;
    }
    assert(leading_digits(rest) == end - at) by {
        if end < len {
            assert(rest.skip(end - at)[0] == chars@[end as int]);
        }
    }
    if end == at || end == len || (chars[end] != '.' && chars[end] != ')') {
        return None;
    }
    if end + 1 < len && chars[end + 1] != ' ' {
        return None;
    }
    let digits = text::string_from(chars, at, end);
    assert(digits@ =~= rest.take(end - at));
    assert(is_digit_text(digits@)) by {
        lemma_leading_digits(rest);
    }
    let number: u32 = match text::parse_number(digits.as_str()) {
        Some(n) => if n <= u32::MAX as u64 {
            n as u32
        } else {
            1
        },
        None => 1,
    };
    assert(text::number_of(digits@) == text::digits_value(digits@));
    Some(Item { level, number: Some(number) })
}

spec fn is_digit_text(s: Seq<char>) -> bool {
    forall|i: int| 0 <= i < s.len() ==> text::digit_value(#[trigger] s[i]) is Some
}

proof fn lemma_leading_digits(s: Seq<char>)
    ensures
        leading_digits(s) <= s.len(),
        is_digit_text(s.take(leading_digits(s) as int)),
    decreases s.len(),
{
    if s.len() > 0 && text::digit_value(s[0]) is Some {
        lemma_leading_digits(s.skip(1));
        let n = leading_digits(s) as int;
        assert forall|i: int| 0 <= i < n implies text::digit_value(
            #[trigger] s.take(n)[i],
        ) is Some by {
            if i > 0 {
                assert(s.skip(1).take(n - 1)[i - 1] == s[i]);
            }
        }
    }
}

fn count_digits(n: u64) -> (count: usize)
    ensures
        count == text::decimal(n as nat).len(),
{
    text::chars_of(text::decimal_text(n).as_str()).len()
}

/// Whether an item fits, with a number of at most so many digits.
fn item_fits(item: &Item, digits: usize, room: usize) -> (yes: bool)
    requires
        item.level < 4,
    ensures
        yes == (item.level + 2 + (if item.number is Some {
            digits as int
        } else {
            0
        }) <= room),
{
    let bare: usize = item.level + 2;
    match item.number {
        Some(_) => bare <= room && digits <= room - bare,
        None => bare <= room,
    }
}

fn check_row(chars: &Vec<char>) -> (yes: bool)
    ensures
        yes == row_fits(chars@),
{
    let mut k: usize = 0;
    while k < chars.len()
        invariant
            k <= chars@.len(),
            forall|j: int|
                0 <= j < k && #[trigger] chars@[j] == '|' ==> match item_of(chars@.skip(j + 1)) {
                    Some(item) => own_indent(item) <= 3,
                    None => true,
                },
        decreases chars@.len() - k,
    {
        if chars[k] == '|' {
            if let Some(item) = item_at(chars, k + 1) {
                let digits: usize = match item.number {
                    Some(n) => count_digits(n as u64),
                    None => 0,
                };
                if !item_fits(&item, digits, 3) {
                    assert(chars@[k as int] == '|');
                    return false;
                }
            }
        }
        k = k + 1;
    }
    true
}

/// The rows of a table so far.
struct Table {
    widths: Vec<u128>,
    plain: bool,
    narrow: bool,
}

impl View for Table {
    type V = TableView;

    closed spec fn view(&self) -> TableView {
        TableView {
            widths: self.widths@.map_values(|w: u128| w as nat),
            plain: self.plain,
            narrow: self.narrow,
        }
    }
}

fn new_table() -> (table: Table)
    ensures
        table@ == no_table(),
{
    let widths: Vec<u128> = Vec::new();
    let table = Table { widths, plain: true, narrow: true };
    assert(table@.widths =~= Seq::<nat>::empty());
    table
}

fn has_char(chars: &Vec<char>, c: char) -> (yes: bool)
    ensures
        yes == chars@.contains(c),
{
    let mut i: usize = 0;
    while i < chars.len()
        invariant
            i <= chars@.len(),
            forall|k: int| 0 <= k < i ==> chars@[k] != c,
        decreases chars@.len() - i,
    {
        if chars[i] == c {
            assert(chars@[i as int] == c);
            return true;
        }
        i = i + 1;
    }
    false
}

/// Columns after another row.
fn widen(widths: &Vec<u128>, cells: &Vec<String>) -> (out: Vec<u128>)
    ensures
        out@.map_values(|w: u128| w as nat) == widened(
            widths@.map_values(|w: u128| w as nat),
            text::texts(cells@),
        ),
{
    let ghost before = widths@.map_values(|w: u128| w as nat);
    let ghost now = text::texts(cells@);
    let ghost all = widened(before, now);
    let n: usize = if widths.len() >= cells.len() {
        widths.len()
    } else {
        cells.len()
    };
    let mut out: Vec<u128> = Vec::new();
    let mut k: usize = 0;
    while k < n
        invariant
            k <= n,
            n == all.len(),
            before == widths@.map_values(|w: u128| w as nat),
            now == text::texts(cells@),
            all == widened(before, now),
            out@.len() == k,
            forall|j: int| 0 <= j < k ==> #[trigger] out@[j] as nat == all[j],
        decreases n - k,
    {
        let old_width: u128 = if k < widths.len() {
            assert(before[k as int] == widths@[k as int] as nat);
            widths[k]
        } else {
            3
        };
        let new_width: u128 = if k < cells.len() {
            assert(now[k as int] == cells@[k as int]@);
            let bytes: usize = line_edit::byte_count(cells[k].as_str());
            bytes as u128 + 1
        } else {
            0
        };
        out.push(
            if old_width >= new_width {
                old_width
            } else {
                new_width
            },
        );
        k = k + 1;
    }
    assert(out@.map_values(|w: u128| w as nat) =~= all);
    out
}

/// A table with another row.
fn add_row(table: Table, chars: &Vec<char>) -> (out: Table)
    requires
        is_row(chars@),
    ensures
        out@ == with_row(table@, chars@),
{
    let rest = text::string_from(chars, 1, chars.len());
    assert(rest@ =~= chars@.skip(1));
    let mut cells = text::split_text(rest.as_str(), '|');
    proof {
        text::lemma_split_nonempty(rest@, '|');
    }
    let ghost pieces = text::texts(cells@);
    let last: usize = cells.len() - 1;
    assert(pieces[last as int] == cells@[last as int]@);
    if cells[last].as_str().is_empty() {
        cells.pop();
        assert(text::texts(cells@) =~= pieces.drop_last());
    }
    let widths = widen(&table.widths, &cells);
    let plain = table.plain && !has_char(chars, '`') && !has_char(chars, '\\');
    let narrow = table.narrow && check_row(chars);
    let out = Table { widths, plain, narrow };
    assert(out@ =~= with_row(table@, chars@));
    out
}

proof fn lemma_total_grows(widths: Seq<nat>, n: int)
    requires
        0 <= n <= widths.len(),
    ensures
        total(widths.take(n)) <= total(widths),
    decreases widths.len(),
{
    if n < widths.len() {
        lemma_total_grows(widths.drop_last(), n);
        assert(widths.drop_last().take(n) =~= widths.take(n));
    } else {
        assert(widths.take(n) =~= widths);
    }
}

/// Whether a table has room.
fn check_table(table: &Table, room: usize) -> (yes: bool)
    ensures
        yes == table_fits(table@, room),
{
    if table.narrow {
        return true;
    }
    let ghost all = table@.widths;
    let n: usize = table.widths.len();
    if !table.plain || n >= room {
        return false;
    }
    let most: usize = room - n - 1;
    let mut sum: usize = 0;
    let mut k: usize = 0;
    assert(all.take(0) =~= Seq::<nat>::empty());
    while k < n
        invariant
            k <= n,
            n == all.len(),
            n == table.widths@.len(),
            all == table@.widths,
            most + n + 1 == room,
            !table.narrow,
            sum == total(all.take(k as int)),
            sum <= most,
        decreases n - k,
    {
        assert(all[k as int] == table.widths@[k as int] as nat);
        assert(all.take(k + 1).drop_last() =~= all.take(k as int));
        if table.widths[k] > (most - sum) as u128 {
            proof {
                lemma_total_grows(all, k + 1);
            }
            return false;
        }
        sum = sum + table.widths[k] as usize;
        k = k + 1;
    }
    assert(all.take(n as int) =~= all);
    true
}

/// Whether every table has room.
fn check_tables(lines: &Vec<String>, room: usize) -> (yes: bool)
    ensures
        yes == tables_fit(text::texts(lines@), room),
{
    let ghost all = text::texts(lines@);
    proof {
        reveal_strlit("```");
    }
    let mut table = new_table();
    let mut fits = true;
    let mut code = false;
    let mut i: usize = 0;
    while i < lines.len()
        invariant
            i <= lines@.len(),
            all == text::texts(lines@),
            "```"@ == seq!['`', '`', '`'],
            code == in_code(all, i as int),
            table@ == table_at(all, i as int),
            fits == ended_tables_fit(all, i as int, room),
        decreases lines@.len() - i,
    {
        let chars = text::chars_of(lines[i].as_str());
        assert(all[i as int] == chars@);
        let fence = starts_with(&chars, '`', 3);
        proof {
            lemma_starts(chars@, '`', 3, seq!['`', '`', '`']);
        }
        if !code && chars.len() > 0 && chars[0] == '|' {
            table = add_row(table, &chars);
        } else if !fence {
            if !check_table(&table, room) {
                fits = false;
            }
            table = new_table();
        }
        code = code != fence;
        i = i + 1;
    }
    let last = check_table(&table, room);
    fits && last
}

fn starts_with(chars: &Vec<char>, mark: char, count: usize) -> (yes: bool)
    ensures
        yes == (chars@.len() >= count && forall|i: int|
            0 <= i < count ==> #[trigger] chars@[i] == mark),
{
    if chars.len() < count {
        return false;
    }
    let mut i: usize = 0;
    while i < count
        invariant
            i <= count <= chars@.len(),
            forall|k: int| 0 <= k < i ==> #[trigger] chars@[k] == mark,
        decreases count - i,
    {
        if chars[i] != mark {
            return false;
        }
        i = i + 1;
    }
    true
}

/// The item on each line.
fn scan(lines: &Vec<String>) -> (items: Vec<Option<Item>>)
    ensures
        items@.len() == lines@.len(),
        forall|i: int|
            0 <= i < lines@.len() ==> #[trigger] items@[i] == item_on(text::texts(lines@), i),
        forall|i: int|
            0 <= i < lines@.len() && #[trigger] items@[i] is Some ==> items@[i]->0.level
                < 4,
{
    let ghost all = text::texts(lines@);
    proof {
        reveal_strlit("```");
        reveal_strlit("    ");
    }
    let mut items: Vec<Option<Item>> = Vec::new();
    let mut code = false;
    let mut i: usize = 0;
    while i < lines.len()
        invariant
            i <= lines@.len(),
            all == text::texts(lines@),
            all.len() == lines@.len(),
            "```"@ == seq!['`', '`', '`'],
            "    "@ == seq![' ', ' ', ' ', ' '],
            code == in_code(all, i as int),
            items@.len() == i,
            forall|k: int| 0 <= k < i ==> #[trigger] items@[k] == item_on(all, k),
            forall|k: int| 0 <= k < i && #[trigger] items@[k] is Some ==> items@[k]->0.level < 4,
        decreases lines@.len() - i,
    {
        let chars = text::chars_of(lines[i].as_str());
        assert(all[i as int] == chars@);
        let fence = starts_with(&chars, '`', 3);
        proof {
            lemma_starts(chars@, '`', 3, seq!['`', '`', '`']);
            lemma_starts(chars@, ' ', 4, seq![' ', ' ', ' ', ' ']);
        }
        let row = chars.len() > 0 && chars[0] == '|';
        let indented = starts_with(&chars, ' ', 4) || (chars.len() > 0 && chars[0] == '\t');
        let item = if code || row || indented {
            None
        } else {
            assert(chars@.skip(0) =~= chars@);
            item_at(&chars, 0)
        };
        items.push(item);
        code = code != fence;
        i = i + 1;
    }
    items
}

proof fn lemma_starts(s: Seq<char>, mark: char, count: nat, front: Seq<char>)
    requires
        front.len() == count,
        forall|i: int| 0 <= i < count ==> front[i] == mark,
    ensures
        front.is_prefix_of(s) == (s.len() >= count && forall|i: int|
            0 <= i < count ==> #[trigger] s[i] == mark),
{
    if s.len() >= count && (forall|i: int| 0 <= i < count ==> #[trigger] s[i] == mark) {
        assert(front =~= s.take(count as int));
    }
    if front.is_prefix_of(s) {
        assert forall|i: int| 0 <= i < count implies #[trigger] s[i] == mark by {
            assert(front[i] == mark);
        }
    }
}

/// Whether so many columns have room for what stands before the items of every
/// list.
pub fn check_lists(markdown: &str, room: usize) -> (yes: bool)
    ensures
        yes == lists_fit(markdown@, room),
{
    let lines = text::lines(markdown);
    let ghost all = text::texts(lines@);
    let found = scan(&lines);
    let n: usize = lines.len();
    assert(all.len() == n);
    let mut most: u128 = 0;
    let mut count: u128 = 0;
    let mut i: usize = 0;
    while i < n
        invariant
            i <= n,
            n == lines@.len() == found@.len(),
            forall|k: int| 0 <= k < n ==> #[trigger] found@[k] == item_on(all, k),
            most == largest(all, i as int),
            most <= u32::MAX,
            count == numbered(all, i as int),
            count <= i,
        decreases n - i,
    {
        assert(found@[i as int] == item_on(all, i as int));
        if let Some(item) = found[i] {
            if let Some(number) = item.number {
                count = count + 1;
                if number as u128 > most {
                    most = number as u128;
                }
            }
        }
        i = i + 1;
    }
    let bound: u128 = most + count;
    if bound > u32::MAX as u128 {
        return false;
    }
    let digits: usize = if bound > 0 {
        count_digits((bound - 1) as u64)
    } else {
        0
    };
    let mut fits = true;
    let mut i: usize = 0;
    while i < n
        invariant
            i <= n,
            n == lines@.len() == found@.len() == all.len(),
            bound == self::bound(all),
            bound > 0 ==> digits == text::decimal((bound - 1) as nat).len(),
            forall|k: int| 0 <= k < n ==> #[trigger] found@[k] == item_on(all, k),
            forall|k: int|
                0 <= k < n && #[trigger] found@[k] is Some ==> found@[k]->0.level < 4,
            fits == forall|k: int| 0 <= k < i ==> #[trigger] line_fits(all, k, room),
        decreases n - i,
    {
        assert(found@[i as int] == item_on(all, i as int));
        if let Some(item) = found[i] {
            proof {
                if item.number is Some {
                    lemma_counted(all, i as int, n as int);
                }
            }
            if !item_fits(&item, digits, room) {
                fits = false;
                assert(!line_fits(all, i as int, room));
            } else {
                assert(line_fits(all, i as int, room));
            }
        } else {
            assert(line_fits(all, i as int, room));
        }
        i = i + 1;
    }
    let tables = check_tables(&lines, room);
    fits && tables
}

/// A numbered line is counted.
proof fn lemma_counted(lines: Seq<Seq<char>>, i: int, n: int)
    requires
        0 <= i < n,
        number_on(lines, i) is Some,
    ensures
        numbered(lines, n) > 0,
    decreases n,
{
    if i < n - 1 {
        lemma_counted(lines, i, n - 1);
    }
}

} // verus!
