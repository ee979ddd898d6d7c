//! One-line text fields with an insertion cursor.
//!
//! The cursor is a byte offset into the text. It always stands between two
//! characters, so it has a column: how many characters stand before it.

use vstd::prelude::*;
use crate::text;

verus! {

broadcast use vstd::string::group_string_axioms;

/// How many bytes a character takes in UTF-8.
pub open spec fn utf8_len(c: char) -> nat {
    if c as u32 <= 0x7f {
        1
    } else if c as u32 <= 0x7ff {
        2
    } else if c as u32 <= 0xffff {
        3
    } else {
        4
    }
}

/// How many bytes a text takes in UTF-8.
pub open spec fn byte_len(s: Seq<char>) -> nat
    decreases s.len(),
{
    if s.len() == 0 {
        0
    } else {
        byte_len(s.drop_last()) + utf8_len(s.last())
    }
}

/// Whether `cursor` stands behind the first `col` characters.
pub open spec fn stands_behind(s: Seq<char>, cursor: int, col: int) -> bool {
    0 <= col <= s.len() && byte_len(s.take(col)) == cursor
}

/// Whether `cursor` stands between two characters, or at an end.
pub open spec fn is_boundary(s: Seq<char>, cursor: int) -> bool {
    exists|col: int| stands_behind(s, cursor, col)
}

/// How many characters stand before `cursor`.
pub open spec fn column_of(s: Seq<char>, cursor: int) -> int {
    choose|col: int| stands_behind(s, cursor, col)
}

pub proof fn lemma_byte_len_concat(a: Seq<char>, b: Seq<char>)
    ensures
        byte_len(a + b) == byte_len(a) + byte_len(b),
    decreases b.len(),
{
    if b.len() == 0 {
        assert(a + b =~= a);
    } else {
        lemma_byte_len_concat(a, b.drop_last());
        assert((a + b).drop_last() =~= a + b.drop_last());
    }
}

/// More characters take more bytes.
pub proof fn lemma_byte_len_grows(s: Seq<char>, a: int, b: int)
    requires
        0 <= a <= b <= s.len(),
    ensures
        byte_len(s.take(a)) + (b - a) <= byte_len(s.take(b)),
    decreases b - a,
{
    if a < b {
        lemma_byte_len_grows(s, a, b - 1);
        assert(s.take(b).drop_last() =~= s.take(b - 1));
    }
}

/// A cursor has one column only.
pub proof fn lemma_one_column(s: Seq<char>, cursor: int, col: int)
    requires
        stands_behind(s, cursor, col),
    ensures
        is_boundary(s, cursor),
        column_of(s, cursor) == col,
{
    let other = column_of(s, cursor);
    if other < col {
        lemma_byte_len_grows(s, other, col);
    } else if other > col {
        lemma_byte_len_grows(s, col, other);
    }
}

proof fn lemma_byte_len_is_encoded_len(s: Seq<char>)
    ensures
        byte_len(s) == vstd::utf8::encode_utf8(s).len(),
    decreases s.len(),
{
    if s.len() > 0 {
        let rest = s.drop_first();
        lemma_byte_len_is_encoded_len(rest);
        assert(s =~= seq![s[0]] + rest);
        lemma_byte_len_concat(seq![s[0]], rest);
        assert(seq![s[0]].drop_last() =~= Seq::<char>::empty());
        assert(byte_len(seq![s[0]]) == utf8_len(s[0])) by {
            assert(byte_len(Seq::<char>::empty()) == 0);
        }
        vstd::utf8::char_is_scalar(s[0]);
        assert(vstd::utf8::encode_scalar(s[0] as u32).len() == utf8_len(s[0]));
    }
}

/// How many bytes `s` takes.
pub fn byte_count(s: &str) -> (n: usize)
    ensures
        n == byte_len(s@),
        s@.len() <= n,
{
    proof {
        lemma_byte_len_is_encoded_len(s@);
        lemma_byte_len_grows(s@, 0, s@.len() as int);
        assert(s@.take(s@.len() as int) =~= s@);
        assert(s@.take(0) =~= Seq::<char>::empty());
    }
    s.as_bytes().len()
}

/// How many bytes a character takes.
pub fn char_bytes(c: char) -> (n: usize)
    ensures
        n == utf8_len(c),
{
    let code: u32 = c as u32;
    if code <= 0x7f {
        1
    } else if code <= 0x7ff {
        2
    } else if code <= 0xffff {
        3
    } else {
        4
    }
}

/// How many characters stand before the cursor.
pub fn column(s: &str, cursor: usize) -> (col: usize)
    requires
        is_boundary(s@, cursor as int),
    ensures
        col == column_of(s@, cursor as int),
        stands_behind(s@, cursor as int, col as int),
{
    let chars = text::chars_of(s);
    let ghost target = column_of(s@, cursor as int);
    let n: usize = chars.len();
    let mut col: usize = 0;
    let mut bytes: usize = 0;
    assert(s@.take(0) =~= Seq::<char>::empty());
    while bytes < cursor
        invariant
            chars@ == s@,
            n == chars@.len(),
            stands_behind(s@, cursor as int, target),
            target == column_of(s@, cursor as int),
            0 <= col <= target,
            bytes == byte_len(s@.take(col as int)),
            bytes <= cursor,
        decreases cursor - bytes,
    {
        proof {
            lemma_byte_len_grows(s@, col as int, target);
            assert(col < target);
            lemma_byte_len_grows(s@, col + 1, target);
            assert(s@.take(col + 1).drop_last() =~= s@.take(col as int));
        }
        bytes = bytes + char_bytes(chars[col]);
        col = col + 1;
    }
    proof {
        lemma_one_column(s@, cursor as int, col as int);
    }
    col
}

proof fn lemma_end_is_boundary(s: Seq<char>)
    ensures
        is_boundary(s, byte_len(s) as int),
        column_of(s, byte_len(s) as int) == s.len(),
{
    assert(s.take(s.len() as int) =~= s);
    lemma_one_column(s, byte_len(s) as int, s.len() as int);
}

/// The cursor behind the last character.
pub fn end_of(s: &str) -> (cursor: usize)
    ensures
        cursor == byte_len(s@),
        is_boundary(s@, cursor as int),
        column_of(s@, cursor as int) == s@.len(),
{
    proof {
        lemma_end_is_boundary(s@);
    }
    byte_count(s)
}

/// The cursor before the first character stands between characters.
pub proof fn lemma_start_is_boundary(s: Seq<char>)
    ensures
        is_boundary(s, 0),
        column_of(s, 0) == 0,
{
    assert(s.take(0) =~= Seq::<char>::empty());
    lemma_one_column(s, 0, 0);
}

/// The text and cursor after `c` was typed at the cursor.
pub fn insert_char(s: &str, cursor: usize, c: char) -> (out: (String, usize))
    requires
        is_boundary(s@, cursor as int),
    ensures
        out.0@ == s@.insert(column_of(s@, cursor as int), c),
        out.1 == cursor + utf8_len(c),
        is_boundary(out.0@, out.1 as int),
        column_of(out.0@, out.1 as int) == column_of(s@, cursor as int) + 1,
{
    let col: usize = column(s, cursor);
    let mut chars = text::chars_of(s);
    chars.insert(col, c);
    let new = text::string_of(&chars);
    let total: usize = byte_count(new.as_str());
    proof {
        assert(new@.take(col as int) =~= s@.take(col as int));
        assert(new@.take(col + 1).drop_last() =~= new@.take(col as int));
        lemma_byte_len_grows(new@, col + 1, new@.len() as int);
        assert(new@.take(new@.len() as int) =~= new@);
        lemma_one_column(new@, cursor + utf8_len(c), col + 1);
    }
    (new, cursor + char_bytes(c))
}

/// The text and cursor after the character before the cursor was deleted;
/// `None` where there is no such character.
pub fn remove_before(s: &str, cursor: usize) -> (out: Option<(String, usize)>)
    requires
        is_boundary(s@, cursor as int),
    ensures
        match out {
            None => cursor == 0,
            Some(r) => {
                let col = column_of(s@, cursor as int);
                &&& cursor > 0
                &&& 1 <= col <= s@.len()
                &&& r.0@ == s@.remove(col - 1)
                &&& r.1 == cursor - utf8_len(s@[col - 1])
                &&& is_boundary(r.0@, r.1 as int)
                &&& column_of(r.0@, r.1 as int) == col - 1
            },
        },
{
    if cursor == 0 {
        return None;
    }
    let col: usize = column(s, cursor);
    let mut chars = text::chars_of(s);
    assert(s@.take(0) =~= Seq::<char>::empty());
    assert(col > 0);
    let removed: char = chars.remove(col - 1);
    let new = text::string_of(&chars);
    proof {
        assert(s@.take(col as int).drop_last() =~= s@.take(col - 1));
        assert(new@.take(col - 1) =~= s@.take(col - 1));
        lemma_one_column(new@, cursor - utf8_len(removed), col - 1);
    }
    Some((new, cursor - char_bytes(removed)))
}

/// The cursor one character to the left, where there is one.
pub open spec fn left_cursor(s: Seq<char>, cursor: int) -> int {
    let col = column_of(s, cursor);
    byte_len(
        s.take(
            if col == 0 {
                0
            } else {
                col - 1
            },
        ),
    ) as int
}

/// The cursor one character to the right, where there is one.
pub open spec fn right_cursor(s: Seq<char>, cursor: int) -> int {
    let col = column_of(s, cursor);
    byte_len(
        s.take(
            if col == s.len() {
                col
            } else {
                col + 1
            },
        ),
    ) as int
}

/// The cursor one character to the left, where there is one.
pub fn left_of(s: &str, cursor: usize) -> (new: usize)
    requires
        is_boundary(s@, cursor as int),
    ensures
        new == left_cursor(s@, cursor as int),
        is_boundary(s@, new as int),
        column_of(s@, new as int) == if column_of(s@, cursor as int) == 0 {
            0
        } else {
            column_of(s@, cursor as int) - 1
        },
{
    if cursor == 0 {
        proof {
            lemma_start_is_boundary(s@);
        }
        return 0;
    }
    let col: usize = column(s, cursor);
    let chars = text::chars_of(s);
    proof {
        assert(s@.take(0) =~= Seq::<char>::empty());
        assert(col > 0);
        assert(s@.take(col as int).drop_last() =~= s@.take(col - 1));
        lemma_one_column(s@, cursor - utf8_len(s@[col - 1]), col - 1);
    }
    cursor - char_bytes(chars[col - 1])
}

/// The cursor one character to the right, where there is one.
pub fn right_of(s: &str, cursor: usize) -> (new: usize)
    requires
        is_boundary(s@, cursor as int),
    ensures
        new == right_cursor(s@, cursor as int),
        is_boundary(s@, new as int),
        column_of(s@, new as int) == if column_of(s@, cursor as int) == s@.len() {
            s@.len() as int
        } else {
            column_of(s@, cursor as int) + 1
        },
{
    let col: usize = column(s, cursor);
    let chars = text::chars_of(s);
    if col == chars.len() {
        return cursor;
    }
    let total: usize = byte_count(s);
    proof {
        assert(s@.take(col + 1).drop_last() =~= s@.take(col as int));
        lemma_byte_len_grows(s@, col + 1, s@.len() as int);
        assert(s@.take(s@.len() as int) =~= s@);
        lemma_one_column(s@, cursor + utf8_len(s@[col as int]), col + 1);
    }
    cursor + char_bytes(chars[col])
}

/// The row `delta` away from the selected one, within a list of `len` rows;
/// none where the list is empty. Without a selection the first row counts.
pub open spec fn moved_selection(selection: Option<usize>, delta: int, len: int) -> Option<usize> {
    if len == 0 {
        None
    } else {
        let next = (match selection {
            Some(row) => row as int,
            None => 0,
        }) + delta;
        if next < 0 {
            Some(0)
        } else if next >= len {
            Some((len - 1) as usize)
        } else {
            Some(next as usize)
        }
    }
}

/// Moves a selection by `delta` rows within a list of `len` rows.
pub fn move_selection(selection: Option<usize>, delta: i32, len: usize) -> (moved: Option<usize>)
    ensures
        moved == moved_selection(selection, delta as int, len as int),
        len > 0 ==> moved is Some && moved->0 < len,
        len == 0 ==> moved is None,
{
    if len == 0 {
        return None;
    }
    let current: usize = match selection {
        Some(row) => row,
        None => 0,
    };
    let next: i128 = current as i128 + delta as i128;
    if next < 0 {
        Some(0)
    } else if next >= len as i128 {
        Some(len - 1)
    } else {
        Some(next as usize)
    }
}

/// Deleting undoes typing: the text and the cursor are as before.
pub proof fn law_delete_undoes_typing(s: Seq<char>, cursor: int, c: char)
    requires
        is_boundary(s, cursor),
    ensures
        ({
            let col = column_of(s, cursor);
            let typed = s.insert(col, c);
            &&& is_boundary(typed, cursor + utf8_len(c))
            &&& column_of(typed, cursor + utf8_len(c)) == col + 1
            &&& typed.remove(col) == s
            &&& (cursor + utf8_len(c)) - utf8_len(typed[col]) == cursor
        }),
{
    let col = column_of(s, cursor);
    let typed = s.insert(col, c);
    assert(typed.take(col) =~= s.take(col));
    assert(typed.take(col + 1).drop_last() =~= typed.take(col));
    lemma_one_column(typed, cursor + utf8_len(c), col + 1);
    assert(typed.remove(col) =~= s);
}

/// The highlight moves by as many rows as asked for, and stops at the ends of the
/// list. Where the list is empty nothing is highlighted.
pub proof fn law_highlight_stops_at_the_ends(selection: Option<usize>, delta: int, len: int)
    requires
        0 <= len <= usize::MAX,
    ensures
        len == 0 ==> moved_selection(selection, delta, len) is None,
        len > 0 ==> moved_selection(selection, delta, len) is Some,
        forall|row: usize| #[trigger]
            is_row(selection, row) && len > 0 ==> {
                let to = moved_selection(selection, delta, len)->0;
                &&& 0 <= to < len
                &&& 0 <= row + delta < len ==> to == row + delta
                &&& row + delta < 0 ==> to == 0
                &&& row + delta >= len ==> to == len - 1
            },
{
}

/// Whether a row is the highlighted one, which is the first where none was chosen.
pub open spec fn is_row(selection: Option<usize>, row: usize) -> bool {
    selection == Some(row) || (selection is None && row == 0)
}

/// The text before the cursor and the text behind it make up the text, and the
/// cursor is the number of bytes before it. Going to the left takes one character
/// of the text before it, going to the right one of the text behind it.
pub proof fn law_cursor_goes_by_characters(s: Seq<char>, cursor: int)
    requires
        is_boundary(s, cursor),
    ensures
        ({
            let col = column_of(s, cursor);
            &&& 0 <= col <= s.len()
            &&& byte_len(s.take(col)) == cursor
            &&& col > 0 ==> cursor == left_cursor(s, cursor) + utf8_len(s[col - 1])
                && column_of(s, left_cursor(s, cursor)) == col - 1
            &&& col == 0 ==> left_cursor(s, cursor) == cursor == 0
            &&& col < s.len() ==> right_cursor(s, cursor) == cursor + utf8_len(s[col])
                && column_of(s, right_cursor(s, cursor)) == col + 1
            &&& col == s.len() ==> right_cursor(s, cursor) == cursor == byte_len(s)
        }),
{
    let col = column_of(s, cursor);
    assert(stands_behind(s, cursor, col));
    if col > 0 {
        assert(s.take(col).drop_last() =~= s.take(col - 1));
        assert(stands_behind(s, left_cursor(s, cursor), col - 1));
        lemma_one_column(s, left_cursor(s, cursor), col - 1);
    } else {
        assert(s.take(0).len() == 0);
    }
    if col < s.len() {
        assert(s.take(col + 1).drop_last() =~= s.take(col));
        assert(stands_behind(s, right_cursor(s, cursor), col + 1));
        lemma_one_column(s, right_cursor(s, cursor), col + 1);
    } else {
        assert(s.take(col) =~= s);
    }
}

} // verus!
