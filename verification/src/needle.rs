//! What the matcher can take: queries whose terms its scores have room for, and
//! texts whose characters it reads in one way.

use vstd::prelude::*;
use crate::line_edit;
use crate::text;

verus! {

broadcast use vstd::string::group_string_axioms;

/// Longest query, in characters: the scores of all its terms together fit 32
/// bits.
pub const MAX_QUERY: usize = 65535;

/// Heaviest term of a query: a character can score 26, the first one 36, and the
/// score of a term has to fit 16 bits.
pub const MAX_TERM: usize = 2500;

/// What the term that a query ends in weighs: its characters, with backslashes
/// twice, as each may be followed by another one in what is matched. A blank
/// ends a term, unless a backslash stands before it.
pub open spec fn last_weight(query: Seq<char>) -> nat
    decreases query.len(),
{
    if query.len() == 0 {
        0
    } else {
        let before = query.drop_last();
        let c = query.last();
        if c == ' ' && (before.len() == 0 || before.last() != '\\') {
            0
        } else if c == '\\' {
            last_weight(before) + 2
        } else {
            last_weight(before) + 1
        }
    }
}

/// Whether no term of a query is too heavy.
pub open spec fn terms_fit(query: Seq<char>) -> bool
    decreases query.len(),
{
    query.len() == 0 || (terms_fit(query.drop_last()) && last_weight(query) <= MAX_TERM)
}

/// Whether the matcher has room for the scores of a query.
pub open spec fn fits(query: Seq<char>) -> bool {
    query.len() <= MAX_QUERY && terms_fit(query)
}

/// Whether the matcher has room for the scores of a query.
pub fn query_fits(query: &str) -> (yes: bool)
    ensures
        yes == fits(query@),
{
    let chars = text::chars_of(query);
    let n: usize = chars.len();
    if n > MAX_QUERY {
        return false;
    }
    let ghost all = chars@;
    let mut weight: usize = 0;
    let mut i: usize = 0;
    assert(all.take(0) =~= Seq::<char>::empty());
    while i < n
        invariant
            i <= n,
            n == all.len(),
            all == chars@,
            all == query@,
            weight == last_weight(all.take(i as int)),
            weight <= MAX_TERM,
            terms_fit(all.take(i as int)),
        decreases n - i,
    {
        let c = chars[i];
        let ghost more = all.take(i + 1);
        assert(more.drop_last() =~= all.take(i as int));
        assert(more.last() == c);
        if i > 0 {
            assert(all.take(i as int).last() == chars@[i - 1]);
        }
        if c == ' ' && (i == 0 || chars[i - 1] != '\\') {
            weight = 0;
        } else if c == '\\' {
            weight = weight + 2;
        } else {
            weight = weight + 1;
        }
        if weight > MAX_TERM {
            proof {
                lemma_front_fits(all, i + 1);
            }
            return false;
        }
        i = i + 1;
    }
    assert(all.take(n as int) =~= all);
    true
}

/// The front of a query that fits fits.
proof fn lemma_front_fits(query: Seq<char>, n: int)
    requires
        0 <= n <= query.len(),
    ensures
        terms_fit(query) ==> terms_fit(query.take(n)),
    decreases query.len(),
{
    if n < query.len() {
        lemma_front_fits(query.drop_last(), n);
        assert(query.drop_last().take(n) =~= query.take(n));
    } else {
        assert(query.take(n) =~= query);
    }
}

/// `char::from_u32` gives the character of a number, where it has one: every
/// number up to 0x10ffff but those of the surrogates.
pub assume_specification[ char::from_u32 ](i: u32) -> (c: Option<char>)
    ensures
        match c {
            Some(d) => d as u32 == i,
            None => 0xd800 <= i <= 0xdfff || i > 0x10ffff,
        },
;

/// What stands for a lower-case character that simple case folding changes: its
/// folding. They are variants of Greek, Cyrillic and Latin letters, and the small
/// letters of Cherokee. For the iota that is written below another letter another
/// mark stands, as the matcher does not see marks. Any other character stands for
/// itself.
pub open spec fn folded(c: char) -> char {
    let n = c as u32;
    if n == 0xb5 {
        '\u{3bc}'
    } else if n == 0x17f {
        's'
    } else if n == 0x345 {
        '\u{301}'
    } else if n == 0x3c2 {
        '\u{3c3}'
    } else if n == 0x3d0 {
        '\u{3b2}'
    } else if n == 0x3d1 {
        '\u{3b8}'
    } else if n == 0x3d5 {
        '\u{3c6}'
    } else if n == 0x3d6 {
        '\u{3c0}'
    } else if n == 0x3f0 {
        '\u{3ba}'
    } else if n == 0x3f1 {
        '\u{3c1}'
    } else if n == 0x3f5 {
        '\u{3b5}'
    } else if 0x13f8 <= n <= 0x13fd {
        (n - 0x8) as char
    } else if n == 0x1c80 {
        '\u{432}'
    } else if n == 0x1c81 {
        '\u{434}'
    } else if n == 0x1c82 {
        '\u{43e}'
    } else if n == 0x1c83 {
        '\u{441}'
    } else if n == 0x1c84 || n == 0x1c85 {
        '\u{442}'
    } else if n == 0x1c86 {
        '\u{44a}'
    } else if n == 0x1c87 {
        '\u{463}'
    } else if n == 0x1c88 {
        '\u{a64b}'
    } else if n == 0x1e9b {
        '\u{1e61}'
    } else if n == 0x1fbe {
        '\u{3b9}'
    } else if 0xab70 <= n <= 0xabbf {
        (n - 0x97d0) as char
    } else {
        c
    }
}

/// Whether each character of a text stands for itself.
pub open spec fn is_folded(s: Seq<char>) -> bool {
    forall|i: int| 0 <= i < s.len() ==> folded(#[trigger] s[i]) == s[i]
}

/// Whether a text is short enough for the matcher.
pub open spec fn short_enough(haystack: Seq<char>) -> bool {
    line_edit::byte_len(haystack) <= u32::MAX
}

/// Whether the matcher can look for a query in a text: it reads each character of
/// the text in one way.
pub open spec fn can_search(query: Seq<char>, haystack: Seq<char>) -> bool {
    short_enough(haystack) && (vstd::utf8::is_ascii_chars(query) || is_folded(haystack))
}

/// A text as it is searched: as it is for a query of ASCII characters, else
/// folded.
pub open spec fn prepared(query: Seq<char>, haystack: Seq<char>) -> Seq<char> {
    if vstd::utf8::is_ascii_chars(query) {
        haystack
    } else {
        haystack.map_values(|c: char| folded(c))
    }
}

/// The character that is `down` places before `c`.
fn before(c: char, down: u32) -> (out: char)
    requires
        0x1000 <= c as u32 - down <= 0x2000,
    ensures
        out as u32 == c as u32 - down,
{
    match char::from_u32(c as u32 - down) {
        Some(d) => d,
        None => c,
    }
}

/// What stands for a character.
fn fold(c: char) -> (out: char)
    ensures
        out == folded(c),
        folded(out) == out,
        line_edit::utf8_len(out) <= line_edit::utf8_len(c),
{
    let n: u32 = c as u32;
    if n == 0xb5 {
        '\u{3bc}'
    } else if n == 0x17f {
        's'
    } else if n == 0x345 {
        '\u{301}'
    } else if n == 0x3c2 {
        '\u{3c3}'
    } else if n == 0x3d0 {
        '\u{3b2}'
    } else if n == 0x3d1 {
        '\u{3b8}'
    } else if n == 0x3d5 {
        '\u{3c6}'
    } else if n == 0x3d6 {
        '\u{3c0}'
    } else if n == 0x3f0 {
        '\u{3ba}'
    } else if n == 0x3f1 {
        '\u{3c1}'
    } else if n == 0x3f5 {
        '\u{3b5}'
    } else if 0x13f8 <= n && n <= 0x13fd {
        before(c, 0x8)
    } else if n == 0x1c80 {
        '\u{432}'
    } else if n == 0x1c81 {
        '\u{434}'
    } else if n == 0x1c82 {
        '\u{43e}'
    } else if n == 0x1c83 {
        '\u{441}'
    } else if n == 0x1c84 || n == 0x1c85 {
        '\u{442}'
    } else if n == 0x1c86 {
        '\u{44a}'
    } else if n == 0x1c87 {
        '\u{463}'
    } else if n == 0x1c88 {
        '\u{a64b}'
    } else if n == 0x1e9b {
        '\u{1e61}'
    } else if n == 0x1fbe {
        '\u{3b9}'
    } else if 0xab70 <= n && n <= 0xabbf {
        before(c, 0x97d0)
    } else {
        c
    }
}

/// A text as it is searched.
pub fn prepare(query: &str, haystack: &str) -> (text: String)
    ensures
        text@ == prepared(query@, haystack@),
        text@.len() == haystack@.len(),
        short_enough(haystack@) ==> can_search(query@, text@),
{
    if query.is_ascii() {
        return haystack.to_owned();
    }
    let chars = text::chars_of(haystack);
    let ghost all = haystack@;
    let mut out = String::new();
    let mut i: usize = 0;
    assert(out@ =~= prepared(query@, all.take(0)));
    assert(all.take(0) =~= Seq::<char>::empty());
    while i < chars.len()
        invariant
            i <= chars@.len(),
            chars@ == all,
            !vstd::utf8::is_ascii_chars(query@),
            out@ == prepared(query@, all.take(i as int)),
            is_folded(out@),
            line_edit::byte_len(out@) <= line_edit::byte_len(all.take(i as int)),
        decreases chars@.len() - i,
    {
        let c = fold(chars[i]);
        let ghost was = out@;
        let ghost seen = all.take(i as int);
        let ghost more = all.take(i + 1);
        out.push(c);
        proof {
            assert(more =~= seen.push(chars@[i as int]));
            assert(out@ =~= prepared(query@, more));
            assert(out@.drop_last() =~= was);
            assert(more.drop_last() =~= seen);
            assert forall|j: int| 0 <= j < out@.len() implies folded(#[trigger] out@[j])
                == out@[j] by {
                if j < was.len() {
                    assert(was[j] == out@[j]);
                }
            }
        }
        i = i + 1;
    }
    assert(all.take(all.len() as int) =~= all);
    out
}

/// A query of ASCII characters is looked for in a text as it is. For any other query
/// each character of the text is folded, and none is added or left out.
pub proof fn law_texts_keep_their_length(query: Seq<char>, haystack: Seq<char>)
    ensures
        prepared(query, haystack).len() == haystack.len(),
        vstd::utf8::is_ascii_chars(query) ==> prepared(query, haystack) == haystack,
        !vstd::utf8::is_ascii_chars(query) ==> forall|i: int|
            0 <= i < haystack.len() ==> #[trigger] prepared(query, haystack)[i] == folded(
                haystack[i],
            ),
        is_folded(haystack) ==> prepared(query, haystack) == haystack,
{
    if is_folded(haystack) {
        assert(prepared(query, haystack) =~= haystack);
    }
}

} // verus!
