//! Text as sequences of characters: searching, splitting, trimming, ordering
//! and building strings, each with an exact contract over `Seq<char>`.

use vstd::prelude::*;

verus! {

broadcast use vstd::string::group_string_axioms;

/// `String::push` appends one character at the end.
pub assume_specification[ String::push ](s: &mut String, ch: char)
    ensures
        final(s)@ == old(s)@.push(ch),
;

/// The text of every string of a list.
pub open spec fn texts(list: Seq<String>) -> Seq<Seq<char>> {
    list.map_values(|s: String| s@)
}

pub proof fn lemma_texts_push(list: Seq<String>, s: String)
    ensures
        texts(list.push(s)) == texts(list).push(s@),
{
    assert(texts(list.push(s)) =~= texts(list).push(s@));
}

/// The characters of `s`.
pub fn chars_of(s: &str) -> (out: Vec<char>)
    ensures
        out@ == s@,
{
    let mut out: Vec<char> = Vec::new();
    for c in it: s.chars()
        invariant
            it.seq() == s@,
            out@ == s@.take(it.index() as int),
    {
        out.push(c);
        assert(s@.take(it.index() as int).push(c) =~= s@.take(it.index() + 1));
    }
    assert(s@.take(s@.len() as int) =~= s@);
    out
}

/// The string made of the characters `chars[from..to]`.
pub fn string_from(chars: &Vec<char>, from: usize, to: usize) -> (out: String)
    requires
        from <= to <= chars@.len(),
    ensures
        out@ == chars@.subrange(from as int, to as int),
{
    let mut out = String::new();
    let mut i: usize = from;
    assert(out@ =~= chars@.subrange(from as int, from as int));
    while i < to
        invariant
            from <= i <= to <= chars@.len(),
            out@ == chars@.subrange(from as int, i as int),
        decreases to - i,
    {
        out.push(chars[i]);
        assert(chars@.subrange(from as int, i as int).push(chars@[i as int])
            =~= chars@.subrange(from as int, i + 1));
        i = i + 1;
    }
    out
}

/// The string made of `chars`.
pub fn string_of(chars: &Vec<char>) -> (out: String)
    ensures
        out@ == chars@,
{
    let out = string_from(chars, 0, chars.len());
    assert(chars@.subrange(0, chars@.len() as int) =~= chars@);
    out
}

/// Whether two strings hold the same text.
pub fn same_text(a: &str, b: &str) -> (same: bool)
    ensures
        same == (a@ == b@),
{
    let x = chars_of(a);
    let y = chars_of(b);
    same_chars(&x, &y)
}

/// Whether two character lists are equal.
pub fn same_chars(x: &Vec<char>, y: &Vec<char>) -> (same: bool)
    ensures
        same == (x@ == y@),
{
    if x.len() != y.len() {
        return false;
    }
    let mut i: usize = 0;
    while i < x.len()
        invariant
            x@.len() == y@.len(),
            i <= x@.len(),
            forall|j: int| 0 <= j < i ==> x@[j] == y@[j],
        decreases x@.len() - i,
    {
        if x[i] != y[i] {
            return false;
        }
        i = i + 1;
    }
    assert(x@ =~= y@);
    true
}

/// Whether one of `list` holds the text `s`.
pub fn has_text(list: &Vec<String>, s: &str) -> (found: bool)
    ensures
        found == texts(list@).contains(s@),
{
    let mut i: usize = 0;
    while i < list.len()
        invariant
            i <= list@.len(),
            forall|j: int| 0 <= j < i ==> list@[j]@ != s@,
        decreases list@.len() - i,
    {
        if same_text(list[i].as_str(), s) {
            assert(texts(list@)[i as int] == s@);
            return true;
        }
        i = i + 1;
    }
    assert forall|j: int| 0 <= j < texts(list@).len() implies texts(list@)[j] != s@ by {}
    false
}

/// Whether two lists hold the same texts.
pub fn same_texts(x: &Vec<String>, y: &Vec<String>) -> (same: bool)
    ensures
        same == (texts(x@) == texts(y@)),
{
    if x.len() != y.len() {
        assert(texts(x@).len() != texts(y@).len());
        return false;
    }
    let mut i: usize = 0;
    while i < x.len()
        invariant
            x@.len() == y@.len(),
            i <= x@.len(),
            forall|j: int| 0 <= j < i ==> x@[j]@ == y@[j]@,
        decreases x@.len() - i,
    {
        if !same_text(x[i].as_str(), y[i].as_str()) {
            assert(texts(x@)[i as int] != texts(y@)[i as int]);
            return false;
        }
        i = i + 1;
    }
    assert(texts(x@) =~= texts(y@));
    true
}

/// A copy of a list of strings.
pub fn copy_texts(list: &Vec<String>) -> (out: Vec<String>)
    ensures
        out@ == list@,
{
    let mut out: Vec<String> = Vec::new();
    let mut i: usize = 0;
    while i < list.len()
        invariant
            i <= list@.len(),
            out@ == list@.take(i as int),
        decreases list@.len() - i,
    {
        out.push(list[i].clone());
        assert(list@.take(i as int).push(list@[i as int]) =~= list@.take(i + 1));
        i = i + 1;
    }
    assert(list@.take(list@.len() as int) =~= list@);
    out
}

/// A copy of an optional string.
pub fn copy_optional(s: &Option<String>) -> (out: Option<String>)
    ensures
        out == *s,
{
    match s {
        Some(x) => Some(x.clone()),
        None => None,
    }
}

/// The text of an optional string.
pub open spec fn optional_text(s: Option<String>) -> Option<Seq<char>> {
    match s {
        Some(x) => Some(x@),
        None => None,
    }
}

/// The characters that Unicode gives the property `White_Space`.
pub open spec fn is_white_space(c: char) -> bool {
    ||| 0x09 <= c as u32 <= 0x0d
    ||| c as u32 == 0x20
    ||| c as u32 == 0x85
    ||| c as u32 == 0xa0
    ||| c as u32 == 0x1680
    ||| 0x2000 <= c as u32 <= 0x200a
    ||| c as u32 == 0x2028
    ||| c as u32 == 0x2029
    ||| c as u32 == 0x202f
    ||| c as u32 == 0x205f
    ||| c as u32 == 0x3000
}

/// Whether `c` is white space.
pub fn white_space(c: char) -> (yes: bool)
    ensures
        yes == is_white_space(c),
{
    let code: u32 = c as u32;
    (0x09 <= code && code <= 0x0d) || code == 0x20 || code == 0x85 || code == 0xa0 || code
        == 0x1680 || (0x2000 <= code && code <= 0x200a) || code == 0x2028 || code == 0x2029 || code
        == 0x202f || code == 0x205f || code == 0x3000
}

/// The control characters of Unicode (category `Cc`).
pub open spec fn is_control_char(c: char) -> bool {
    c as u32 <= 0x1f || 0x7f <= c as u32 <= 0x9f
}

/// Whether `c` is a control character.
pub fn control_char(c: char) -> (yes: bool)
    ensures
        yes == is_control_char(c),
{
    let code: u32 = c as u32;
    code <= 0x1f || (0x7f <= code && code <= 0x9f)
}

/// `s` without the white space before its first other character.
pub open spec fn trim_start_of(s: Seq<char>) -> Seq<char>
    decreases s.len(),
{
    if s.len() > 0 && is_white_space(s[0]) {
        trim_start_of(s.drop_first())
    } else {
        s
    }
}

/// `s` without the white space behind its last other character.
pub open spec fn trim_end_of(s: Seq<char>) -> Seq<char>
    decreases s.len(),
{
    if s.len() > 0 && is_white_space(s.last()) {
        trim_end_of(s.drop_last())
    } else {
        s
    }
}

/// `s` without the white space at both of its ends.
pub open spec fn trim_of(s: Seq<char>) -> Seq<char> {
    trim_end_of(trim_start_of(s))
}

/// The characters `chars[from..to]`.
pub fn sub_chars(chars: &Vec<char>, from: usize, to: usize) -> (out: Vec<char>)
    requires
        from <= to <= chars@.len(),
    ensures
        out@ == chars@.subrange(from as int, to as int),
{
    let mut out: Vec<char> = Vec::new();
    let mut i: usize = from;
    assert(out@ =~= chars@.subrange(from as int, from as int));
    while i < to
        invariant
            from <= i <= to <= chars@.len(),
            out@ == chars@.subrange(from as int, i as int),
        decreases to - i,
    {
        out.push(chars[i]);
        assert(chars@.subrange(from as int, i as int).push(chars@[i as int])
            =~= chars@.subrange(from as int, i + 1));
        i = i + 1;
    }
    out
}

/// The characters of `chars` without the white space at both ends.
pub fn trim_chars(chars: &Vec<char>) -> (out: Vec<char>)
    ensures
        out@ == trim_of(chars@),
{
    let n: usize = chars.len();
    let mut from: usize = 0;
    assert(chars@.subrange(0, n as int) =~= chars@);
    while from < n && white_space(chars[from])
        invariant
            from <= n == chars@.len(),
            trim_start_of(chars@.subrange(from as int, n as int)) == trim_start_of(chars@),
        decreases n - from,
    {
        assert(chars@.subrange(from as int, n as int).drop_first() =~= chars@.subrange(
            from + 1,
            n as int,
        ));
        from = from + 1;
    }
    let mut to: usize = n;
    while to > from && white_space(chars[to - 1])
        invariant
            from <= to <= n == chars@.len(),
            trim_end_of(chars@.subrange(from as int, to as int)) == trim_of(chars@),
        decreases to,
    {
        assert(chars@.subrange(from as int, to as int).drop_last() =~= chars@.subrange(
            from as int,
            to - 1,
        ));
        to = to - 1;
    }
    sub_chars(chars, from, to)
}

/// `s` without the white space at both of its ends.
pub fn trim(s: &str) -> (out: String)
    ensures
        out@ == trim_of(s@),
{
    let chars = chars_of(s);
    let trimmed = trim_chars(&chars);
    string_of(&trimmed)
}

/// Whether `pattern` stands in `chars` at `at`.
pub open spec fn stands_at(s: Seq<char>, pattern: Seq<char>, at: int) -> bool {
    0 <= at && at + pattern.len() <= s.len() && s.subrange(at, at + pattern.len()) == pattern
}

/// Whether `pattern` occurs somewhere in `s`.
pub open spec fn occurs(s: Seq<char>, pattern: Seq<char>) -> bool {
    exists|at: int| stands_at(s, pattern, at)
}

/// The first place at or behind `from` where `pattern` stands in `s`.
pub open spec fn find_from(s: Seq<char>, pattern: Seq<char>, from: int) -> Option<int>
    decreases s.len() - from + 1,
{
    if from < 0 || from + pattern.len() > s.len() {
        None
    } else if stands_at(s, pattern, from) {
        Some(from)
    } else {
        find_from(s, pattern, from + 1)
    }
}

/// `find_from` finds the least place, and fails only where there is none.
pub proof fn lemma_find_from(s: Seq<char>, pattern: Seq<char>, from: int)
    requires
        0 <= from,
    ensures
        match find_from(s, pattern, from) {
            Some(at) => from <= at && stands_at(s, pattern, at) && forall|k: int|
                from <= k < at ==> !stands_at(s, pattern, k),
            None => forall|k: int| from <= k ==> !stands_at(s, pattern, k),
        },
    decreases s.len() - from + 1,
{
    if from + pattern.len() <= s.len() && !stands_at(s, pattern, from) {
        lemma_find_from(s, pattern, from + 1);
    }
}

/// Whether `pattern` stands in `chars` at `at`.
pub fn is_at(chars: &Vec<char>, pattern: &Vec<char>, at: usize) -> (yes: bool)
    ensures
        yes == stands_at(chars@, pattern@, at as int),
{
    if pattern.len() > chars.len() || at > chars.len() - pattern.len() {
        return false;
    }
    let mut i: usize = 0;
    while i < pattern.len()
        invariant
            i <= pattern@.len(),
            at + pattern@.len() <= chars@.len() <= usize::MAX,
            forall|j: int| 0 <= j < i ==> chars@[at + j] == pattern@[j],
        decreases pattern@.len() - i,
    {
        if chars[at + i] != pattern[i] {
            assert(chars@.subrange(at as int, at + pattern@.len())[i as int] != pattern@[i as int]);
            return false;
        }
        i = i + 1;
    }
    assert(chars@.subrange(at as int, at + pattern@.len()) =~= pattern@);
    true
}

/// The first place at or behind `from` where `pattern` stands in `chars`.
pub fn find_chars(chars: &Vec<char>, pattern: &Vec<char>, from: usize) -> (found: Option<usize>)
    ensures
        match found {
            Some(at) => find_from(chars@, pattern@, from as int) == Some(at as int),
            None => find_from(chars@, pattern@, from as int) is None,
        },
{
    if pattern.len() > chars.len() {
        return None;
    }
    let last: usize = chars.len() - pattern.len();
    let mut at: usize = from;
    while at <= last
        invariant
            last == chars@.len() - pattern@.len(),
            find_from(chars@, pattern@, at as int) == find_from(chars@, pattern@, from as int),
        decreases last + 1 - at,
    {
        if is_at(chars, pattern, at) {
            return Some(at);
        }
        if at == last {
            assert(find_from(chars@, pattern@, at + 1) is None);
            return None;
        }
        at = at + 1;
    }
    None
}

/// Whether `pattern` occurs in `s`.
pub fn contains_text(s: &str, pattern: &str) -> (yes: bool)
    ensures
        yes == occurs(s@, pattern@),
{
    let chars = chars_of(s);
    let wanted = chars_of(pattern);
    let found = find_chars(&chars, &wanted, 0);
    proof {
        lemma_find_from(s@, pattern@, 0);
    }
    match found {
        Some(_) => true,
        None => false,
    }
}

/// Whether `s` begins with `prefix`.
pub fn starts_with_text(s: &str, prefix: &str) -> (yes: bool)
    ensures
        yes == prefix@.is_prefix_of(s@),
{
    let chars = chars_of(s);
    let wanted = chars_of(prefix);
    is_at(&chars, &wanted, 0)
}

/// Whether `s` ends with `suffix`.
pub fn ends_with_text(s: &str, suffix: &str) -> (yes: bool)
    ensures
        yes == suffix@.is_suffix_of(s@),
{
    let chars = chars_of(s);
    let wanted = chars_of(suffix);
    if wanted.len() > chars.len() {
        return false;
    }
    is_at(&chars, &wanted, chars.len() - wanted.len())
}

/// The part of `s` behind `prefix`, where `s` begins with it.
pub fn strip_prefix_text(s: &str, prefix: &str) -> (rest: Option<String>)
    ensures
        match rest {
            Some(r) => prefix@.is_prefix_of(s@) && r@ == s@.skip(prefix@.len() as int),
            None => !prefix@.is_prefix_of(s@),
        },
{
    if starts_with_text(s, prefix) {
        let chars = chars_of(s);
        let from: usize = chars_of(prefix).len();
        assert(s@.skip(prefix@.len() as int) =~= s@.subrange(from as int, s@.len() as int));
        Some(string_from(&chars, from, chars.len()))
    } else {
        None
    }
}

/// The pieces of `s` between occurrences of `sep`: one character more extends
/// the last piece, one separator more opens a new one.
pub open spec fn split_of(s: Seq<char>, sep: char) -> Seq<Seq<char>>
    decreases s.len(),
{
    if s.len() == 0 {
        seq![Seq::<char>::empty()]
    } else {
        let before = split_of(s.drop_last(), sep);
        if s.last() == sep {
            before.push(Seq::<char>::empty())
        } else {
            before.drop_last().push(before.last().push(s.last()))
        }
    }
}

pub proof fn lemma_split_nonempty(s: Seq<char>, sep: char)
    ensures
        split_of(s, sep).len() >= 1,
    decreases s.len(),
{
    if s.len() > 0 {
        lemma_split_nonempty(s.drop_last(), sep);
    }
}

/// The pieces of `s` between occurrences of `sep`.
pub fn split_text(s: &str, sep: char) -> (pieces: Vec<String>)
    ensures
        texts(pieces@) == split_of(s@, sep),
{
    let chars = chars_of(s);
    let mut pieces: Vec<String> = Vec::new();
    let mut piece = String::new();
    let mut i: usize = 0;
    assert(chars@.take(0) =~= Seq::<char>::empty());
    assert(texts(pieces@).push(piece@) =~= split_of(chars@.take(0), sep));
    while i < chars.len()
        invariant
            i <= chars@.len(),
            texts(pieces@).push(piece@) == split_of(chars@.take(i as int), sep),
        decreases chars@.len() - i,
    {
        let c: char = chars[i];
        let ghost whole = texts(pieces@).push(piece@);
        assert(chars@.take(i + 1).drop_last() =~= chars@.take(i as int));
        if c == sep {
            proof {
                lemma_texts_push(pieces@, piece);
            }
            pieces.push(piece);
            piece = String::new();
            assert(texts(pieces@).push(piece@) =~= whole.push(Seq::<char>::empty()));
        } else {
            let ghost old_piece = piece@;
            piece.push(c);
            assert(whole.drop_last() =~= texts(pieces@));
            assert(whole.last() == old_piece);
            assert(texts(pieces@).push(piece@) =~= whole.drop_last().push(whole.last().push(c)));
        }
        i = i + 1;
    }
    assert(chars@.take(chars@.len() as int) =~= s@);
    proof {
        lemma_texts_push(pieces@, piece);
    }
    pieces.push(piece);
    pieces
}

/// The pieces with `sep` between each two of them.
pub open spec fn join_of(pieces: Seq<Seq<char>>, sep: Seq<char>) -> Seq<char>
    decreases pieces.len(),
{
    if pieces.len() == 0 {
        Seq::empty()
    } else if pieces.len() == 1 {
        pieces[0]
    } else {
        join_of(pieces.drop_last(), sep) + sep + pieces.last()
    }
}

/// The pieces with `sep` between each two of them.
pub fn join_texts(pieces: &Vec<String>, sep: &str) -> (out: String)
    ensures
        out@ == join_of(texts(pieces@), sep@),
{
    let mut out = String::new();
    let mut i: usize = 0;
    assert(texts(pieces@).take(0) =~= Seq::<Seq<char>>::empty());
    while i < pieces.len()
        invariant
            i <= pieces@.len(),
            out@ == join_of(texts(pieces@).take(i as int), sep@),
        decreases pieces@.len() - i,
    {
        assert(texts(pieces@).take(i + 1).drop_last() =~= texts(pieces@).take(i as int));
        if i > 0 {
            out.append(sep);
        }
        out.append(pieces[i].as_str());
        assert(i == 0 ==> out@ =~= pieces@[0]@);
        i = i + 1;
    }
    assert(texts(pieces@).take(pieces@.len() as int) =~= texts(pieces@));
    out
}

/// `s` with each character `from` replaced by the text `to`.
pub open spec fn replace_char_of(s: Seq<char>, from: char, to: Seq<char>) -> Seq<char>
    decreases s.len(),
{
    if s.len() == 0 {
        Seq::empty()
    } else if s.last() == from {
        replace_char_of(s.drop_last(), from, to) + to
    } else {
        replace_char_of(s.drop_last(), from, to).push(s.last())
    }
}

/// `s` with each character `from` replaced by the text `to`.
pub fn replace_char(s: &str, from: char, to: &str) -> (out: String)
    ensures
        out@ == replace_char_of(s@, from, to@),
{
    let chars = chars_of(s);
    let mut out = String::new();
    let mut i: usize = 0;
    assert(chars@.take(0) =~= Seq::<char>::empty());
    while i < chars.len()
        invariant
            i <= chars@.len(),
            out@ == replace_char_of(chars@.take(i as int), from, to@),
        decreases chars@.len() - i,
    {
        assert(chars@.take(i + 1).drop_last() =~= chars@.take(i as int));
        if chars[i] == from {
            out.append(to);
        } else {
            out.push(chars[i]);
        }
        i = i + 1;
    }
    assert(chars@.take(chars@.len() as int) =~= s@);
    out
}

/// The order of strings: that of the first characters that differ, a text
/// before what it is a prefix of.
pub open spec fn text_less(a: Seq<char>, b: Seq<char>) -> bool
    decreases a.len(),
{
    if b.len() == 0 {
        false
    } else if a.len() == 0 {
        true
    } else if a[0] == b[0] {
        text_less(a.drop_first(), b.drop_first())
    } else {
        (a[0] as int) < (b[0] as int)
    }
}

/// Of two texts exactly one comes first, unless they are equal.
pub proof fn lemma_text_less_total(a: Seq<char>, b: Seq<char>)
    ensures
        text_less(a, b) || text_less(b, a) || a == b,
        !(text_less(a, b) && text_less(b, a)),
        a == b ==> !text_less(a, b),
    decreases a.len(),
{
    if a.len() == 0 || b.len() == 0 {
        assert(a.len() == 0 && b.len() == 0 ==> a =~= b);
    } else if a[0] == b[0] {
        lemma_text_less_total(a.drop_first(), b.drop_first());
        if a.drop_first() == b.drop_first() {
            assert(a =~= seq![a[0]] + a.drop_first());
            assert(b =~= seq![b[0]] + b.drop_first());
        }
    }
}

/// The order of texts is transitive.
pub proof fn lemma_text_less_transitive(a: Seq<char>, b: Seq<char>, c: Seq<char>)
    requires
        text_less(a, b),
        text_less(b, c),
    ensures
        text_less(a, c),
    decreases a.len(),
{
    if a.len() > 0 && a[0] == b[0] && b[0] == c[0] {
        lemma_text_less_transitive(a.drop_first(), b.drop_first(), c.drop_first());
    }
}

/// Whether `a` comes before `b`.
pub fn less_text(a: &str, b: &str) -> (yes: bool)
    ensures
        yes == text_less(a@, b@),
{
    let x = chars_of(a);
    let y = chars_of(b);
    let mut i: usize = 0;
    assert(x@.skip(0) =~= x@);
    assert(y@.skip(0) =~= y@);
    while i < x.len() && i < y.len()
        invariant
            i <= x@.len(),
            i <= y@.len(),
            text_less(x@.skip(i as int), y@.skip(i as int)) == text_less(a@, b@),
        decreases x@.len() - i,
    {
        if x[i] != y[i] {
            return x[i] < y[i];
        }
        assert(x@.skip(i as int).drop_first() =~= x@.skip(i + 1));
        assert(y@.skip(i as int).drop_first() =~= y@.skip(i + 1));
        i = i + 1;
    }
    i < y.len()
}

/// The decimal digit of value `d`.
pub open spec fn digit_char(d: int) -> char {
    (48 + d) as char
}

/// `n` in decimal, without leading zeros.
pub open spec fn decimal(n: nat) -> Seq<char>
    decreases n,
{
    if n < 10 {
        seq![digit_char(n as int)]
    } else {
        decimal(n / 10).push(digit_char((n % 10) as int))
    }
}

/// `n` in decimal.
pub fn decimal_text(n: u64) -> (out: String)
    ensures
        out@ == decimal(n as nat),
    decreases n,
{
    let mut out = String::new();
    if n >= 10 {
        out = decimal_text(n / 10);
    }
    let d: u8 = (n % 10) as u8;
    out.push((48 + d) as char);
    assert(n < 10 ==> out@ =~= seq![digit_char(n as int)]);
    out
}

/// The ASCII letter `A` to `Z` in lower case; any other character as it is.
pub open spec fn ascii_lower_char(c: char) -> char {
    if 'A' <= c <= 'Z' {
        (c as u32 + 32) as char
    } else {
        c
    }
}

/// A text with its ASCII letters in lower case.
pub open spec fn ascii_lower(s: Seq<char>) -> Seq<char> {
    s.map_values(|c: char| ascii_lower_char(c))
}

/// `s` with its ASCII letters in lower case.
pub fn ascii_lower_text(s: &str) -> (out: String)
    ensures
        out@ == ascii_lower(s@),
{
    let chars = chars_of(s);
    let mut out = String::new();
    let mut i: usize = 0;
    assert(out@ =~= ascii_lower(chars@).take(0));
    while i < chars.len()
        invariant
            i <= chars@.len(),
            out@ == ascii_lower(chars@).take(i as int),
        decreases chars@.len() - i,
    {
        let c: char = chars[i];
        let lower: char = if 'A' <= c && c <= 'Z' {
            (c as u8 + 32) as char
        } else {
            c
        };
        assert(lower == ascii_lower_char(c));
        out.push(lower);
        assert(ascii_lower(chars@).take(i as int).push(lower) =~= ascii_lower(chars@).take(i + 1));
        i = i + 1;
    }
    assert(ascii_lower(chars@).take(chars@.len() as int) =~= ascii_lower(s@));
    out
}

/// What `str::to_lowercase` gives for a text.
pub uninterp spec fn lowercase(s: Seq<char>) -> Seq<char>;

/// `str::to_lowercase`: the lowercase equivalent of a text under Unicode's
/// case mapping. Claimed: the result depends on the text alone, and for
/// ASCII text only the letters `A` to `Z` change, each to its small letter.
#[verifier::external_body]
pub(crate) fn to_lowercase(s: &str) -> (out: String)
    ensures
        out@ == lowercase(s@),
        vstd::utf8::is_ascii_chars(s@) ==> out@ == ascii_lower(s@),
{
    s.to_lowercase()
}

/// What `char::to_lowercase` gives for a character.
pub uninterp spec fn char_lowercase(c: char) -> Seq<char>;

/// `char::to_lowercase`: the characters that a character becomes in lower
/// case. Claimed: they depend on the character alone, and an ASCII character
/// becomes one, its small letter where it is a letter `A` to `Z`.
#[verifier::external_body]
pub(crate) fn lower_char(c: char) -> (out: String)
    ensures
        out@ == char_lowercase(c),
        c as u32 <= 0x7f ==> out@ == seq![ascii_lower_char(c)],
{
    c.to_lowercase().to_string()
}

/// `s`, which is in order, with `x` behind everything that is not larger.
pub open spec fn put_in_order(s: Seq<Seq<char>>, x: Seq<char>) -> Seq<Seq<char>>
    decreases s.len(),
{
    if s.len() == 0 {
        seq![x]
    } else if text_less(x, s.last()) {
        put_in_order(s.drop_last(), x).push(s.last())
    } else {
        s.push(x)
    }
}

/// The texts in alphabetical order.
pub open spec fn in_order(s: Seq<Seq<char>>) -> Seq<Seq<char>>
    decreases s.len(),
{
    if s.len() == 0 {
        Seq::empty()
    } else {
        put_in_order(in_order(s.drop_last()), s.last())
    }
}

/// Whether no text is larger than one behind it.
pub open spec fn is_ordered(s: Seq<Seq<char>>) -> bool {
    forall|i: int, j: int| 0 <= i < j < s.len() ==> !text_less(#[trigger] s[j], #[trigger] s[i])
}

proof fn lemma_put_in_order(s: Seq<Seq<char>>, x: Seq<char>)
    requires
        is_ordered(s),
    ensures
        is_ordered(put_in_order(s, x)),
        put_in_order(s, x).to_multiset() == s.to_multiset().insert(x),
        put_in_order(s, x).len() == s.len() + 1,
        forall|i: int|
            0 <= i < s.len() + 1 ==> (#[trigger] put_in_order(s, x)[i]) == x || s.contains(
                put_in_order(s, x)[i],
            ),
    decreases s.len(),
{
    broadcast use vstd::seq_lib::group_to_multiset_ensures;

    let out = put_in_order(s, x);
    if s.len() == 0 {
        assert(out =~= Seq::<Seq<char>>::empty().push(x));
        assert(s =~= Seq::<Seq<char>>::empty());
    } else if text_less(x, s.last()) {
        let front = s.drop_last();
        let shorter = put_in_order(front, x);
        lemma_put_in_order(front, x);
        assert(s =~= front.push(s.last()));
        assert(out.to_multiset() =~= s.to_multiset().insert(x));
        assert forall|i: int| 0 <= i < s.len() + 1 implies (#[trigger] out[i]) == x || s.contains(
            out[i],
        ) by {
            if i < s.len() {
                assert(out[i] == shorter[i]);
                if shorter[i] != x {
                    let k = front.index_of(shorter[i]);
                    assert(s[k] == out[i]);
                }
            } else {
                assert(out[i] == s[s.len() - 1]);
            }
        }
        assert forall|i: int, j: int| 0 <= i < j < out.len() implies !text_less(
            #[trigger] out[j],
            #[trigger] out[i],
        ) by {
            if j < s.len() {
                assert(out[i] == shorter[i] && out[j] == shorter[j]);
            } else {
                assert(out[j] == s.last());
                assert(out[i] == shorter[i]);
                if shorter[i] == x {
                    lemma_text_less_total(x, s.last());
                } else {
                    let k = front.index_of(shorter[i]);
                    assert(s[k] == out[i]);
                    assert(!text_less(s[s.len() - 1], s[k]));
                }
            }
        }
    } else {
        assert forall|i: int, j: int| 0 <= i < j < out.len() implies !text_less(
            #[trigger] out[j],
            #[trigger] out[i],
        ) by {
            if j == s.len() && i < s.len() - 1 {
                assert(!text_less(s[s.len() - 1], s[i]));
                if text_less(x, s[i]) {
                    lemma_text_less_total(s[i], s.last());
                    if s[i] != s.last() {
                        lemma_text_less_transitive(x, s[i], s.last());
                    }
                }
            }
        }
    }
}

/// What is put in order is in order, and holds the same texts.
pub proof fn law_in_order(s: Seq<Seq<char>>)
    ensures
        is_ordered(in_order(s)),
        in_order(s).to_multiset() == s.to_multiset(),
        in_order(s).len() == s.len(),
    decreases s.len(),
{
    broadcast use vstd::seq_lib::group_to_multiset_ensures;

    if s.len() > 0 {
        law_in_order(s.drop_last());
        lemma_put_in_order(in_order(s.drop_last()), s.last());
        assert(s =~= s.drop_last().push(s.last()));
    }
}

/// The texts in alphabetical order.
pub fn sort_texts(items: Vec<String>) -> (out: Vec<String>)
    ensures
        texts(out@) == in_order(texts(items@)),
{
    let ghost all = texts(items@);
    let mut out: Vec<String> = Vec::new();
    let mut i: usize = 0;
    assert(all.take(0) =~= Seq::<Seq<char>>::empty());
    assert(texts(out@) =~= Seq::<Seq<char>>::empty());
    while i < items.len()
        invariant
            i <= items@.len(),
            all == texts(items@),
            texts(out@) == in_order(all.take(i as int)),
        decreases items@.len() - i,
    {
        let ghost before = texts(out@);
        let x = items[i].as_str();
        let mut at: usize = out.len();
        assert(before.take(at as int) =~= before);
        assert(put_in_order(before, x@) + before.skip(at as int) =~= put_in_order(before, x@));
        while at > 0 && less_text(x, out[at - 1].as_str())
            invariant
                at <= out@.len(),
                before == texts(out@),
                put_in_order(before, x@) == put_in_order(before.take(at as int), x@) + before.skip(
                    at as int,
                ),
            decreases at,
        {
            let ghost head = before.take(at as int);
            assert(head.last() == out@[at - 1]@);
            assert(head.drop_last() =~= before.take(at - 1));
            assert(put_in_order(head.drop_last(), x@).push(head.last()) + before.skip(at as int)
                =~= put_in_order(before.take(at - 1), x@) + before.skip(at - 1));
            at = at - 1;
        }
        proof {
            let head = before.take(at as int);
            if at > 0 {
                assert(head.last() == out@[at - 1]@);
            } else {
                assert(head =~= Seq::<Seq<char>>::empty());
            }
            assert(put_in_order(head, x@) =~= head.push(x@));
            assert(head.push(x@) + before.skip(at as int) =~= before.insert(at as int, x@));
            assert(all.take(i + 1).drop_last() =~= all.take(i as int));
            assert(all.take(i + 1).last() == x@);
        }
        out.insert(at, items[i].clone());
        assert(texts(out@) =~= before.insert(at as int, x@));
        i = i + 1;
    }
    assert(all.take(all.len() as int) =~= all);
    out
}

/// `s` without a carriage return at its end.
pub open spec fn without_return(s: Seq<char>) -> Seq<char> {
    if s.len() > 0 && s.last() == '\r' {
        s.drop_last()
    } else {
        s
    }
}

/// The lines of `s`. Each ends at a newline, with or without a carriage return
/// before it; what stands behind the last newline is a line where it is not
/// empty.
pub open spec fn lines_of(s: Seq<char>) -> Seq<Seq<char>> {
    let pieces = split_of(s, '\n');
    let ended = pieces.drop_last().map_values(|piece: Seq<char>| without_return(piece));
    if pieces.last().len() == 0 {
        ended
    } else {
        ended.push(pieces.last())
    }
}

/// The lines of `s`.
pub fn lines(s: &str) -> (out: Vec<String>)
    ensures
        texts(out@) == lines_of(s@),
{
    let pieces = split_text(s, '\n');
    let ghost all = texts(pieces@);
    proof {
        lemma_split_nonempty(s@, '\n');
    }
    let ghost ended = all.drop_last().map_values(|piece: Seq<char>| without_return(piece));
    let last: usize = pieces.len() - 1;
    let mut out: Vec<String> = Vec::new();
    let mut i: usize = 0;
    assert(texts(out@) =~= ended.take(0));
    while i < last
        invariant
            i <= last,
            last + 1 == pieces@.len(),
            all == texts(pieces@),
            ended == all.drop_last().map_values(|piece: Seq<char>| without_return(piece)),
            texts(out@) == ended.take(i as int),
        decreases last - i,
    {
        let chars = chars_of(pieces[i].as_str());
        let n: usize = chars.len();
        assert(ended[i as int] == without_return(pieces@[i as int]@));
        assert(ended.take(i + 1) =~= ended.take(i as int).push(ended[i as int]));
        let line = if n > 0 && chars[n - 1] == '\r' {
            let line = string_from(&chars, 0, n - 1);
            assert(line@ =~= chars@.drop_last());
            line
        } else {
            pieces[i].clone()
        };
        proof {
            lemma_texts_push(out@, line);
        }
        out.push(line);
        i = i + 1;
    }
    assert(ended.take(ended.len() as int) =~= ended);
    assert(all.last() == pieces@[last as int]@);
    if !pieces[last].as_str().is_empty() {
        let line = pieces[last].clone();
        proof {
            lemma_texts_push(out@, line);
        }
        out.push(line);
    }
    out
}

/// Whether `char::is_alphanumeric` holds of a character.
pub uninterp spec fn is_alphanumeric(c: char) -> bool;

/// `char::is_alphanumeric`: whether a character is a letter or a number under
/// Unicode. Claimed: this depends on the character alone, and among ASCII
/// characters it holds of letters and digits.
#[verifier::external_body]
pub(crate) fn alphanumeric(c: char) -> (yes: bool)
    ensures
        yes == is_alphanumeric(c),
        c as u32 <= 0x7f ==> yes == is_ascii_alphanumeric(c),
{
    c.is_alphanumeric()
}

/// Whether a character is an ASCII letter or digit.
pub open spec fn is_ascii_alphanumeric(c: char) -> bool {
    ('a' <= c && c <= 'z') || ('A' <= c && c <= 'Z') || ('0' <= c && c <= '9')
}

/// Whether a character is an ASCII letter or digit.
pub fn ascii_alphanumeric(c: char) -> (yes: bool)
    ensures
        yes == is_ascii_alphanumeric(c),
{
    ('a' <= c && c <= 'z') || ('A' <= c && c <= 'Z') || ('0' <= c && c <= '9')
}

/// A word, where there is one.
pub open spec fn word_piece(word: Seq<char>) -> Seq<Seq<char>> {
    if word.len() == 0 {
        Seq::empty()
    } else {
        seq![word]
    }
}

/// The words of `s`, where `word` has been read already.
pub open spec fn words_from(s: Seq<char>, word: Seq<char>) -> Seq<Seq<char>>
    decreases s.len(),
{
    if s.len() == 0 {
        word_piece(word)
    } else if is_white_space(s[0]) {
        word_piece(word) + words_from(s.skip(1), Seq::empty())
    } else {
        words_from(s.skip(1), word.push(s[0]))
    }
}

/// The words of `s`: what stands between white space.
pub open spec fn words_of(s: Seq<char>) -> Seq<Seq<char>> {
    words_from(s, Seq::empty())
}

/// The words of `s`.
pub fn words(s: &str) -> (out: Vec<String>)
    ensures
        texts(out@) == words_of(s@),
{
    let chars = chars_of(s);
    let mut out: Vec<String> = Vec::new();
    let mut word = String::new();
    let mut i: usize = 0;
    assert(chars@.skip(0) =~= chars@);
    assert(word@ =~= Seq::<char>::empty());
    assert(texts(out@) + words_of(s@) =~= words_of(s@));
    while i < chars.len()
        invariant
            i <= chars@.len(),
            texts(out@) + words_from(chars@.skip(i as int), word@) == words_of(s@),
        decreases chars@.len() - i,
    {
        let ghost before = texts(out@);
        let ghost rest = chars@.skip(i as int);
        assert(rest.skip(1) =~= chars@.skip(i + 1));
        if white_space(chars[i]) {
            let ghost piece = word_piece(word@);
            if !word.as_str().is_empty() {
                proof {
                    lemma_texts_push(out@, word);
                }
                out.push(word);
                word = String::new();
            }
            assert(word@ =~= Seq::<char>::empty());
            assert(texts(out@) =~= before + piece);
            assert(before + piece + words_from(rest.skip(1), Seq::empty()) =~= before + (piece
                + words_from(rest.skip(1), Seq::empty())));
        } else {
            word.push(chars[i]);
        }
        i = i + 1;
    }
    let ghost before = texts(out@);
    let ghost piece = word_piece(word@);
    if !word.as_str().is_empty() {
        proof {
            lemma_texts_push(out@, word);
        }
        out.push(word);
    }
    assert(texts(out@) =~= before + piece);
    out
}

/// The lengths of texts, each with one more.
pub open spec fn spread_len(items: Seq<Seq<char>>) -> nat
    decreases items.len(),
{
    if items.len() == 0 {
        0
    } else {
        spread_len(items.drop_last()) + items.last().len() + 1
    }
}

proof fn lemma_spread_concat(a: Seq<Seq<char>>, b: Seq<Seq<char>>)
    ensures
        spread_len(a + b) == spread_len(a) + spread_len(b),
    decreases b.len(),
{
    if b.len() == 0 {
        assert(a + b =~= a);
    } else {
        assert((a + b).drop_last() =~= a + b.drop_last());
        lemma_spread_concat(a, b.drop_last());
    }
}

/// Words with one separator each are no longer than the text they are from,
/// and one more.
pub proof fn lemma_words_fit(s: Seq<char>, word: Seq<char>)
    ensures
        spread_len(words_from(s, word)) <= word.len() + s.len() + 1,
    decreases s.len(),
{
    reveal_with_fuel(spread_len, 3);
    assert(word_piece(word).len() > 0 ==> word_piece(word).drop_last() =~= Seq::<
        Seq<char>,
    >::empty());
    if s.len() > 0 {
        if is_white_space(s[0]) {
            lemma_words_fit(s.skip(1), Seq::empty());
            lemma_spread_concat(word_piece(word), words_from(s.skip(1), Seq::empty()));
        } else {
            lemma_words_fit(s.skip(1), word.push(s[0]));
        }
    }
}

/// A joined text is one shorter than its items with one separator each.
pub proof fn lemma_join_fits(items: Seq<Seq<char>>, sep: Seq<char>)
    requires
        sep.len() == 1,
        items.len() > 0,
    ensures
        join_of(items, sep).len() + 1 == spread_len(items),
    decreases items.len(),
{
    reveal_with_fuel(spread_len, 2);
    if items.len() > 1 {
        lemma_join_fits(items.drop_last(), sep);
    }
}

/// The value of a decimal digit.
pub open spec fn digit_value(c: char) -> Option<nat> {
    if '0' <= c && c <= '9' {
        Some((c as int - '0' as int) as nat)
    } else {
        None
    }
}

/// The number that decimal digits write; none where there are no digits or
/// other characters.
pub open spec fn digits_value(s: Seq<char>) -> Option<nat>
    decreases s.len(),
{
    if s.len() == 0 {
        None
    } else if s.len() == 1 {
        digit_value(s[0])
    } else {
        match (digits_value(s.drop_last()), digit_value(s.last())) {
            (Some(before), Some(d)) => Some(before * 10 + d),
            _ => None,
        }
    }
}

/// The number that a text writes: decimal digits, with or without a plus sign.
pub open spec fn number_of(s: Seq<char>) -> Option<nat> {
    if s.len() > 0 && s[0] == '+' {
        digits_value(s.skip(1))
    } else {
        digits_value(s)
    }
}

/// The number that a text writes, where it is one that fits.
pub fn parse_number(s: &str) -> (n: Option<u64>)
    ensures
        match n {
            Some(v) => number_of(s@) == Some(v as nat),
            None => number_of(s@) is None || number_of(s@)->0 > u64::MAX,
        },
{
    let chars = chars_of(s);
    let from: usize = if chars.len() > 0 && chars[0] == '+' {
        1
    } else {
        0
    };
    let ghost digits = chars@.skip(from as int);
    assert(from == 0 ==> digits =~= chars@);
    let mut value: u64 = 0;
    let mut i: usize = from;
    if i == chars.len() {
        return None;
    }
    while i < chars.len()
        invariant
            from <= i <= chars@.len(),
            digits == chars@.skip(from as int),
            number_of(s@) == digits_value(digits),
            i == from ==> value == 0,
            i > from ==> digits_value(digits.take(i - from)) == Some(value as nat),
        decreases chars@.len() - i,
    {
        let c = chars[i];
        let ghost k = i - from;
        assert(digits.take(k + 1).drop_last() =~= digits.take(k));
        assert(digits.take(k + 1).last() == c);
        if !('0' <= c && c <= '9') {
            proof {
                lemma_digits_prefix(digits, k + 1);
            }
            return None;
        }
        let d: u64 = (c as u32 - '0' as u32) as u64;
        if value > (u64::MAX - d) / 10 {
            proof {
                lemma_digits_prefix(digits, k + 1);
            }
            return None;
        }
        value = value * 10 + d;
        i = i + 1;
    }
    assert(digits.take(digits.len() as int) =~= digits);
    Some(value)
}

/// The first digits of a number write no larger number.
proof fn lemma_digits_prefix(s: Seq<char>, k: int)
    requires
        1 <= k <= s.len(),
    ensures
        digits_value(s) is Some ==> digits_value(s.take(k)) is Some && digits_value(s.take(k))->0
            <= digits_value(s)->0,
    decreases s.len(),
{
    if k == s.len() {
        assert(s.take(k) =~= s);
    } else {
        lemma_digits_prefix(s.drop_last(), k);
        assert(s.drop_last().take(k) =~= s.take(k));
    }
}

/// A number written in decimal reads back.
pub proof fn law_decimal_reads_back(n: nat)
    ensures
        digits_value(decimal(n)) == Some(n),
        number_of(decimal(n)) == Some(n),
        decimal(n).len() > 0,
        digit_value(decimal(n)[0]) is Some,
    decreases n,
{
    if n >= 10 {
        law_decimal_reads_back(n / 10);
        let front = decimal(n / 10);
        assert(decimal(n).drop_last() =~= front);
        assert(decimal(n)[0] == front[0]);
    }
}

/// Where `pattern` stands behind `at` characters is where it stands in the rest.
pub proof fn lemma_stands_shift(s: Seq<char>, pattern: Seq<char>, at: int, k: int)
    requires
        0 <= at <= s.len(),
        0 <= k,
    ensures
        stands_at(s.skip(at), pattern, k) == stands_at(s, pattern, at + k),
{
    if at + k + pattern.len() <= s.len() {
        assert(s.skip(at).subrange(k, k + pattern.len()) =~= s.subrange(
            at + k,
            at + k + pattern.len(),
        ));
    }
}

/// Where `pattern` is found behind `at` characters is where it is found in the
/// rest.
pub proof fn lemma_find_shift(s: Seq<char>, pattern: Seq<char>, at: int, from: int)
    requires
        0 <= at <= s.len(),
        0 <= from,
    ensures
        match find_from(s, pattern, at + from) {
            Some(end) => find_from(s.skip(at), pattern, from) == Some(end - at),
            None => find_from(s.skip(at), pattern, from) is None,
        },
    decreases s.len() - at - from + 1,
{
    lemma_stands_shift(s, pattern, at, from);
    if at + from + pattern.len() <= s.len() && !stands_at(s, pattern, at + from) {
        lemma_find_shift(s, pattern, at, from + 1);
    }
}

/// Text without a separator extends the last piece.
pub proof fn lemma_split_extend(s: Seq<char>, more: Seq<char>, sep: char)
    requires
        !more.contains(sep),
    ensures
        split_of(s + more, sep) == split_of(s, sep).drop_last().push(
            split_of(s, sep).last() + more,
        ),
    decreases more.len(),
{
    lemma_split_nonempty(s, sep);
    let pieces = split_of(s, sep);
    if more.len() == 0 {
        assert(s + more =~= s);
        assert(pieces.last() + more =~= pieces.last());
        assert(pieces.drop_last().push(pieces.last()) =~= pieces);
    } else {
        let front = more.drop_last();
        assert(!front.contains(sep)) by {
            assert forall|k: int| 0 <= k < front.len() implies front[k] != sep by {
                assert(more.contains(more[k]));
            }
        }
        lemma_split_extend(s, front, sep);
        assert((s + more).drop_last() =~= s + front);
        assert(more.contains(more.last()));
        let before = split_of(s + front, sep);
        assert(before.drop_last() =~= pieces.drop_last());
        assert(before.last().push(more.last()) =~= pieces.last() + more);
    }
}

proof fn lemma_trim_end_keeps(s: Seq<char>, k: int)
    requires
        0 <= k < s.len(),
        !is_white_space(s[k]),
    ensures
        trim_end_of(s).len() > k,
    decreases s.len(),
{
    if is_white_space(s.last()) {
        lemma_trim_end_keeps(s.drop_last(), k);
    }
}

/// A text that holds more than white space is not empty once it is trimmed.
pub proof fn lemma_trim_keeps(s: Seq<char>, k: int)
    requires
        0 <= k < s.len(),
        !is_white_space(s[k]),
    ensures
        trim_of(s).len() > 0,
    decreases s.len(),
{
    if is_white_space(s[0]) {
        lemma_trim_keeps(s.drop_first(), k - 1);
    } else {
        lemma_trim_end_keeps(s, k);
    }
}

/// Whether a text has no white space at its ends.
pub open spec fn is_trimmed(s: Seq<char>) -> bool {
    s.len() > 0 ==> !is_white_space(s[0]) && !is_white_space(s.last())
}

proof fn lemma_trim_start(s: Seq<char>)
    ensures
        trim_start_of(s).len() > 0 ==> !is_white_space(trim_start_of(s)[0]),
        forall|c: char| #[trigger] trim_start_of(s).contains(c) ==> s.contains(c),
    decreases s.len(),
{
    if s.len() > 0 && is_white_space(s[0]) {
        lemma_trim_start(s.drop_first());
        assert forall|c: char| #[trigger] trim_start_of(s).contains(c) implies s.contains(c) by {
            let k = s.drop_first().index_of(c);
            assert(s[k + 1] == c);
        }
    }
}

proof fn lemma_trim_end(s: Seq<char>)
    ensures
        trim_end_of(s).is_prefix_of(s),
        trim_end_of(s).len() > 0 ==> !is_white_space(trim_end_of(s).last()),
    decreases s.len(),
{
    if s.len() > 0 && is_white_space(s.last()) {
        lemma_trim_end(s.drop_last());
    }
}

/// A trimmed text has no white space at its ends, and only characters of the
/// text.
pub proof fn law_trimming(s: Seq<char>)
    ensures
        is_trimmed(trim_of(s)),
        forall|c: char| #[trigger] trim_of(s).contains(c) ==> s.contains(c),
{
    let t = trim_start_of(s);
    lemma_trim_start(s);
    lemma_trim_end(t);
    assert forall|c: char| #[trigger] trim_of(s).contains(c) implies s.contains(c) by {
        let k = trim_of(s).index_of(c);
        assert(t[k] == c);
        assert(t.contains(c));
    }
}

/// The pieces of a split text hold no separator, and only characters of the text.
pub proof fn law_pieces_hold_no_separator(s: Seq<char>, sep: char, i: int)
    requires
        0 <= i < split_of(s, sep).len(),
    ensures
        !split_of(s, sep)[i].contains(sep),
        forall|c: char| #[trigger] split_of(s, sep)[i].contains(c) ==> s.contains(c),
    decreases s.len(),
{
    if s.len() > 0 {
        let front = s.drop_last();
        let before = split_of(front, sep);
        let piece = split_of(s, sep)[i];
        lemma_split_nonempty(front, sep);
        if i < before.len() {
            law_pieces_hold_no_separator(front, sep, i);
        }
        assert forall|c: char| #[trigger] piece.contains(c) implies s.contains(c) && c != sep by {
            let k = piece.index_of(c);
            if i < before.len() && k < before[i].len() {
                assert(before[i][k] == c);
                assert(before[i].contains(c));
                let j = front.index_of(c);
                assert(s[j] == c);
            } else {
                assert(s[s.len() - 1] == c);
            }
        }
    }
}

/// Pieces that are joined are split again.
pub proof fn law_split_undoes_join(pieces: Seq<Seq<char>>, sep: char)
    requires
        pieces.len() > 0,
        forall|i: int| 0 <= i < pieces.len() ==> !(#[trigger] pieces[i]).contains(sep),
    ensures
        split_of(join_of(pieces, seq![sep]), sep) == pieces,
    decreases pieces.len(),
{
    let empty = Seq::<char>::empty();
    let last = pieces.last();
    if pieces.len() == 1 {
        lemma_split_extend(empty, last, sep);
        assert(empty + last =~= last);
        assert(split_of(last, sep) =~= pieces);
    } else {
        let front = pieces.drop_last();
        let joined = join_of(front, seq![sep]);
        law_split_undoes_join(front, sep);
        let open = joined + seq![sep];
        assert(open.drop_last() =~= joined);
        assert(split_of(open, sep) =~= front.push(empty));
        lemma_split_extend(open, last, sep);
        assert(empty + last =~= last);
        assert(split_of(open + last, sep) =~= pieces);
    }
}

/// Replacing a character goes through the parts of a text.
pub proof fn lemma_replace_concat(a: Seq<char>, b: Seq<char>, from: char, to: Seq<char>)
    ensures
        replace_char_of(a + b, from, to) == replace_char_of(a, from, to) + replace_char_of(
            b,
            from,
            to,
        ),
    decreases b.len(),
{
    if b.len() == 0 {
        assert(a + b =~= a);
        assert(replace_char_of(a, from, to) + replace_char_of(b, from, to) =~= replace_char_of(
            a,
            from,
            to,
        ));
    } else {
        lemma_replace_concat(a, b.drop_last(), from, to);
        assert((a + b).drop_last() =~= a + b.drop_last());
        assert(replace_char_of(a + b, from, to) =~= replace_char_of(a, from, to)
            + replace_char_of(b, from, to));
    }
}

/// A text without the character stays.
pub proof fn lemma_replace_nothing(s: Seq<char>, from: char, to: Seq<char>)
    requires
        !s.contains(from),
    ensures
        replace_char_of(s, from, to) == s,
    decreases s.len(),
{
    if s.len() > 0 {
        assert(s[s.len() - 1] != from) by {
            assert(s.contains(s[s.len() - 1]));
        }
        assert forall|k: int| 0 <= k < s.drop_last().len() implies s.drop_last()[k] != from by {
            assert(s.contains(s[k]));
        }
        lemma_replace_nothing(s.drop_last(), from, to);
        assert(s.drop_last().push(s.last()) =~= s);
    } else {
        assert(replace_char_of(s, from, to) =~= s);
    }
}

/// What is replaced is gone.
pub proof fn lemma_replace_removes(s: Seq<char>, from: char, to: Seq<char>)
    requires
        !to.contains(from),
    ensures
        !replace_char_of(s, from, to).contains(from),
    decreases s.len(),
{
    if s.len() > 0 {
        let before = replace_char_of(s.drop_last(), from, to);
        lemma_replace_removes(s.drop_last(), from, to);
        let now = replace_char_of(s, from, to);
        assert forall|k: int| 0 <= k < now.len() implies now[k] != from by {
            if k < before.len() {
                assert(before.contains(before[k]));
            } else if s.last() == from {
                assert(to.contains(to[k - before.len()]));
            }
        }
    }
}

/// A text stands somewhere in another if and only if it stands between what is
/// before it and what is behind it.
pub proof fn law_occurrence(s: Seq<char>, part: Seq<char>)
    ensures
        occurs(s, part) <==> exists|a: Seq<char>, b: Seq<char>| s == #[trigger] (a + part + b),
{
    if occurs(s, part) {
        let at = choose|at: int| stands_at(s, part, at);
        assert(s =~= s.take(at) + part + s.skip(at + part.len()));
    }
    if exists|a: Seq<char>, b: Seq<char>| s == #[trigger] (a + part + b) {
        let (a, b) = choose|a: Seq<char>, b: Seq<char>| s == #[trigger] (a + part + b);
        assert(s.subrange(a.len() as int, (a.len() + part.len()) as int) =~= part);
        assert(stands_at(s, part, a.len() as int));
    }
}

/// Whether two texts agree in their first `k` characters, and the first text ends
/// there or has the smaller character.
pub open spec fn goes_first_at(a: Seq<char>, b: Seq<char>, k: int) -> bool {
    &&& 0 <= k <= a.len()
    &&& k < b.len()
    &&& a.take(k) == b.take(k)
    &&& k == a.len() || (a[k] as int) < (b[k] as int)
}

/// One text comes before another if and only if it is the front of it, or has the
/// smaller character where the two first differ.
pub proof fn law_alphabetical_order(a: Seq<char>, b: Seq<char>)
    ensures
        text_less(a, b) <==> exists|k: int| goes_first_at(a, b, k),
    decreases a.len(),
{
    if a.len() > 0 && b.len() > 0 && a[0] == b[0] {
        let x = a.drop_first();
        let y = b.drop_first();
        law_alphabetical_order(x, y);
        if text_less(a, b) {
            let k = choose|k: int| goes_first_at(x, y, k);
            assert(a.take(k + 1) =~= seq![a[0]] + x.take(k));
            assert(b.take(k + 1) =~= seq![b[0]] + y.take(k));
            assert(goes_first_at(a, b, k + 1));
        }
        if exists|k: int| goes_first_at(a, b, k) {
            let k = choose|k: int| goes_first_at(a, b, k);
            assert(k > 0);
            assert(x.take(k - 1) =~= a.take(k).drop_first());
            assert(y.take(k - 1) =~= b.take(k).drop_first());
            assert(goes_first_at(x, y, k - 1));
        }
    } else if b.len() > 0 {
        assert(a.take(0) =~= b.take(0));
        if text_less(a, b) {
            assert(goes_first_at(a, b, 0));
        }
        if exists|k: int| goes_first_at(a, b, k) {
            let k = choose|k: int| goes_first_at(a, b, k);
            if k > 0 {
                assert(a.take(k)[0] == b.take(k)[0]);
            }
        }
    }
}

/// A text without a separator in its first part is found again at its end.
pub proof fn lemma_find_first(a: Seq<char>, c: char, b: Seq<char>, from: int)
    requires
        0 <= from <= a.len(),
        forall|i: int| from <= i < a.len() ==> a[i] != c,
    ensures
        find_from(a + seq![c] + b, seq![c], from) == Some(a.len() as int),
    decreases a.len() - from,
{
    let s = a + seq![c] + b;
    assert(s.subrange(from, from + 1) =~= seq![s[from]]);
    if from == a.len() {
        assert(stands_at(s, seq![c], from));
    } else {
        assert(s.subrange(from, from + 1)[0] != seq![c][0]);
        lemma_find_first(a, c, b, from + 1);
    }
}

/// A character that a text does not hold is not found.
pub proof fn lemma_find_nothing(a: Seq<char>, c: char, from: int)
    requires
        0 <= from,
        forall|i: int| from <= i < a.len() ==> a[i] != c,
    ensures
        find_from(a, seq![c], from) is None,
    decreases a.len() - from,
{
    if from < a.len() {
        assert(a.subrange(from, from + 1)[0] != seq![c][0]);
        lemma_find_nothing(a, c, from + 1);
    }
}

/// A text without white space at its ends is trimmed already.
pub proof fn law_trimmed_text_stays(s: Seq<char>)
    requires
        is_trimmed(s),
    ensures
        trim_of(s) == s,
{
}

/// White space around a text is trimmed away.
pub proof fn law_trimming_takes_white_space_away(before: Seq<char>, s: Seq<char>, behind: Seq<char>)
    requires
        is_trimmed(s),
        s.len() > 0,
        forall|i: int| 0 <= i < before.len() ==> is_white_space(#[trigger] before[i]),
        forall|i: int| 0 <= i < behind.len() ==> is_white_space(#[trigger] behind[i]),
    ensures
        trim_of(before + s + behind) == s,
    decreases before.len() + behind.len(),
{
    let all = before + s + behind;
    if before.len() > 0 {
        assert(all[0] == before[0]);
        assert(all.drop_first() =~= before.drop_first() + s + behind);
        law_trimming_takes_white_space_away(before.drop_first(), s, behind);
    } else {
        assert(all =~= s + behind);
        assert(trim_start_of(all) == all);
        if behind.len() > 0 {
            assert(all.last() == behind.last());
            let shorter = before + s + behind.drop_last();
            assert(all.drop_last() =~= shorter);
            law_trimming_takes_white_space_away(before, s, behind.drop_last());
            assert(shorter[0] == s[0]);
            assert(trim_start_of(shorter) == shorter);
        } else {
            assert(all =~= s);
        }
    }
}

/// White space before a text is trimmed away at its start, and nothing else.
pub proof fn law_trimming_at_the_start(before: Seq<char>, s: Seq<char>)
    requires
        forall|i: int| 0 <= i < before.len() ==> is_white_space(#[trigger] before[i]),
        s.len() > 0 ==> !is_white_space(s[0]),
    ensures
        trim_start_of(before + s) == s,
    decreases before.len(),
{
    if before.len() > 0 {
        assert((before + s).drop_first() =~= before.drop_first() + s);
        law_trimming_at_the_start(before.drop_first(), s);
    } else {
        assert(before + s =~= s);
    }
}

/// White space behind a text is trimmed away at its end, and nothing else.
pub proof fn law_trimming_at_the_end(s: Seq<char>, behind: Seq<char>)
    requires
        forall|i: int| 0 <= i < behind.len() ==> is_white_space(#[trigger] behind[i]),
        s.len() > 0 ==> !is_white_space(s.last()),
    ensures
        trim_end_of(s + behind) == s,
    decreases behind.len(),
{
    if behind.len() > 0 {
        assert((s + behind).drop_last() =~= s + behind.drop_last());
        law_trimming_at_the_end(s, behind.drop_last());
    } else {
        assert(s + behind =~= s);
    }
}

/// Nothing is left of white space that is trimmed.
pub proof fn law_white_space_is_trimmed_away(s: Seq<char>)
    requires
        forall|i: int| 0 <= i < s.len() ==> is_white_space(#[trigger] s[i]),
    ensures
        trim_of(s).len() == 0,
{
    let empty = Seq::<char>::empty();
    law_trimming_at_the_start(s, empty);
    assert(s + empty =~= s);
}

/// The pieces of a text with the separator between them are the text.
pub proof fn law_join_undoes_split(s: Seq<char>, sep: char)
    ensures
        join_of(split_of(s, sep), seq![sep]) == s,
    decreases s.len(),
{
    if s.len() > 0 {
        let front = s.drop_last();
        let before = split_of(front, sep);
        lemma_split_nonempty(front, sep);
        law_join_undoes_split(front, sep);
        let pieces = split_of(s, sep);
        if s.last() == sep {
            assert(pieces.drop_last() =~= before);
            assert(join_of(pieces, seq![sep]) =~= s);
        } else {
            assert(pieces.drop_last() =~= before.drop_last());
            if before.len() == 1 {
                assert(pieces[0] =~= before[0].push(s.last()));
            }
            assert(join_of(pieces, seq![sep]) =~= join_of(before, seq![sep]).push(s.last()));
            assert(front.push(s.last()) =~= s);
        }
    }
}

proof fn lemma_lines_of_pieces(s: Seq<char>)
    ensures
        split_of(s.push('\n'), '\n') == split_of(s, '\n').push(Seq::<char>::empty()),
{
    assert(s.push('\n').drop_last() =~= s);
}

/// Lines that each end at a newline, or at a carriage return and a newline, are
/// read back; the last one may also end with the text.
pub proof fn law_lines_read_back(lines: Seq<Seq<char>>)
    requires
        lines.len() > 0,
        forall|i: int|
            0 <= i < lines.len() ==> !(#[trigger] lines[i]).contains('\n') && (lines[i].len() > 0
                ==> lines[i].last() != '\r'),
    ensures
        lines_of(join_of(lines, seq!['\n']).push('\n')) == lines,
        lines_of(
            join_of(lines.map_values(|l: Seq<char>| l.push('\r')), seq!['\n']).push('\n'),
        ) == lines,
        lines.last().len() > 0 ==> lines_of(join_of(lines, seq!['\n'])) == lines,
{
    let whole = join_of(lines, seq!['\n']);
    law_split_undoes_join(lines, '\n');
    lemma_lines_of_pieces(whole);
    let pieces = split_of(whole.push('\n'), '\n');
    assert(pieces.drop_last() =~= lines);
    assert(pieces.drop_last().map_values(|piece: Seq<char>| without_return(piece)) =~= lines);
    let ended = lines.map_values(|l: Seq<char>| l.push('\r'));
    assert forall|i: int| 0 <= i < ended.len() implies !(#[trigger] ended[i]).contains('\n') by {
        if ended[i].contains('\n') {
            let k = ended[i].index_of('\n');
            assert(lines[i][k] == '\n');
            assert(lines[i].contains('\n'));
        }
    }
    let other = join_of(ended, seq!['\n']);
    law_split_undoes_join(ended, '\n');
    lemma_lines_of_pieces(other);
    let more = split_of(other.push('\n'), '\n');
    assert(more.drop_last() =~= ended);
    assert forall|i: int| 0 <= i < lines.len() implies without_return(#[trigger] ended[i])
        == lines[i] by {
        assert(ended[i].drop_last() =~= lines[i]);
    }
    assert(more.drop_last().map_values(|piece: Seq<char>| without_return(piece)) =~= lines);
    if lines.last().len() > 0 {
        assert(lines.drop_last().map_values(|piece: Seq<char>| without_return(piece)).push(
            lines.last(),
        ) =~= lines);
    }
}

proof fn lemma_words_concat(a: Seq<char>, gap: Seq<char>, b: Seq<char>, word: Seq<char>)
    requires
        gap.len() > 0,
        forall|i: int| 0 <= i < gap.len() ==> is_white_space(#[trigger] gap[i]),
    ensures
        words_from(a + gap + b, word) == words_from(a, word) + words_of(b),
    decreases a.len() + gap.len(),
{
    let s = a + gap + b;
    let empty = Seq::<char>::empty();
    if a.len() > 0 {
        assert(s[0] == a[0]);
        assert(s.skip(1) =~= a.skip(1) + gap + b);
        if is_white_space(a[0]) {
            lemma_words_concat(a.skip(1), gap, b, empty);
            assert(words_from(s, word) =~= words_from(a, word) + words_of(b));
        } else {
            lemma_words_concat(a.skip(1), gap, b, word.push(a[0]));
        }
    } else {
        assert(s[0] == gap[0]);
        if gap.len() == 1 {
            assert(s.skip(1) =~= b);
        } else {
            assert(s.skip(1) =~= empty + gap.skip(1) + b);
            lemma_words_concat(empty, gap.skip(1), b, empty);
            assert(words_from(empty, empty) + words_of(b) =~= words_of(b));
        }
    }
}

proof fn lemma_one_word(s: Seq<char>, word: Seq<char>)
    requires
        forall|i: int| 0 <= i < s.len() ==> !is_white_space(#[trigger] s[i]),
    ensures
        words_from(s, word) == word_piece(word + s),
    decreases s.len(),
{
    if s.len() > 0 {
        assert(word.push(s[0]) + s.skip(1) =~= word + s);
        lemma_one_word(s.skip(1), word.push(s[0]));
    } else {
        assert(word + s =~= word);
    }
}

/// White space parts the words of a text, and a text without white space is one
/// word.
pub proof fn law_white_space_parts_words(a: Seq<char>, gap: Seq<char>, b: Seq<char>)
    requires
        gap.len() > 0,
        forall|i: int| 0 <= i < gap.len() ==> is_white_space(#[trigger] gap[i]),
    ensures
        words_of(a + gap + b) == words_of(a) + words_of(b),
        a.len() > 0 && (forall|i: int| 0 <= i < a.len() ==> !is_white_space(#[trigger] a[i]))
            ==> words_of(a) == seq![a],
        a.len() == 0 ==> words_of(a).len() == 0,
{
    lemma_words_concat(a, gap, b, Seq::empty());
    if forall|i: int| 0 <= i < a.len() ==> !is_white_space(#[trigger] a[i]) {
        lemma_one_word(a, Seq::empty());
        assert(Seq::<char>::empty() + a =~= a);
    }
}

/// Replacing a character puts the other text in its place, and leaves the rest.
pub proof fn law_replacing_a_character(a: Seq<char>, b: Seq<char>, from: char, to: Seq<char>)
    ensures
        replace_char_of(a + seq![from] + b, from, to) == replace_char_of(a, from, to) + to
            + replace_char_of(b, from, to),
        !a.contains(from) ==> replace_char_of(a, from, to) == a,
{
    lemma_replace_concat(a + seq![from], b, from, to);
    assert((a + seq![from]).drop_last() =~= a);
    if !a.contains(from) {
        lemma_replace_nothing(a, from, to);
    }
}

} // verus!
