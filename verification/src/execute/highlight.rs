//! Colours for shell code in the preview.

use vstd::prelude::*;
use crate::style;
use crate::style::{Color, Span, Style, Text};
use crate::text;

verus! {

broadcast use vstd::string::group_string_axioms;

/// Words of the shell's grammar, in the order in which they are tried.
pub open spec fn keywords() -> Seq<Seq<char>> {
    seq![
        "if"@,
        "then"@,
        "else"@,
        "elif"@,
        "fi"@,
        "for"@,
        "while"@,
        "until"@,
        "do"@,
        "done"@,
        "case"@,
        "esac"@,
        "in"@,
        "function"@,
        "return"@,
        "local"@,
        "export"@,
        "source"@,
        "readonly"@,
        "declare"@,
        "unset"@,
    ]
}

fn keyword_list() -> (words: Vec<String>)
    ensures
        text::texts(words@) == keywords(),
{
    let words: Vec<String> = vec![
        "if".to_owned(),
        "then".to_owned(),
        "else".to_owned(),
        "elif".to_owned(),
        "fi".to_owned(),
        "for".to_owned(),
        "while".to_owned(),
        "until".to_owned(),
        "do".to_owned(),
        "done".to_owned(),
        "case".to_owned(),
        "esac".to_owned(),
        "in".to_owned(),
        "function".to_owned(),
        "return".to_owned(),
        "local".to_owned(),
        "export".to_owned(),
        "source".to_owned(),
        "readonly".to_owned(),
        "declare".to_owned(),
        "unset".to_owned(),
    ];
    assert(text::texts(words@) =~= keywords());
    words
}

/// Whether a character belongs to a word of the shell.
pub open spec fn is_word_char(c: char) -> bool {
    text::is_ascii_alphanumeric(c) || c == '_'
}

fn word_char(c: char) -> (yes: bool)
    ensures
        yes == is_word_char(c),
{
    text::ascii_alphanumeric(c) || c == '_'
}

/// The first place at or behind `from` of one of the characters of `set`, or
/// the end.
pub open spec fn first_of(s: Seq<char>, set: Seq<char>, from: int) -> int
    decreases s.len() - from,
{
    if from < 0 || from >= s.len() || set.contains(s[from]) {
        from
    } else {
        first_of(s, set, from + 1)
    }
}

fn find_first_of(s: &Vec<char>, set: &Vec<char>, from: usize) -> (at: usize)
    requires
        from <= s@.len(),
    ensures
        at == first_of(s@, set@, from as int),
        from <= at <= s@.len(),
{
    let mut i: usize = from;
    while i < s.len()
        invariant
            from <= i <= s@.len(),
            first_of(s@, set@, i as int) == first_of(s@, set@, from as int),
        decreases s@.len() - i,
    {
        let mut k: usize = 0;
        let mut hit = false;
        while k < set.len()
            invariant
                i < s@.len(),
                k <= set@.len(),
                hit == exists|j: int| 0 <= j < k && set@[j] == s@[i as int],
            decreases set@.len() - k,
        {
            if set[k] == s[i] {
                hit = true;
            }
            k = k + 1;
        }
        if hit {
            let ghost j = choose|j: int| 0 <= j < k && set@[j] == s@[i as int];
            assert(set@.contains(set@[j]));
            return i;
        }
        i = i + 1;
    }
    i
}

/// The first place at or behind `from` where a variable's name ends.
pub open spec fn name_end(s: Seq<char>, from: int) -> int
    decreases s.len() - from,
{
    if from < 0 || from >= s.len() || !(text::is_alphanumeric(s[from]) || s[from] == '_') {
        from
    } else {
        name_end(s, from + 1)
    }
}

fn find_name_end(s: &Vec<char>, from: usize) -> (at: usize)
    requires
        from <= s@.len(),
    ensures
        at == name_end(s@, from as int),
        from <= at <= s@.len(),
{
    let mut i: usize = from;
    while i < s.len()
        invariant
            from <= i <= s@.len(),
            name_end(s@, i as int) == name_end(s@, from as int),
        decreases s@.len() - i,
    {
        let inside = text::alphanumeric(s[i]) || s[i] == '_';
        if !inside {
            return i;
        }
        i = i + 1;
    }
    i
}

/// The place behind the first `c` at or behind `from`, or the end.
pub open spec fn behind(s: Seq<char>, c: char, from: int) -> int {
    let at = first_of(s, seq![c], from);
    if at < s.len() {
        at + 1
    } else {
        at
    }
}

fn find_behind(s: &Vec<char>, c: char, from: usize) -> (at: usize)
    requires
        from <= s@.len(),
    ensures
        at == behind(s@, c, from as int),
        from <= at <= s@.len(),
        from < s@.len() ==> from < at,
{
    let mut set: Vec<char> = Vec::new();
    set.push(c);
    assert(set@ =~= seq![c]);
    let at: usize = find_first_of(s, &set, from);
    if at < s.len() {
        at + 1
    } else {
        at
    }
}

/// Whether the word that stands at `at` ends there: it does not go on behind
/// `end`.
pub open spec fn ends_word(s: Seq<char>, end: int) -> bool {
    end >= s.len() || !is_word_char(s[end])
}

/// The first of `words` that stands at `at` as a whole word.
pub open spec fn keyword_at(s: Seq<char>, at: int, words: Seq<Seq<char>>) -> Option<int>
    decreases words.len(),
{
    if words.len() == 0 {
        None
    } else if text::stands_at(s, words[0], at) && ends_word(s, at + words[0].len()) {
        Some(at + words[0].len())
    } else {
        keyword_at(s, at, words.skip(1))
    }
}

/// The coloured stretch that begins at `at`: the place behind it and its
/// style. Placeholders, comments, strings, variables, options and keywords are
/// coloured.
pub open spec fn token_at(s: Seq<char>, at: int) -> Option<(int, Style)> {
    let c = s[at];
    let word_start = at == 0 || !is_word_char(s[at - 1]);
    let closed = first_of(s, seq!['>'], at);
    let option_end = first_of(s, seq![' ', '=', '\'', '"', ';'], at);
    if text::stands_at(s, seq!['<', '@'], at) && closed < s.len() {
        Some(
            (
                closed + 1,
                Style::plain().with_fg(Color::Yellow).with_modifier(style::BOLD),
            ),
        )
    } else if c == '#' {
        Some((s.len() as int, Style::plain().with_fg(Color::DarkGray)))
    } else if c == '"' {
        Some((behind(s, '"', at + 1), Style::plain().with_fg(Color::Green)))
    } else if c == '\'' {
        Some((behind(s, '\'', at + 1), Style::plain().with_fg(Color::Green)))
    } else if c == '$' {
        if at + 1 < s.len() && s[at + 1] == '{' {
            Some((behind(s, '}', at), Style::plain().with_fg(Color::Cyan)))
        } else if name_end(s, at + 1) == at + 1 {
            None
        } else {
            Some((name_end(s, at + 1), Style::plain().with_fg(Color::Cyan)))
        }
    } else if word_start && c == '-' && !(at + 1 < s.len() && s[at + 1] == ' ') && option_end > at
        + 1 {
        Some((option_end, Style::plain().with_fg(Color::Blue)))
    } else if word_start {
        match keyword_at(s, at, keywords()) {
            Some(end) => Some((end, Style::plain().with_fg(Color::Magenta))),
            None => None,
        }
    } else {
        None
    }
}

fn find_keyword(s: &Vec<char>, at: usize) -> (end: Option<usize>)
    requires
        at < s@.len(),
    ensures
        match end {
            Some(e) => keyword_at(s@, at as int, keywords()) == Some(e as int) && at < e
                <= s@.len(),
            None => keyword_at(s@, at as int, keywords()) is None,
        },
{
    let words = keyword_list();
    let ghost all = text::texts(words@);
    let n: usize = s.len();
    let mut i: usize = 0;
    assert(all.skip(0) =~= all);
    while i < words.len()
        invariant
            i <= words@.len(),
            at < n == s@.len(),
            all == text::texts(words@),
            all == keywords(),
            keyword_at(s@, at as int, all.skip(i as int)) == keyword_at(s@, at as int, all),
        decreases words@.len() - i,
    {
        let ghost rest = all.skip(i as int);
        let word = text::chars_of(words[i].as_str());
        assert(rest[0] == word@);
        assert(rest.skip(1) =~= all.skip(i + 1));
        if text::is_at(s, &word, at) {
            let end: usize = at + word.len();
            if end == n || !word_char(s[end]) {
                proof {
                    lemma_keywords_not_empty(i as int);
                }
                return Some(end);
            }
        }
        i = i + 1;
    }
    None
}

proof fn lemma_keywords_not_empty(i: int)
    requires
        0 <= i < keywords().len(),
    ensures
        keywords()[i].len() > 0,
{
    reveal_strlit("if");
    reveal_strlit("then");
    reveal_strlit("else");
    reveal_strlit("elif");
    reveal_strlit("fi");
    reveal_strlit("for");
    reveal_strlit("while");
    reveal_strlit("until");
    reveal_strlit("do");
    reveal_strlit("done");
    reveal_strlit("case");
    reveal_strlit("esac");
    reveal_strlit("in");
    reveal_strlit("function");
    reveal_strlit("return");
    reveal_strlit("local");
    reveal_strlit("export");
    reveal_strlit("source");
    reveal_strlit("readonly");
    reveal_strlit("declare");
    reveal_strlit("unset");
}

/// The coloured stretch that begins at `at`.
fn try_highlight_match(s: &Vec<char>, at: usize) -> (token: Option<(usize, Style)>)
    requires
        at < s@.len(),
    ensures
        match token {
            Some((end, style)) => token_at(s@, at as int) == Some((end as int, style)) && at < end
                <= s@.len(),
            None => token_at(s@, at as int) is None,
        },
{
    let c = s[at];
    let n: usize = s.len();
    let word_start = at == 0 || !word_char(s[at - 1]);
    let opener: Vec<char> = vec!['<', '@'];
    assert(opener@ =~= seq!['<', '@']);
    if text::is_at(s, &opener, at) {
        let closer: Vec<char> = vec!['>'];
        assert(closer@ =~= seq!['>']);
        let closed: usize = find_first_of(s, &closer, at);
        if closed < n {
            return Some(
                (closed + 1, Style::default().fg(Color::Yellow).add_modifier(style::BOLD)),
            );
        }
    }
    if c == '#' {
        return Some((n, Style::default().fg(Color::DarkGray)));
    }
    if c == '"' {
        return Some((find_behind(s, '"', at + 1), Style::default().fg(Color::Green)));
    }
    if c == '\'' {
        return Some((find_behind(s, '\'', at + 1), Style::default().fg(Color::Green)));
    }
    if c == '$' {
        if at + 1 < n && s[at + 1] == '{' {
            let end: usize = find_behind(s, '}', at);
            return Some((end, Style::default().fg(Color::Cyan)));
        }
        let end: usize = find_name_end(s, at + 1);
        if end == at + 1 {
            return None;
        }
        return Some((end, Style::default().fg(Color::Cyan)));
    }
    if word_start && c == '-' && !(at + 1 < n && s[at + 1] == ' ') {
        let stops: Vec<char> = vec![' ', '=', '\'', '"', ';'];
        assert(stops@ =~= seq![' ', '=', '\'', '"', ';']);
        let end: usize = find_first_of(s, &stops, at);
        if end > at + 1 {
            return Some((end, Style::default().fg(Color::Blue)));
        }
    }
    if word_start {
        match find_keyword(s, at) {
            Some(end) => {
                return Some((end, Style::default().fg(Color::Magenta)));
            },
            None => {},
        }
    }
    None
}

/// A piece of plain text, where there is any.
pub open spec fn plain_piece(s: Seq<char>) -> Seq<style::SpanView> {
    if s.len() == 0 {
        Seq::empty()
    } else {
        seq![style::raw_span(s)]
    }
}

/// The runs of a line from `at` on, where plain text has been running since
/// `from`.
pub open spec fn spans_from(s: Seq<char>, from: int, at: int) -> Seq<style::SpanView>
    decreases s.len() - at,
{
    if at < 0 || at >= s.len() {
        plain_piece(s.subrange(from, s.len() as int))
    } else {
        match token_at(s, at) {
            Some((end, style)) if at < end <= s.len() => plain_piece(s.subrange(from, at)).push(
                style::styled_span(s.subrange(at, end), style),
            ) + spans_from(s, end, end),
            _ => spans_from(s, from, at + 1),
        }
    }
}

/// The lines of shell code with their colours.
pub open spec fn shell_lines(body: Seq<char>) -> Seq<Seq<style::SpanView>> {
    text::lines_of(body).map_values(|line: Seq<char>| spans_from(line, 0, 0))
}

/// A line of shell code with its colours.
fn highlight_shell_line(line: &str) -> (spans: Vec<Span>)
    ensures
        style::span_views(spans@) == spans_from(line@, 0, 0),
{
    let chars = text::chars_of(line);
    let mut out: Vec<Span> = Vec::new();
    let mut from: usize = 0;
    let mut at: usize = 0;
    assert(style::span_views(out@) + spans_from(chars@, 0, 0) =~= spans_from(chars@, 0, 0));
    while at < chars.len()
        invariant
            from <= at <= chars@.len(),
            style::span_views(out@) + spans_from(chars@, from as int, at as int) == spans_from(
                chars@,
                0,
                0,
            ),
        decreases chars@.len() - at,
    {
        match try_highlight_match(&chars, at) {
            Some((end, style)) => {
                let ghost before = style::span_views(out@);
                let ghost plain = plain_piece(chars@.subrange(from as int, at as int));
                if from < at {
                    let span = Span::raw(text::string_from(&chars, from, at));
                    proof {
                        style::lemma_spans_push(out@, span);
                    }
                    out.push(span);
                }
                assert(style::span_views(out@) =~= before + plain);
                let span = Span::styled(text::string_from(&chars, at, end), style);
                proof {
                    style::lemma_spans_push(out@, span);
                    let rest = spans_from(chars@, end as int, end as int);
                    assert((before + plain).push(span@) + rest =~= before + (plain.push(span@)
                        + rest));
                }
                out.push(span);
                at = end;
                from = end;
            },
            None => {
                at = at + 1;
            },
        }
    }
    if from < chars.len() {
        let span = Span::raw(text::string_from(&chars, from, chars.len()));
        proof {
            style::lemma_spans_push(out@, span);
            assert(style::span_views(out@).push(span@) =~= style::span_views(out@) + plain_piece(
                chars@.subrange(from as int, chars@.len() as int),
            ));
        }
        out.push(span);
    } else {
        assert(style::span_views(out@) + plain_piece(
            chars@.subrange(from as int, chars@.len() as int),
        ) =~= style::span_views(out@));
    }
    out
}

/// Shell code with its colours.
pub fn highlight_shell(body: &str) -> (out: Text)
    ensures
        out@ == shell_lines(body@),
{
    let lines = text::lines(body);
    let ghost all = text::texts(lines@);
    let ghost shown = shell_lines(body@);
    let mut out = Text::new();
    let mut i: usize = 0;
    assert(out@ =~= shown.take(0));
    while i < lines.len()
        invariant
            i <= lines@.len(),
            all == text::texts(lines@),
            all == text::lines_of(body@),
            shown == shell_lines(body@),
            out@ == shown.take(i as int),
        decreases lines@.len() - i,
    {
        assert(all[i as int] == lines@[i as int]@);
        assert(shown.take(i + 1) =~= shown.take(i as int).push(shown[i as int]));
        out.push(highlight_shell_line(lines[i].as_str()));
        i = i + 1;
    }
    assert(shown.take(shown.len() as int) =~= shown);
    out
}

proof fn lemma_plain_concat(a: Seq<style::SpanView>, b: Seq<style::SpanView>)
    ensures
        style::plain_line(a + b) == style::plain_line(a) + style::plain_line(b),
    decreases b.len(),
{
    if b.len() == 0 {
        assert(a + b =~= a);
        assert(style::plain_line(a) + style::plain_line(b) =~= style::plain_line(a));
    } else {
        assert((a + b).drop_last() =~= a + b.drop_last());
        lemma_plain_concat(a, b.drop_last());
        assert(style::plain_line(a + b) =~= style::plain_line(a) + style::plain_line(b));
    }
}

proof fn lemma_spans_hold_the_rest(s: Seq<char>, from: int, at: int)
    requires
        0 <= from <= at <= s.len(),
    ensures
        style::plain_line(spans_from(s, from, at)) == s.skip(from),
    decreases s.len() - at,
{
    reveal_with_fuel(style::plain_line, 3);
    if at >= s.len() {
        let rest = s.subrange(from, s.len() as int);
        assert(rest =~= s.skip(from));
        if rest.len() > 0 {
            assert(plain_piece(rest).drop_last() =~= Seq::<style::SpanView>::empty());
            assert(Seq::<char>::empty() + rest =~= rest);
        } else {
            assert(rest =~= Seq::<char>::empty());
        }
    } else {
        match token_at(s, at) {
            Some((end, style)) if at < end <= s.len() => {
                let plain = s.subrange(from, at);
                let token = s.subrange(at, end);
                let head = plain_piece(plain).push(style::styled_span(token, style));
                lemma_spans_hold_the_rest(s, end, end);
                lemma_plain_concat(head, spans_from(s, end, end));
                assert(head.drop_last() =~= plain_piece(plain));
                assert(style::plain_line(plain_piece(plain)) =~= plain) by {
                    if plain.len() > 0 {
                        assert(plain_piece(plain).drop_last() =~= Seq::<style::SpanView>::empty());
                        assert(Seq::<char>::empty() + plain =~= plain);
                    }
                }
                assert(plain + token + s.skip(end) =~= s.skip(from));
            },
            _ => {
                lemma_spans_hold_the_rest(s, from, at + 1);
            },
        }
    }
}

/// Colours change no text: the runs of each line together are the line.
pub proof fn law_colours_keep_the_text(body: Seq<char>, i: int)
    requires
        0 <= i < text::lines_of(body).len(),
    ensures
        style::plain_line(shell_lines(body)[i]) == text::lines_of(body)[i],
{
    let line = text::lines_of(body)[i];
    lemma_spans_hold_the_rest(line, 0, 0);
    assert(line.skip(0) =~= line);
}

proof fn lemma_first_of(s: Seq<char>, c: char, from: int, at: int)
    requires
        0 <= from <= at < s.len(),
        s[at] == c,
        forall|i: int| from <= i < at ==> s[i] != c,
    ensures
        first_of(s, seq![c], from) == at,
    decreases at - from,
{
    assert(seq![c][0] == c);
    assert(seq![c].contains(c));
    if from < at {
        assert(!seq![c].contains(s[from])) by {
            if seq![c].contains(s[from]) {
                let k = seq![c].index_of(s[from]);
                assert(seq![c][k] == c);
            }
        }
        lemma_first_of(s, c, from + 1, at);
    }
}

/// A string is coloured from its first quote to the next one.
pub proof fn law_strings_are_coloured(a: Seq<char>, quote: char, x: Seq<char>, b: Seq<char>)
    requires
        quote == '"' || quote == '\'',
        !x.contains(quote),
    ensures
        token_at(a + seq![quote] + x + seq![quote] + b, a.len() as int) == Some(
            (
                (a.len() + x.len() + 2) as int,
                (Style { fg: Some(Color::Green), bg: None, add_modifier: 0, sub_modifier: 0 }),
            ),
        ),
{
    let s = a + seq![quote] + x + seq![quote] + b;
    let at = a.len() as int;
    let end = at + x.len() + 1;
    assert(s[at] == quote);
    assert(s[end] == quote);
    assert forall|i: int| at + 1 <= i < end implies s[i] != quote by {
        assert(x[i - at - 1] == s[i]);
        assert(x.contains(x[i - at - 1]));
    }
    lemma_first_of(s, quote, at + 1, end);
    assert(!text::stands_at(s, seq!['<', '@'], at)) by {
        if text::stands_at(s, seq!['<', '@'], at) {
            assert(s.subrange(at, at + 2)[0] == s[at]);
        }
    }
}

/// A comment is coloured from its number sign to the end of the line.
pub proof fn law_comments_are_coloured(a: Seq<char>, b: Seq<char>)
    ensures
        token_at(a + seq!['#'] + b, a.len() as int) == Some(
            (
                (a.len() + b.len() + 1) as int,
                (Style { fg: Some(Color::DarkGray), bg: None, add_modifier: 0, sub_modifier: 0 }),
            ),
        ),
{
    let s = a + seq!['#'] + b;
    let at = a.len() as int;
    assert(s[at] == '#');
    assert(!text::stands_at(s, seq!['<', '@'], at)) by {
        if text::stands_at(s, seq!['<', '@'], at) {
            assert(s.subrange(at, at + 2)[0] == s[at]);
        }
    }
}

/// A placeholder is coloured from its first bracket to the next closing one.
pub proof fn law_placeholders_are_coloured(a: Seq<char>, x: Seq<char>, b: Seq<char>)
    requires
        !x.contains('>'),
    ensures
        token_at(a + seq!['<', '@'] + x + seq!['>'] + b, a.len() as int) matches Some((end, style))
            && end == a.len() + x.len() + 3 && style.fg == Some(Color::Yellow),
{
    let s = a + seq!['<', '@'] + x + seq!['>'] + b;
    let at = a.len() as int;
    let end = at + x.len() + 2;
    assert(s.subrange(at, at + 2) =~= seq!['<', '@']);
    assert(text::stands_at(s, seq!['<', '@'], at));
    assert(s[end] == '>');
    assert forall|i: int| at <= i < end implies s[i] != '>' by {
        if i >= at + 2 {
            assert(x[i - at - 2] == s[i]);
            assert(x.contains(x[i - at - 2]));
        }
    }
    lemma_first_of(s, '>', at, end);
}

} // verus!
