//! Taking a snippet out of its file.

use vstd::prelude::*;
use crate::domain;
use crate::index::IndexedSnippet;
use crate::parser;
use crate::text;

verus! {

broadcast use vstd::string::group_string_axioms;

/// The lines of a text, each with its line break.
pub open spec fn whole_lines(s: Seq<char>) -> Seq<Seq<char>>
    decreases s.len(),
{
    if s.len() == 0 {
        Seq::empty()
    } else {
        let before = whole_lines(s.drop_last());
        let c = s.last();
        if before.len() == 0 || (before.last().len() > 0 && before.last().last() == '\n') {
            before.push(seq![c])
        } else {
            before.drop_last().push(before.last().push(c))
        }
    }
}

/// Texts one behind the other.
pub open spec fn run_together(pieces: Seq<Seq<char>>) -> Seq<char>
    decreases pieces.len(),
{
    if pieces.len() == 0 {
        Seq::empty()
    } else {
        run_together(pieces.drop_last()) + pieces.last()
    }
}

/// Whether a line is blank.
pub open spec fn is_blank(line: Seq<char>) -> bool {
    text::trim_of(line).len() == 0
}

/// Lines without the blank ones at their end.
pub open spec fn without_blank_end(lines: Seq<Seq<char>>) -> Seq<Seq<char>>
    decreases lines.len(),
{
    if lines.len() > 0 && is_blank(lines.last()) {
        without_blank_end(lines.drop_last())
    } else {
        lines
    }
}

/// An index, or the length where it lies behind the end.
pub open spec fn within(i: int, len: nat) -> int {
    if i <= len {
        i
    } else {
        len as int
    }
}

/// The lines of a text without those from `start` up to `end`.
pub open spec fn kept_lines(content: Seq<char>, start: int, end: int) -> Seq<Seq<char>> {
    let lines = whole_lines(content);
    lines.take(within(start, lines.len())) + lines.skip(within(end, lines.len()))
}

/// A text without the lines from `start` up to `end`, nor blank ones at its end.
pub open spec fn without_lines(content: Seq<char>, start: int, end: int) -> Seq<char> {
    run_together(without_blank_end(kept_lines(content, start, end)))
}

/// Where a snippet stands in its file: nowhere, where the file no longer holds
/// it as it was read.
pub open spec fn standing(
    snippet: domain::SnippetView,
    relative_path: Seq<char>,
    content: Seq<char>,
) -> Option<parser::RangeView> {
    if parser::snippets_of(relative_path, content).contains(snippet) {
        parser::range_of(parser::section_ranges(relative_path, content), snippet.id)
    } else {
        None
    }
}

/// What is said of a snippet that its file no longer holds.
pub open spec fn stale_text(id: Seq<char>, path: Seq<char>) -> Seq<char> {
    "could not locate `"@ + id + "` in "@ + path
        + "; the file may have changed or its code fence may be unterminated"@
}

fn split_lines(content: &str) -> (lines: Vec<Vec<char>>)
    ensures
        char_lists(lines@) == whole_lines(content@),
{
    let chars = text::chars_of(content);
    let mut lines: Vec<Vec<char>> = Vec::new();
    let mut i: usize = 0;
    assert(chars@.take(0) =~= Seq::<char>::empty());
    assert(char_lists(lines@) =~= Seq::<Seq<char>>::empty());
    while i < chars.len()
        invariant
            i <= chars@.len(),
            char_lists(lines@) == whole_lines(chars@.take(i as int)),
        decreases chars@.len() - i,
    {
        let ghost before = lines@;
        let c: char = chars[i];
        proof {
            assert(chars@.take(i + 1).drop_last() =~= chars@.take(i as int));
            assert(chars@.take(i + 1).last() == c);
            assert(char_lists(before).len() == before.len());
        }
        match lines.pop() {
            Some(last) => {
                let ghost rest = lines@;
                proof {
                    assert(before.last() == last);
                    assert(char_lists(before).last() == last@);
                    assert(char_lists(rest) =~= char_lists(before).drop_last());
                }
                let n: usize = last.len();
                if n > 0 && last[n - 1] == '\n' {
                    lines.push(last);
                    let mut fresh: Vec<char> = Vec::new();
                    fresh.push(c);
                    lines.push(fresh);
                    assert(fresh@ =~= seq![c]);
                    assert(char_lists(lines@) =~= char_lists(before).push(seq![c]));
                } else {
                    let mut longer = last;
                    longer.push(c);
                    lines.push(longer);
                    assert(char_lists(lines@) =~= char_lists(before).drop_last().push(last@.push(c)));
                }
            },
            None => {
                let mut fresh: Vec<char> = Vec::new();
                fresh.push(c);
                lines.push(fresh);
                assert(fresh@ =~= seq![c]);
                assert(char_lists(lines@) =~= char_lists(before).push(seq![c]));
            },
        }
        i = i + 1;
    }
    assert(chars@.take(chars@.len() as int) =~= content@);
    lines
}

spec fn char_lists(lines: Seq<Vec<char>>) -> Seq<Seq<char>> {
    lines.map_values(|l: Vec<char>| l@)
}

fn blank(line: &Vec<char>) -> (yes: bool)
    ensures
        yes == is_blank(line@),
{
    let trimmed = text::trim_chars(line);
    trimmed.len() == 0
}

/// How many lines are left without the blank ones at the end.
fn count_without_blank_end(lines: &Vec<Vec<char>>) -> (n: usize)
    ensures
        n <= lines@.len(),
        without_blank_end(char_lists(lines@)) == char_lists(lines@).take(n as int),
{
    let ghost all = char_lists(lines@);
    let mut n: usize = lines.len();
    assert(all.take(n as int) =~= all);
    while n > 0 && blank(&lines[n - 1])
        invariant
            n <= lines@.len(),
            all == char_lists(lines@),
            without_blank_end(all) == without_blank_end(all.take(n as int)),
        decreases n,
    {
        assert(all.take(n as int).last() == lines@[n - 1]@);
        assert(all.take(n as int).drop_last() =~= all.take(n - 1));
        n = n - 1;
    }
    if n > 0 {
        assert(all.take(n as int).last() == lines@[n - 1]@);
    }
    n
}

fn cut_lines(content: &str, start: usize, end: usize) -> (out: String)
    ensures
        out@ == without_lines(content@, start as int, end as int),
{
    let lines = split_lines(content);
    let ghost all = char_lists(lines@);
    let n: usize = lines.len();
    let first: usize = if start <= n {
        start
    } else {
        n
    };
    let behind: usize = if end <= n {
        end
    } else {
        n
    };
    let mut kept: Vec<Vec<char>> = Vec::new();
    let mut i: usize = 0;
    assert(char_lists(kept@) =~= all.take(0));
    while i < first
        invariant
            i <= first,
            first <= lines@.len(),
            all == char_lists(lines@),
            char_lists(kept@) == all.take(i as int),
        decreases first - i,
    {
        let ghost before = kept@;
        let line = text::sub_chars(&lines[i], 0, lines[i].len());
        assert(line@ =~= lines@[i as int]@);
        kept.push(line);
        assert(char_lists(kept@) =~= char_lists(before).push(line@));
        assert(all.take(i + 1) =~= all.take(i as int).push(all[i as int]));
        i = i + 1;
    }
    let mut j: usize = behind;
    assert(char_lists(kept@) =~= all.take(first as int) + all.subrange(behind as int, j as int));
    while j < n
        invariant
            behind <= j <= n,
            n == lines@.len(),
            first <= n,
            all == char_lists(lines@),
            char_lists(kept@) == all.take(first as int) + all.subrange(behind as int, j as int),
        decreases n - j,
    {
        let ghost before = kept@;
        let line = text::sub_chars(&lines[j], 0, lines[j].len());
        assert(line@ =~= lines@[j as int]@);
        kept.push(line);
        assert(char_lists(kept@) =~= char_lists(before).push(line@));
        assert(all.subrange(behind as int, j + 1) =~= all.subrange(behind as int, j as int).push(
            all[j as int],
        ));
        assert(char_lists(kept@) =~= all.take(first as int) + all.subrange(behind as int, j + 1));
        j = j + 1;
    }
    assert(all.subrange(behind as int, n as int) =~= all.skip(behind as int));
    let ghost remaining = char_lists(kept@);
    let count = count_without_blank_end(&kept);
    let mut out: Vec<char> = Vec::new();
    let mut k: usize = 0;
    assert(remaining.take(0) =~= Seq::<Seq<char>>::empty());
    while k < count
        invariant
            k <= count,
            count <= kept@.len(),
            remaining == char_lists(kept@),
            out@ == run_together(remaining.take(k as int)),
        decreases count - k,
    {
        assert(remaining.take(k + 1).drop_last() =~= remaining.take(k as int));
        assert(remaining.take(k + 1).last() == kept@[k as int]@);
        let mut line = text::sub_chars(&kept[k], 0, kept[k].len());
        assert(line@ =~= kept@[k as int]@);
        out.append(&mut line);
        k = k + 1;
    }
    text::string_of(&out)
}

fn holds_snippet(snippets: &Vec<domain::Snippet>, snippet: &domain::Snippet) -> (yes: bool)
    ensures
        yes == parser::snippet_views(snippets@).contains(snippet@),
{
    let ghost all = parser::snippet_views(snippets@);
    let mut i: usize = 0;
    while i < snippets.len()
        invariant
            i <= snippets@.len(),
            all == parser::snippet_views(snippets@),
            forall|k: int| 0 <= k < i ==> all[k] != snippet@,
        decreases snippets@.len() - i,
    {
        assert(all[i as int] == snippets@[i as int]@);
        if domain::same_snippet(&snippets[i], snippet) {
            return true;
        }
        i = i + 1;
    }
    false
}

fn stale_snippet_error(snippet: &IndexedSnippet) -> (out: String)
    ensures
        out@ == stale_text(snippet.snippet.id@, snippet.path@),
{
    let mut out = "could not locate `".to_owned();
    out.append(snippet.snippet.id.as_str());
    out.append("` in ");
    out.append(snippet.path.as_str());
    out.append("; the file may have changed or its code fence may be unterminated");
    out
}

/// The text of a snippet's file without the snippet: without its whole section,
/// from the heading to the next section, and without blank lines at the end.
/// It is refused where the file no longer holds the snippet as it was read.
pub fn remove_snippet(snippet: &IndexedSnippet, content: &str) -> (out: Result<String, String>)
    ensures
        match out {
            Ok(s) => match standing(snippet.snippet@, snippet.relative_path@, content@) {
                Some(range) => s@ == without_lines(content@, range.start_line, range.end_line),
                None => false,
            },
            Err(e) => standing(snippet.snippet@, snippet.relative_path@, content@) is None && e@
                == stale_text(snippet.snippet.id@, snippet.path@),
        },
{
    let current = parser::parse_file(
        snippet.path.as_str(),
        snippet.relative_path.as_str(),
        content,
    );
    if !holds_snippet(&current.snippets, &snippet.snippet) {
        return Err(stale_snippet_error(snippet));
    }
    match parser::snippet_section_range(
        snippet.relative_path.as_str(),
        content,
        &snippet.snippet.id,
    ) {
        Some((start, end)) => Ok(cut_lines(content, start, end)),
        None => Err(stale_snippet_error(snippet)),
    }
}

proof fn lemma_run_together_add(a: Seq<Seq<char>>, b: Seq<Seq<char>>)
    ensures
        run_together(a + b) == run_together(a) + run_together(b),
    decreases b.len(),
{
    if b.len() == 0 {
        assert(a + b =~= a);
        assert(run_together(a) + run_together(b) =~= run_together(a));
    } else {
        assert((a + b).drop_last() =~= a + b.drop_last());
        assert((a + b).last() == b.last());
        lemma_run_together_add(a, b.drop_last());
        assert(run_together(a + b) =~= run_together(a) + run_together(b));
    }
}

/// The lines of a text, each with its line break, make up the text.
pub proof fn law_lines_make_up_the_text(s: Seq<char>)
    ensures
        run_together(whole_lines(s)) == s,
    decreases s.len(),
{
    if s.len() > 0 {
        law_lines_make_up_the_text(s.drop_last());
        let before = whole_lines(s.drop_last());
        let now = whole_lines(s);
        if before.len() == 0 || (before.last().len() > 0 && before.last().last() == '\n') {
            assert(now.drop_last() =~= before);
            assert(now.last() =~= seq![s.last()]);
        } else {
            assert(now.drop_last() =~= before.drop_last());
            assert(now.last() =~= before.last().push(s.last()));
        }
        assert(run_together(now) =~= s.drop_last().push(s.last()));
        assert(s.drop_last().push(s.last()) =~= s);
    }
}

pub proof fn lemma_blank_end(lines: Seq<Seq<char>>)
    ensures
        ({
            let kept = without_blank_end(lines);
            &&& kept.len() <= lines.len()
            &&& kept == lines.take(kept.len() as int)
            &&& forall|i: int|
                kept.len() <= i < lines.len() ==> is_blank(#[trigger] lines[i])
        }),
    decreases lines.len(),
{
    if lines.len() > 0 && is_blank(lines.last()) {
        lemma_blank_end(lines.drop_last());
        let kept = without_blank_end(lines);
        assert(lines.drop_last().take(kept.len() as int) =~= lines.take(kept.len() as int));
        assert forall|i: int| kept.len() <= i < lines.len() implies is_blank(
            #[trigger] lines[i],
        ) by {
            if i < lines.len() - 1 {
                assert(lines[i] == lines.drop_last()[i]);
            }
        }
    } else {
        assert(lines.take(lines.len() as int) =~= lines);
    }
}

/// Taking lines out keeps every other line as it is, up to blank ones at the
/// end: what is left is the text before the lines and the text behind them, cut
/// off at the end by blank lines alone.
pub proof fn law_other_lines_stay(content: Seq<char>, start: int, end: int) -> (tail: Seq<
    Seq<char>,
>)
    requires
        0 <= start <= end,
    ensures
        ({
            let lines = whole_lines(content);
            let before = run_together(lines.take(within(start, lines.len())));
            let gone = run_together(
                lines.subrange(within(start, lines.len()), within(end, lines.len())),
            );
            let behind = run_together(lines.skip(within(end, lines.len())));
            &&& content == before + gone + behind
            &&& before + behind == without_lines(content, start, end) + run_together(tail)
            &&& forall|i: int| 0 <= i < tail.len() ==> is_blank(#[trigger] tail[i])
        }),
{
    let lines = whole_lines(content);
    let a = within(start, lines.len());
    let b = within(end, lines.len());
    law_lines_make_up_the_text(content);
    lemma_run_together_add(lines.take(a), lines.subrange(a, b));
    lemma_run_together_add(lines.take(a) + lines.subrange(a, b), lines.skip(b));
    assert(lines.take(a) + lines.subrange(a, b) + lines.skip(b) =~= lines);
    let kept = kept_lines(content, start, end);
    lemma_run_together_add(lines.take(a), lines.skip(b));
    lemma_blank_end(kept);
    let n = without_blank_end(kept).len() as int;
    let tail = kept.skip(n);
    lemma_run_together_add(kept.take(n), tail);
    assert(kept.take(n) + tail =~= kept);
    assert forall|i: int| 0 <= i < tail.len() implies is_blank(#[trigger] tail[i]) by {
        assert(tail[i] == kept[n + i]);
    }
    tail
}

/// Each line of a text holds its line break at its end and nowhere else. Only the
/// last one may be without.
pub proof fn law_lines_end_at_their_breaks(s: Seq<char>)
    ensures
        forall|i: int|
            0 <= i < whole_lines(s).len() ==> {
                let line = #[trigger] whole_lines(s)[i];
                &&& line.len() > 0
                &&& forall|j: int| 0 <= j < line.len() - 1 ==> line[j] != '\n'
                &&& i < whole_lines(s).len() - 1 ==> line.last() == '\n'
            },
    decreases s.len(),
{
    if s.len() > 0 {
        let before = whole_lines(s.drop_last());
        let after = whole_lines(s);
        law_lines_end_at_their_breaks(s.drop_last());
        assert forall|i: int| 0 <= i < after.len() implies {
            let line = #[trigger] after[i];
            &&& line.len() > 0
            &&& forall|j: int| 0 <= j < line.len() - 1 ==> line[j] != '\n'
            &&& i < after.len() - 1 ==> line.last() == '\n'
        } by {
            let k = before.len() - 1;
            if i < k {
                assert(after[i] == before[i]);
            } else if before.len() > 0 {
                let last = before[k];
                assert(before.last() == last);
                assert(last.len() > 0);
            }
        }
    }
}

/// A snippet that its file no longer holds as it was read stands nowhere, and is not
/// taken out.
pub proof fn law_changed_snippets_stand_nowhere(
    snippet: domain::SnippetView,
    relative_path: Seq<char>,
    content: Seq<char>,
)
    ensures
        !parser::snippets_of(relative_path, content).contains(snippet) ==> standing(
            snippet,
            relative_path,
            content,
        ) is None,
        standing(snippet, relative_path, content) matches Some(range) ==> parser::section_ranges(
            relative_path,
            content,
        ).contains(range) && range.id == snippet.id,
{
    lemma_range_is_there(parser::section_ranges(relative_path, content), snippet.id);
}

proof fn lemma_range_is_there(ranges: Seq<parser::RangeView>, id: Seq<char>)
    ensures
        parser::range_of(ranges, id) matches Some(r) ==> ranges.contains(r) && r.id == id,
    decreases ranges.len(),
{
    if ranges.len() > 0 {
        lemma_range_is_there(ranges.skip(1), id);
        if ranges[0].id == id {
            assert(ranges.contains(ranges[0]));
        } else if parser::range_of(ranges.skip(1), id) is Some {
            let r = parser::range_of(ranges.skip(1), id)->0;
            let k = ranges.skip(1).index_of(r);
            assert(ranges[k + 1] == r);
        }
    }
}

} // verus!
