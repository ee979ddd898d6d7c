//! What is left of a file once a snippet was taken out of it.

use vstd::prelude::*;
use crate::domain;
use crate::edit::remove;
use crate::parser;
use crate::parser::{Progress, ScanView, SectionView};
use crate::text;

verus! {

broadcast use vstd::string::group_string_axioms;

// Lines with their line breaks, and lines without.

/// A line without its line break.
spec fn clean(line: Seq<char>) -> Seq<char> {
    if line.len() > 0 && line.last() == '\n' {
        text::without_return(line.drop_last())
    } else {
        line
    }
}

/// Whether each text is a line of its own: it is not empty, and holds no line
/// break but at its end. Only the last one may be without.
spec fn shaped(lines: Seq<Seq<char>>) -> bool {
    &&& forall|i: int| 0 <= i < lines.len() ==> one_line(#[trigger] lines[i])
    &&& forall|i: int| 0 <= i < lines.len() - 1 ==> (#[trigger] lines[i]).last() == '\n'
}

spec fn one_line(line: Seq<char>) -> bool {
    line.len() > 0 && forall|j: int| 0 <= j < line.len() - 1 ==> line[j] != '\n'
}

proof fn lemma_whole_lines_are_shaped(s: Seq<char>)
    ensures
        shaped(remove::whole_lines(s)),
    decreases s.len(),
{
    if s.len() > 0 {
        lemma_whole_lines_are_shaped(s.drop_last());
        let before = remove::whole_lines(s.drop_last());
        let now = remove::whole_lines(s);
        let c = s.last();
        if before.len() == 0 || before.last().last() == '\n' {
            assert(now == before.push(seq![c]));
            assert forall|i: int| 0 <= i < now.len() implies one_line(#[trigger] now[i]) by {
                if i < before.len() {
                    assert(now[i] == before[i]);
                }
            }
            assert forall|i: int| 0 <= i < now.len() - 1 implies (#[trigger] now[i]).last()
                == '\n' by {
                assert(now[i] == before[i]);
            }
        } else {
            assert(one_line(before[before.len() - 1]));
            assert(now == before.drop_last().push(before.last().push(c)));
            assert forall|i: int| 0 <= i < now.len() implies one_line(#[trigger] now[i]) by {
                if i < before.len() - 1 {
                    assert(now[i] == before[i]);
                } else {
                    let line = before.last().push(c);
                    assert forall|j: int| 0 <= j < line.len() - 1 implies line[j] != '\n' by {
                        if j == before.last().len() - 1 {
                            assert(line[j] == before.last().last());
                        }
                    }
                }
            }
            assert forall|i: int| 0 <= i < now.len() - 1 implies (#[trigger] now[i]).last()
                == '\n' by {
                assert(now[i] == before[i]);
            }
        }
    }
}

/// Each piece of a text between line breaks is a line without its break.
proof fn lemma_pieces_and_lines(s: Seq<char>)
    ensures
        ({
            let pieces = text::split_of(s, '\n');
            let lines = remove::whole_lines(s);
            let ended = pieces.len() - 1;
            &&& pieces.len() > 0
            &&& lines.len() == (if pieces.last().len() == 0 {
                ended
            } else {
                ended + 1
            })
            &&& forall|i: int| 0 <= i < ended ==> #[trigger] lines[i] == pieces[i].push('\n')
            &&& pieces.last().len() > 0 ==> lines.last() == pieces.last()
        }),
    decreases s.len(),
{
    text::lemma_split_nonempty(s, '\n');
    if s.len() > 0 {
        lemma_pieces_and_lines(s.drop_last());
        lemma_whole_lines_are_shaped(s.drop_last());
        text::lemma_split_nonempty(s.drop_last(), '\n');
        let c = s.last();
        let pb = text::split_of(s.drop_last(), '\n');
        let lb = remove::whole_lines(s.drop_last());
        let p = text::split_of(s, '\n');
        let l = remove::whole_lines(s);
        let fresh = lb.len() == 0 || (lb.last().len() > 0 && lb.last().last() == '\n');
        if pb.last().len() == 0 {
            if lb.len() > 0 {
                assert(lb[lb.len() - 1] == pb[lb.len() - 1].push('\n'));
            }
            assert(fresh);
        } else {
            lemma_last_piece(s.drop_last());
            assert(lb.last() == pb.last());
            assert(!fresh);
        }
        if c == '\n' {
            assert(p == pb.push(Seq::<char>::empty()));
            assert forall|i: int| 0 <= i < p.len() - 1 implies #[trigger] l[i] == p[i].push(
                '\n',
            ) by {
                if i < pb.len() - 1 {
                    assert(lb[i] == pb[i].push('\n'));
                    assert(l[i] == lb[i]);
                } else if fresh {
                    assert(l[i] =~= pb.last().push('\n'));
                } else {
                    assert(l[i] == lb.last().push('\n'));
                }
            }
        } else {
            assert(p == pb.drop_last().push(pb.last().push(c)));
            assert forall|i: int| 0 <= i < p.len() - 1 implies #[trigger] l[i] == p[i].push(
                '\n',
            ) by {
                assert(lb[i] == pb[i].push('\n'));
                assert(l[i] == lb[i]);
            }
            if fresh {
                assert(l.last() =~= pb.last().push(c));
            }
        }
    }
}

/// The last piece of a text holds no line break.
proof fn lemma_last_piece(s: Seq<char>)
    ensures
        text::split_of(s, '\n').len() > 0,
        forall|j: int|
            0 <= j < text::split_of(s, '\n').last().len() ==> #[trigger] text::split_of(
                s,
                '\n',
            ).last()[j] != '\n',
    decreases s.len(),
{
    text::lemma_split_nonempty(s, '\n');
    if s.len() > 0 {
        lemma_last_piece(s.drop_last());
        let last = text::split_of(s.drop_last(), '\n').last();
        if s.last() != '\n' {
            assert(text::split_of(s, '\n').last() == last.push(s.last()));
        }
    }
}

proof fn lemma_lines_are_clean(s: Seq<char>)
    ensures
        text::lines_of(s) == remove::whole_lines(s).map_values(|line: Seq<char>| clean(line)),
{
    lemma_pieces_and_lines(s);
    let pieces = text::split_of(s, '\n');
    let lines = remove::whole_lines(s);
    let goal = lines.map_values(|line: Seq<char>| clean(line));
    let ended = pieces.len() - 1;
    assert forall|i: int| 0 <= i < ended implies goal[i] == text::without_return(
        #[trigger] pieces[i],
    ) by {
        assert(lines[i] == pieces[i].push('\n'));
        assert(lines[i].drop_last() =~= pieces[i]);
    }
    if pieces.last().len() > 0 {
        lemma_last_piece(s);
        assert(pieces.last()[pieces.last().len() - 1] != '\n');
    }
    assert(text::lines_of(s) =~= goal);
}

proof fn lemma_line_behind(s: Seq<char>, line: Seq<char>)
    requires
        one_line(line),
        remove::whole_lines(s).len() > 0 ==> remove::whole_lines(s).last().len() > 0
            && remove::whole_lines(s).last().last() == '\n',
    ensures
        remove::whole_lines(s + line) == remove::whole_lines(s).push(line),
    decreases line.len(),
{
    let before = remove::whole_lines(s);
    let front = line.drop_last();
    assert((s + line).drop_last() =~= s + front);
    assert((s + line).last() == line.last());
    if front.len() == 0 {
        assert(s + front =~= s);
        assert(seq![line.last()] =~= line);
    } else {
        assert(one_line(front)) by {
            assert forall|j: int| 0 <= j < front.len() - 1 implies front[j] != '\n' by {
                assert(front[j] == line[j]);
            }
        }
        lemma_line_behind(s, front);
        assert(front.last() == line[line.len() - 2]);
        assert(before.push(front).drop_last() =~= before);
        assert(front.push(line.last()) =~= line);
    }
}

/// Lines put together and taken apart again are the same lines.
proof fn lemma_lines_of_lines(lines: Seq<Seq<char>>)
    requires
        shaped(lines),
    ensures
        remove::whole_lines(remove::run_together(lines)) == lines,
    decreases lines.len(),
{
    if lines.len() > 0 {
        let front = lines.drop_last();
        assert(shaped(front)) by {
            assert forall|i: int| 0 <= i < front.len() implies one_line(#[trigger] front[i]) by {
                assert(front[i] == lines[i]);
            }
            assert forall|i: int| 0 <= i < front.len() - 1 implies (#[trigger] front[i]).last()
                == '\n' by {
                assert(front[i] == lines[i]);
            }
        }
        lemma_lines_of_lines(front);
        if front.len() > 0 {
            assert(lines[front.len() - 1].last() == '\n');
            assert(one_line(lines[front.len() - 1]));
        }
        assert(one_line(lines[lines.len() - 1]));
        lemma_line_behind(remove::run_together(front), lines.last());
        assert(front.push(lines.last()) =~= lines);
    } else {
        assert(lines =~= Seq::<Seq<char>>::empty());
    }
}

/// The lines before `a` and from `b` on.
spec fn around(lines: Seq<Seq<char>>, a: int, b: int) -> Seq<Seq<char>> {
    lines.take(a) + lines.skip(b)
}

/// The lines of a text that others were taken out of.
proof fn lemma_lines_left(content: Seq<char>, a: int, b: int) -> (n: int)
    requires
        0 <= a <= b <= text::lines_of(content).len(),
    ensures
        ({
            let lines = text::lines_of(content);
            let kept = around(lines, a, b);
            &&& 0 <= n <= kept.len()
            &&& text::lines_of(remove::without_lines(content, a, b)) == kept.take(n)
            &&& forall|i: int| n <= i < kept.len() ==> blank(#[trigger] kept[i])
            &&& n > 0 ==> !blank(kept[n - 1])
        }),
{
    let whole = remove::whole_lines(content);
    let lines = text::lines_of(content);
    let kept = around(lines, a, b);
    lemma_lines_are_clean(content);
    lemma_whole_lines_are_shaped(content);
    assert(whole.len() == lines.len());
    let pieces = remove::kept_lines(content, a, b);
    assert(pieces == around(whole, a, b));
    remove::lemma_blank_end(pieces);
    let left = remove::without_blank_end(pieces);
    let n = left.len() as int;
    assert forall|i: int| 0 <= i < pieces.len() implies #[trigger] kept[i] == clean(pieces[i]) by {
        if i < a {
            assert(kept[i] == lines[i]);
            assert(pieces[i] == whole[i]);
        } else {
            assert(kept[i] == lines[b + (i - a)]);
            assert(pieces[i] == whole[b + (i - a)]);
        }
    }
    assert(shaped(left)) by {
        assert forall|i: int| 0 <= i < left.len() implies one_line(#[trigger] left[i]) by {
            assert(left[i] == pieces[i]);
            if i < a {
                assert(one_line(whole[i]));
            } else {
                assert(one_line(whole[b + (i - a)]));
            }
        }
        assert forall|i: int| 0 <= i < left.len() - 1 implies (#[trigger] left[i]).last()
            == '\n' by {
            assert(left[i] == pieces[i]);
            if i < a {
                if i < whole.len() - 1 {
                    assert(whole[i].last() == '\n');
                }
            } else {
                assert(whole[b + (i - a)].last() == '\n');
            }
        }
    }
    lemma_lines_of_lines(left);
    let rest = remove::without_lines(content, a, b);
    lemma_lines_are_clean(rest);
    assert(text::lines_of(rest) =~= kept.take(n));
    assert forall|i: int| n <= i < kept.len() implies blank(#[trigger] kept[i]) by {
        assert(remove::is_blank(pieces[i]));
        lemma_clean_is_blank(pieces[i]);
    }
    if n > 0 {
        lemma_end_is_not_blank(pieces);
        assert(left.last() == pieces[n - 1]);
        lemma_blank_is_blank(pieces[n - 1]);
    }
    n
}

proof fn lemma_end_is_not_blank(lines: Seq<Seq<char>>)
    ensures
        remove::without_blank_end(lines).len() > 0 ==> !remove::is_blank(
            remove::without_blank_end(lines).last(),
        ),
    decreases lines.len(),
{
    if lines.len() > 0 && remove::is_blank(lines.last()) {
        lemma_end_is_not_blank(lines.drop_last());
    }
}

// Blank lines.

/// Whether a line holds nothing but white space.
spec fn blank(line: Seq<char>) -> bool {
    forall|j: int| 0 <= j < line.len() ==> text::is_white_space(#[trigger] line[j])
}

proof fn lemma_clean_is_blank(line: Seq<char>)
    requires
        remove::is_blank(line),
    ensures
        blank(clean(line)),
{
    assert forall|j: int| 0 <= j < clean(line).len() implies text::is_white_space(
        #[trigger] clean(line)[j],
    ) by {
        assert(clean(line)[j] == line[j]);
        if !text::is_white_space(line[j]) {
            text::lemma_trim_keeps(line, j);
        }
    }
}

proof fn lemma_blank_trims_to_nothing(line: Seq<char>)
    requires
        blank(line),
    ensures
        text::trim_start_of(line).len() == 0,
        text::trim_of(line).len() == 0,
    decreases line.len(),
{
    if line.len() > 0 {
        assert(text::is_white_space(line[0]));
        assert(blank(line.drop_first())) by {
            assert forall|j: int| 0 <= j < line.drop_first().len() implies text::is_white_space(
                #[trigger] line.drop_first()[j],
            ) by {
                assert(line.drop_first()[j] == line[j + 1]);
            }
        }
        lemma_blank_trims_to_nothing(line.drop_first());
    }
    assert(text::trim_start_of(line) =~= Seq::<char>::empty());
}

proof fn lemma_blank_is_blank(line: Seq<char>)
    requires
        one_line(line),
        !remove::is_blank(line),
    ensures
        !blank(clean(line)),
{
    if blank(clean(line)) {
        assert(blank(line)) by {
            assert forall|j: int| 0 <= j < line.len() implies text::is_white_space(
                #[trigger] line[j],
            ) by {
                if j < clean(line).len() {
                    assert(clean(line)[j] == line[j]);
                } else {
                    assert(line[j] == '\n' || line[j] == '\r');
                }
            }
        }
        lemma_blank_trims_to_nothing(line);
    }
}

/// A blank line opens, closes and heads nothing.
proof fn lemma_blank_line(line: Seq<char>, mark: char, count: nat)
    requires
        blank(line),
        count >= 3,
    ensures
        parser::opening_of(line) is None,
        parser::heading_of(line) is None,
        !"# "@.is_prefix_of(line),
        !parser::closes(line, mark, count),
        !parser::is_rule(line),
{
    lemma_blank_trims_to_nothing(line);
    reveal_strlit("## ");
    reveal_strlit("# ");
    reveal_strlit("---");
    if line.len() > 0 {
        assert(text::is_white_space(line[0]));
        assert(line[0] != '#');
        lemma_trim_end_is_prefix(line);
        if parser::is_rule(line) {
            lemma_first_of_prefix("---"@, line);
        }
        if "## "@.is_prefix_of(line) {
            lemma_first_of_prefix("## "@, line);
        }
        if "# "@.is_prefix_of(line) {
            lemma_first_of_prefix("# "@, line);
        }
    } else {
        assert(text::trim_end_of(line) =~= line);
    }
}

proof fn lemma_first_of_prefix(prefix: Seq<char>, s: Seq<char>)
    requires
        prefix.len() > 0,
        prefix.is_prefix_of(s),
    ensures
        s.len() > 0,
        s[0] == prefix[0],
{
    assert(prefix[0] == s.subrange(0, prefix.len() as int)[0]);
}

proof fn lemma_trim_end_is_prefix(s: Seq<char>)
    ensures
        text::trim_end_of(s).is_prefix_of(s),
    decreases s.len(),
{
    if s.len() > 0 && text::is_white_space(s.last()) {
        lemma_trim_end_is_prefix(s.drop_last());
        let t = text::trim_end_of(s);
        assert(s.take(t.len() as int) =~= s.drop_last().take(t.len() as int));
    } else {
        assert(s.take(s.len() as int) =~= s);
    }
}

// The state of reading, without the numbers of lines.

/// A section without the numbers of its lines.
spec fn bare(section: SectionView) -> SectionView {
    SectionView { start: 0, code_end: 0, end: 0, ..section }
}

spec fn bare_current(current: Option<SectionView>) -> Option<SectionView> {
    match current {
        Some(s) => Some(bare(s)),
        None => None,
    }
}

spec fn bare_all(sections: Seq<SectionView>) -> Seq<SectionView> {
    sections.map_values(|s: SectionView| bare(s))
}

/// Whether two states differ only in line numbers and in the sections read so
/// far.
spec fn alike(s: ScanView, t: ScanView) -> bool {
    s.fence == t.fence && bare_current(s.current) == bare_current(t.current)
}

/// The sections that a step adds.
proof fn lemma_same_step(s: ScanView, t: ScanView, line: Seq<char>, i: int, j: int) -> (more: Seq<
    SectionView,
>)
    requires
        alike(s, t),
    ensures
        alike(s.stepping(line, i), t.stepping(line, j)),
        bare_all(s.stepping(line, i).done) == bare_all(s.done) + more,
        bare_all(t.stepping(line, j).done) == bare_all(t.done) + more,
{
    let more = lemma_same_end(s, t, i, j);
    let s2 = s.stepping(line, i);
    let t2 = t.stepping(line, j);
    if s2.done == s.done && t2.done == t.done {
        assert(bare_all(s.done) + Seq::<SectionView>::empty() =~= bare_all(s.done));
        assert(bare_all(t.done) + Seq::<SectionView>::empty() =~= bare_all(t.done));
        Seq::empty()
    } else {
        more
    }
}

/// The sections that the end of the file adds.
proof fn lemma_same_end(s: ScanView, t: ScanView, i: int, j: int) -> (more: Seq<SectionView>)
    requires
        alike(s, t),
    ensures
        bare_all(s.settling(i).done) == bare_all(s.done) + more,
        bare_all(t.settling(j).done) == bare_all(t.done) + more,
{
    match s.current {
        Some(section) if section.progress == Progress::Read => {
            let more = seq![bare(section)];
            assert(bare_all(s.settling(i).done) =~= bare_all(s.done) + more);
            assert(bare_all(t.settling(j).done) =~= bare_all(t.done) + more);
            more
        },
        _ => {
            assert(bare_all(s.done) + Seq::<SectionView>::empty() =~= bare_all(s.done));
            assert(bare_all(t.done) + Seq::<SectionView>::empty() =~= bare_all(t.done));
            Seq::empty()
        },
    }
}

proof fn lemma_same_prefix(l: Seq<Seq<char>>, m: Seq<Seq<char>>, from: int, n: int)
    requires
        0 <= from,
        n <= l.len(),
        n <= m.len(),
        forall|i: int| 0 <= i < n ==> #[trigger] l[i] == m[i],
    ensures
        parser::scanned(l, from, n) == parser::scanned(m, from, n),
    decreases n,
{
    if n > from && n > 0 {
        lemma_same_prefix(l, m, from, n - 1);
        assert(l[n - 1] == m[n - 1]);
    }
}

// Blank lines at the end.

/// An open block is marked at least three times, and is a section's code just
/// while the section's code is read.
spec fn sound(s: ScanView) -> bool {
    &&& s.fence matches Some(f) ==> f.count >= 3
    &&& (s.fence matches Some(f) && f.code) <==> (s.current matches Some(c) && c.progress
        == Progress::Reading)
}

proof fn lemma_scan_is_sound(lines: Seq<Seq<char>>, from: int, n: int)
    ensures
        sound(parser::scanned(lines, from, n)),
    decreases n,
{
    if n > from && n > 0 {
        lemma_scan_is_sound(lines, from, n - 1);
    }
}

/// Whether two states end in the same sections.
spec fn end_alike(s: ScanView, t: ScanView) -> bool {
    &&& s.done == t.done
    &&& s.fence == t.fence
    &&& match (s.current, t.current) {
        (None, None) => true,
        (Some(a), Some(b)) => a.progress == b.progress && (a.progress == Progress::Read ==> bare(a)
            == bare(b)),
        _ => false,
    }
}

proof fn lemma_blank_tail(lines: Seq<Seq<char>>, from: int, n: int, m: int)
    requires
        0 <= n <= m <= lines.len(),
        forall|i: int| n <= i < m ==> blank(#[trigger] lines[i]),
    ensures
        end_alike(parser::scanned(lines, from, n), parser::scanned(lines, from, m)),
    decreases m - n,
{
    if n < m {
        lemma_blank_tail(lines, from, n, m - 1);
        lemma_scan_is_sound(lines, from, m - 1);
        if m > from {
            let before = parser::scanned(lines, from, m - 1);
            let line = lines[m - 1];
            match before.fence {
                Some(f) => {
                    lemma_blank_line(line, f.mark, f.count);
                },
                None => {
                    lemma_blank_line(line, '`', 3);
                },
            }
        }
    }
}

// Where sections stand.

/// Whether a section begins with its heading at `a`, with these sections before
/// it.
spec fn begins(
    lines: Seq<Seq<char>>,
    from: int,
    section: SectionView,
    before: Seq<SectionView>,
) -> bool {
    let a = section.start;
    &&& from <= a < lines.len()
    &&& parser::scanned(lines, from, a).fence is None
    &&& parser::opening_of(lines[a]) is None
    &&& parser::heading_of(lines[a]) is Some
    &&& parser::scanned(lines, from, a).settling(a).done == before
}

/// Whether a line ends a section.
spec fn ends_section(line: Seq<char>) -> bool {
    &&& parser::opening_of(line) is None
    &&& parser::heading_of(line) is Some || "# "@.is_prefix_of(line)
}

/// Whether a section ends before a heading, with these sections up to there.
spec fn ends(
    lines: Seq<Seq<char>>,
    from: int,
    section: SectionView,
    upto: Seq<SectionView>,
) -> bool {
    let b = section.end;
    &&& section.start < b < lines.len()
    &&& parser::scanned(lines, from, b).fence is None
    &&& ends_section(lines[b])
    &&& parser::scanned(lines, from, b).settling(b).done == upto
}

spec fn placed(lines: Seq<Seq<char>>, from: int, s: ScanView, n: int) -> bool {
    &&& forall|i: int|
        0 <= i < s.done.len() ==> {
            &&& begins(lines, from, #[trigger] s.done[i], s.done.take(i))
            &&& ends(lines, from, s.done[i], s.done.take(i + 1))
        }
    &&& s.current matches Some(c) ==> begins(lines, from, c, s.done) && c.start < n
}

proof fn lemma_sections_are_placed(lines: Seq<Seq<char>>, from: int, n: int)
    requires
        0 <= from,
        0 <= n <= lines.len(),
    ensures
        placed(lines, from, parser::scanned(lines, from, n), n),
    decreases n,
{
    if n > from {
        lemma_sections_are_placed(lines, from, n - 1);
        let before = parser::scanned(lines, from, n - 1);
        let now = parser::scanned(lines, from, n);
        let line = lines[n - 1];
        assert(now == before.stepping(line, n - 1));
        if now.done != before.done {
            let settled = before.settling(n - 1);
            assert(now.done == settled.done);
            assert(before.done =~= now.done.take(now.done.len() - 1));
            assert(now.done.take(now.done.len() as int) =~= now.done);
        }
        assert forall|i: int| 0 <= i < now.done.len() implies {
            &&& begins(lines, from, #[trigger] now.done[i], now.done.take(i))
            &&& ends(lines, from, now.done[i], now.done.take(i + 1))
        } by {
            if i < before.done.len() {
                assert(now.done[i] == before.done[i]);
                assert(now.done.take(i) =~= before.done.take(i));
                assert(now.done.take(i + 1) =~= before.done.take(i + 1));
            }
        }
    }
}

/// Where the sections of a file stand.
proof fn lemma_places(lines: Seq<Seq<char>>, from: int, k: int)
    requires
        0 <= from,
        ({
            let all = parser::scanned(lines, from, lines.len() as int).settling(
                lines.len() as int,
            ).done;
            0 <= k < all.len()
        }),
    ensures
        ({
            let all = parser::scanned(lines, from, lines.len() as int).settling(
                lines.len() as int,
            ).done;
            let section = all[k];
            &&& begins(lines, from, section, all.take(k))
            &&& section.start < section.end
            &&& section.end < lines.len() ==> ends(lines, from, section, all.take(k + 1))
            &&& section.end <= lines.len()
            &&& section.end == lines.len() ==> all.len() == k + 1
        }),
{
    let n = lines.len() as int;
    lemma_sections_are_placed(lines, from, n);
    let last = parser::scanned(lines, from, n);
    let all = last.settling(n).done;
    if k < last.done.len() {
        assert(all[k] == last.done[k]);
        assert(all.take(k) =~= last.done.take(k));
        assert(all.take(k + 1) =~= last.done.take(k + 1));
    } else {
        assert(all.take(k) =~= last.done);
    }
}

// Frontmatter.

proof fn lemma_first_rule(lines: Seq<Seq<char>>, from: int, at: int)
    requires
        0 <= from <= at,
        at <= lines.len(),
        forall|i: int| from <= i < at ==> !parser::is_rule(#[trigger] lines[i]),
        at < lines.len() ==> parser::is_rule(lines[at]),
    ensures
        parser::next_rule(lines, from) == (if at < lines.len() {
            Some(at)
        } else {
            None
        }),
    decreases at - from,
{
    if from < at {
        lemma_first_rule(lines, from + 1, at);
    }
}

proof fn lemma_rule_found(lines: Seq<Seq<char>>, from: int)
    requires
        0 <= from,
    ensures
        match parser::next_rule(lines, from) {
            Some(at) => {
                &&& from <= at < lines.len()
                &&& parser::is_rule(lines[at])
                &&& forall|i: int| from <= i < at ==> !parser::is_rule(#[trigger] lines[i])
            },
            None => forall|i: int|
                from <= i < lines.len() ==> !parser::is_rule(#[trigger] lines[i]),
        },
    decreases lines.len() - from,
{
    if from < lines.len() && !parser::is_rule(lines[from]) {
        lemma_rule_found(lines, from + 1);
    }
}

/// A line of dashes heads nothing, and is not blank.
proof fn lemma_rule_line(line: Seq<char>)
    requires
        parser::is_rule(line),
    ensures
        parser::heading_of(line) is None,
        !"# "@.is_prefix_of(line),
        !blank(line),
{
    reveal_strlit("## ");
    reveal_strlit("# ");
    reveal_strlit("---");
    lemma_trim_end_is_prefix(line);
    lemma_first_of_prefix("---"@, line);
    assert(!text::is_white_space(line[0]));
    if "## "@.is_prefix_of(line) {
        lemma_first_of_prefix("## "@, line);
    }
    if "# "@.is_prefix_of(line) {
        lemma_first_of_prefix("# "@, line);
    }
}

/// Taking out lines behind the frontmatter leaves the frontmatter where it was.
proof fn lemma_frontmatter_stays(lines: Seq<Seq<char>>, a: int, b: int, n: int)
    requires
        0 <= a,
        parser::body_start(lines) <= a < b <= lines.len(),
        0 <= n <= around(lines, a, b).len(),
        parser::heading_of(lines[a]) is Some,
        b < lines.len() ==> ends_section(lines[b]),
        forall|i: int|
            n <= i < around(lines, a, b).len() ==> blank(#[trigger] around(lines, a, b)[i]),
    ensures
        parser::body_start(around(lines, a, b).take(n)) == parser::body_start(lines),
{
    let kept = around(lines, a, b);
    let left = kept.take(n);
    assert forall|i: int| 0 <= i < kept.len() implies #[trigger] kept[i] == (if i < a {
        lines[i]
    } else {
        lines[b + (i - a)]
    }) by {}
    if parser::is_rule(lines[0]) {
        lemma_rule_line(lines[0]);
        assert(a > 0);
        assert(kept[0] == lines[0]);
        assert(n > 0) by {
            if n == 0 {
                assert(blank(kept[0]));
            }
        }
        lemma_rule_found(lines, 1);
        match parser::next_rule(lines, 1) {
            Some(e) => {
                assert(kept[e] == lines[e]);
                lemma_rule_line(lines[e]);
                assert(e < n) by {
                    if e >= n {
                        assert(blank(kept[e]));
                    }
                }
                assert forall|i: int| 1 <= i < e implies !parser::is_rule(#[trigger] left[i]) by {
                    assert(left[i] == lines[i]);
                }
                assert(left[e] == lines[e]);
                lemma_first_rule(left, 1, e);
            },
            None => {
                assert forall|i: int| 1 <= i < n implies !parser::is_rule(
                    #[trigger] left[i],
                ) by {
                    assert(left[i] == kept[i]);
                }
                lemma_first_rule(left, 1, n);
            },
        }
        assert(left[0] == lines[0]);
    } else {
        if n > 0 {
            assert(left[0] == kept[0]);
            if a == 0 {
                assert(left[0] == lines[b]);
                if parser::is_rule(lines[b]) {
                    lemma_rule_line(lines[b]);
                }
            }
        }
    }
}

// Taking a section out.

/// Behind a section that was taken out, reading goes on as before.
proof fn lemma_reading_goes_on(
    lines: Seq<Seq<char>>,
    from: int,
    section: SectionView,
    before: Seq<SectionView>,
    upto: Seq<SectionView>,
    m: int,
) -> (more: Seq<SectionView>)
    requires
        0 <= from,
        begins(lines, from, section, before),
        ends(lines, from, section, upto),
        section.end < m <= lines.len(),
    ensures
        ({
            let a = section.start;
            let b = section.end;
            let kept = around(lines, a, b);
            let s = parser::scanned(lines, from, m);
            let t = parser::scanned(kept, from, m - (b - a));
            &&& alike(s, t)
            &&& bare_all(s.done) == bare_all(upto) + more
            &&& bare_all(t.done) == bare_all(before) + more
        }),
    decreases m,
{
    let a = section.start;
    let b = section.end;
    let kept = around(lines, a, b);
    let j = m - (b - a);
    let line = lines[m - 1];
    assert(kept[j - 1] == line);
    let s = parser::scanned(lines, from, m - 1);
    let t = parser::scanned(kept, from, j - 1);
    assert(parser::scanned(lines, from, m) == s.stepping(line, m - 1));
    assert(parser::scanned(kept, from, j) == t.stepping(line, j - 1));
    if m == b + 1 {
        assert forall|i: int| 0 <= i < a implies #[trigger] lines[i] == kept[i] by {}
        lemma_same_prefix(lines, kept, from, a);
        assert(t == parser::scanned(lines, from, a));
        assert(bare_all(upto) + Seq::<SectionView>::empty() =~= bare_all(upto));
        assert(bare_all(before) + Seq::<SectionView>::empty() =~= bare_all(before));
        Seq::empty()
    } else {
        let more = lemma_reading_goes_on(lines, from, section, before, upto, m - 1);
        let step = lemma_same_step(s, t, line, m - 1, j - 1);
        assert(bare_all(upto) + more + step =~= bare_all(upto) + (more + step));
        assert(bare_all(before) + more + step =~= bare_all(before) + (more + step));
        more + step
    }
}

/// The sections of a file that one was taken out of are the others.
proof fn lemma_sections_left(content: Seq<char>, k: int)
    requires
        0 <= k < parser::sections_of(content).len(),
    ensures
        ({
            let all = parser::sections_of(content);
            let rest = remove::without_lines(content, all[k].start, all[k].end);
            bare_all(parser::sections_of(rest)) == bare_all(all).remove(k)
        }),
{
    let lines = text::lines_of(content);
    let from = parser::body_start(lines);
    let len = lines.len() as int;
    let all = parser::sections_of(content);
    lemma_rule_found(lines, 1);
    lemma_places(lines, from, k);
    let section = all[k];
    let a = section.start;
    let b = section.end;
    let kept = around(lines, a, b);
    let n = lemma_lines_left(content, a, b);
    let rest = remove::without_lines(content, a, b);
    let left = kept.take(n);
    assert(text::lines_of(rest) == left);
    lemma_frontmatter_stays(lines, a, b, n);
    assert(parser::body_start(left) == from);
    // Without the blank lines at the end.
    assert forall|i: int| 0 <= i < n implies #[trigger] left[i] == kept[i] by {}
    lemma_same_prefix(left, kept, from, n);
    lemma_blank_tail(kept, from, n, kept.len() as int);
    let short = parser::scanned(kept, from, n);
    let full = parser::scanned(kept, from, kept.len() as int);
    assert(bare_all(short.settling(n).done) =~= bare_all(full.settling(kept.len() as int).done));
    // Without the section.
    let m = kept.len() as int;
    if b == len {
        assert forall|i: int| 0 <= i < a implies #[trigger] lines[i] == kept[i] by {}
        lemma_same_prefix(lines, kept, from, a);
        assert(m == a);
        assert(full.settling(m).done == all.take(k));
        assert(bare_all(all.take(k)) =~= bare_all(all).remove(k));
    } else {
        let more = lemma_reading_goes_on(lines, from, section, all.take(k), all.take(k + 1), len);
        let s = parser::scanned(lines, from, len);
        let end = lemma_same_end(s, full, len, m);
        assert(bare_all(all) == bare_all(all.take(k + 1)) + more + end);
        assert(bare_all(full.settling(m).done) == bare_all(all.take(k)) + more + end);
        let whole = bare_all(all);
        assert(whole.take(k + 1) =~= bare_all(all.take(k + 1)));
        assert(whole.take(k) =~= bare_all(all.take(k)));
        assert(whole.skip(k + 1) =~= more + end);
        assert(whole.remove(k) =~= whole.take(k) + whole.skip(k + 1));
        assert(bare_all(all.take(k)) + more + end =~= whole.take(k) + (more + end));
    }
}

proof fn lemma_snippets_need_no_numbers(
    relative_path: Seq<char>,
    a: Seq<SectionView>,
    b: Seq<SectionView>,
)
    requires
        bare_all(a) == bare_all(b),
    ensures
        a.map_values(|s: SectionView| parser::snippet_of(relative_path, s)) == b.map_values(
            |s: SectionView| parser::snippet_of(relative_path, s),
        ),
{
    let f = |s: SectionView| parser::snippet_of(relative_path, s);
    assert(bare_all(a).len() == a.len());
    assert(bare_all(b).len() == b.len());
    assert forall|i: int| 0 <= i < a.len() implies a.map_values(f)[i] == b.map_values(f)[i] by {
        assert(bare_all(a)[i] == bare(a[i]));
        assert(bare_all(b)[i] == bare(b[i]));
        assert(parser::snippet_of(relative_path, a[i]) == parser::snippet_of(
            relative_path,
            bare(a[i]),
        ));
        assert(parser::snippet_of(relative_path, b[i]) == parser::snippet_of(
            relative_path,
            bare(b[i]),
        ));
    }
    assert(a.map_values(f) =~= b.map_values(f));
}

/// Taking the lines of a snippet's section out of a file takes that snippet
/// out, and no other: the snippets of what is left are the others, unchanged
/// and in the same order.
pub proof fn law_the_other_snippets_stay(
    relative_path: Seq<char>,
    content: Seq<char>,
    k: int,
)
    requires
        0 <= k < parser::sections_of(content).len(),
    ensures
        ({
            let section = parser::sections_of(content)[k];
            parser::snippets_of(
                relative_path,
                remove::without_lines(content, section.start, section.end),
            ) == parser::snippets_of(relative_path, content).remove(k)
        }),
{
    let all = parser::sections_of(content);
    let f = |s: SectionView| parser::snippet_of(relative_path, s);
    lemma_sections_left(content, k);
    let rest = remove::without_lines(content, all[k].start, all[k].end);
    assert(bare_all(all).remove(k) =~= bare_all(all.remove(k)));
    lemma_snippets_need_no_numbers(relative_path, parser::sections_of(rest), all.remove(k));
    assert(all.map_values(f).remove(k) =~= all.remove(k).map_values(f));
}

proof fn lemma_first_range(ranges: Seq<parser::RangeView>, id: Seq<char>) -> (k: int)
    requires
        parser::range_of(ranges, id) is Some,
    ensures
        0 <= k < ranges.len(),
        parser::range_of(ranges, id) == Some(ranges[k]),
        ranges[k].id == id,
        forall|i: int| 0 <= i < k ==> (#[trigger] ranges[i]).id != id,
    decreases ranges.len(),
{
    if ranges[0].id == id {
        0
    } else {
        let k = lemma_first_range(ranges.skip(1), id);
        assert(ranges.skip(1)[k] == ranges[k + 1]);
        assert forall|i: int| 0 <= i < k + 1 implies (#[trigger] ranges[i]).id != id by {
            if i > 0 {
                assert(ranges.skip(1)[i - 1] == ranges[i]);
            }
        }
        k + 1
    }
}

/// Where a snippet can be taken out of its file, the snippets that are left are
/// all those of the file but the first one with the snippet's id.
pub proof fn law_removal_takes_one_snippet(
    snippet: domain::SnippetView,
    relative_path: Seq<char>,
    content: Seq<char>,
) -> (k: int)
    requires
        remove::standing(snippet, relative_path, content) is Some,
    ensures
        ({
            let range = remove::standing(snippet, relative_path, content)->0;
            let all = parser::snippets_of(relative_path, content);
            &&& 0 <= k < all.len()
            &&& all[k].id == snippet.id
            &&& forall|i: int| 0 <= i < k ==> (#[trigger] all[i]).id != snippet.id
            &&& parser::snippets_of(
                relative_path,
                remove::without_lines(content, range.start_line, range.end_line),
            ) == all.remove(k)
        }),
{
    let ranges = parser::section_ranges(relative_path, content);
    let sections = parser::sections_of(content);
    let all = parser::snippets_of(relative_path, content);
    let k = lemma_first_range(ranges, snippet.id);
    assert forall|i: int| 0 <= i < k implies (#[trigger] all[i]).id != snippet.id by {
        assert(ranges[i].id != snippet.id);
    }
    law_the_other_snippets_stay(relative_path, content, k);
    k
}

} // verus!
