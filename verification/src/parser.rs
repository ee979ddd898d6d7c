//! Snippet files: markdown in which each second-level heading with a code block
//! below it is a snippet.

use vstd::prelude::*;
use crate::domain;
use crate::domain::{Snippet, SnippetFile, SnippetId};
use crate::execute::template;
use crate::frontmatter;
use crate::text;

verus! {

broadcast use vstd::string::group_string_axioms;

/// How many times a character stands at the start of a text.
pub open spec fn leading(s: Seq<char>, c: char) -> nat
    decreases s.len(),
{
    if s.len() > 0 && s[0] == c {
        leading(s.skip(1), c) + 1
    } else {
        0
    }
}

/// The first word of a text; none where there is none.
pub open spec fn first_word(s: Seq<char>) -> Option<Seq<char>> {
    let words = text::words_of(s);
    if words.len() > 0 {
        Some(words[0])
    } else {
        None
    }
}

/// A line that opens a code block: its mark, how often it is repeated, and the
/// language.
pub struct Opening {
    pub mark: char,
    pub count: nat,
    pub language: Option<Seq<char>>,
}

/// What a line opens: a code block behind three or more backquotes or tildes.
pub open spec fn opening_of(line: Seq<char>) -> Option<Opening> {
    let s = text::trim_start_of(line);
    if s.len() == 0 || (s[0] != '`' && s[0] != '~') {
        None
    } else {
        let mark = s[0];
        let count = leading(s, mark);
        let info = s.skip(count as int);
        if count < 3 || (mark == '`' && info.contains('`')) {
            None
        } else {
            Some(Opening { mark, count, language: first_word(info) })
        }
    }
}

/// Whether a line closes a code block: nothing but the mark, as often at least.
pub open spec fn closes(line: Seq<char>, mark: char, count: nat) -> bool {
    let s = text::trim_of(line);
    s.len() >= count && leading(s, mark) == s.len()
}

/// The heading of a snippet on a line.
pub open spec fn heading_of(line: Seq<char>) -> Option<Seq<char>> {
    if "## "@.is_prefix_of(line) {
        Some(text::trim_of(line.skip(3)))
    } else {
        None
    }
}

/// How far a section was read.
#[derive(Debug, Clone, Copy, PartialEq, Eq, Structural)]
pub enum Progress {
    /// No code yet.
    Described,
    /// Inside its code.
    Reading,
    /// Behind its code.
    Read,
}

/// A section below a heading.
pub struct SectionView {
    pub name: Seq<char>,
    /// The line of the heading.
    pub start: int,
    /// The line behind the code.
    pub code_end: int,
    /// The line behind the section.
    pub end: int,
    pub description: Seq<Seq<char>>,
    pub body: Seq<Seq<char>>,
    pub language: Option<Seq<char>>,
    pub progress: Progress,
}

impl SectionView {
    /// A section at its heading.
    pub open spec fn fresh(name: Seq<char>, start: int) -> SectionView {
        SectionView {
            name,
            start,
            code_end: start,
            end: start,
            description: Seq::empty(),
            body: Seq::empty(),
            language: None,
            progress: Progress::Described,
        }
    }

    /// With a line that describes it, before its code.
    pub open spec fn describing(self, line: Seq<char>) -> SectionView {
        if self.progress == Progress::Described {
            SectionView { description: self.description.push(line), ..self }
        } else {
            self
        }
    }

    /// With a line of code.
    pub open spec fn coding(self, line: Seq<char>) -> SectionView {
        SectionView { body: self.body.push(line), ..self }
    }
}

/// A code block that is open: its mark, and whether it is a section's code.
pub struct FenceView {
    pub mark: char,
    pub count: nat,
    pub code: bool,
}

/// The state of reading a file line by line.
pub struct ScanView {
    pub fence: Option<FenceView>,
    pub current: Option<SectionView>,
    pub done: Seq<SectionView>,
}

impl ScanView {
    /// Before the first line.
    pub open spec fn start() -> ScanView {
        ScanView { fence: None, current: None, done: Seq::empty() }
    }

    /// With a line that describes the current section.
    pub open spec fn describing(self, line: Seq<char>) -> ScanView {
        ScanView {
            current: match self.current {
                Some(s) => Some(s.describing(line)),
                None => None,
            },
            ..self
        }
    }

    /// With the current section at its end. A section without code is dropped.
    pub open spec fn settling(self, at: int) -> ScanView {
        ScanView {
            current: None,
            done: match self.current {
                Some(s) if s.progress == Progress::Read => self.done.push(
                    SectionView { end: at, ..s },
                ),
                _ => self.done,
            },
            ..self
        }
    }

    /// With a line inside a code block.
    pub open spec fn fenced(self, f: FenceView, line: Seq<char>, at: int) -> ScanView {
        if closes(line, f.mark, f.count) {
            let next = ScanView { fence: None, ..self };
            match self.current {
                Some(s) if f.code => ScanView {
                    current: Some(
                        SectionView { progress: Progress::Read, code_end: at + 1, ..s },
                    ),
                    ..next
                },
                _ => next.describing(line),
            }
        } else {
            match self.current {
                Some(s) if f.code => ScanView { current: Some(s.coding(line)), ..self },
                _ => self.describing(line),
            }
        }
    }

    /// With a line that opens a code block. The first one that is not marked as
    /// plain text is the section's code.
    pub open spec fn opening(self, o: Opening, line: Seq<char>) -> ScanView {
        match self.current {
            Some(s) if s.progress == Progress::Described && o.language != Some("text"@)
            => ScanView {
                fence: Some(FenceView { mark: o.mark, count: o.count, code: true }),
                current: Some(
                    SectionView { progress: Progress::Reading, language: o.language, ..s },
                ),
                ..self
            },
            _ => (ScanView {
                fence: Some(FenceView { mark: o.mark, count: o.count, code: false }),
                ..self
            }).describing(line),
        }
    }

    /// With one more line.
    pub open spec fn stepping(self, line: Seq<char>, at: int) -> ScanView {
        match self.fence {
            Some(f) => self.fenced(f, line, at),
            None => match opening_of(line) {
                Some(o) => self.opening(o, line),
                None => match heading_of(line) {
                    Some(name) => ScanView {
                        current: Some(SectionView::fresh(name, at)),
                        ..self.settling(at)
                    },
                    None => if "# "@.is_prefix_of(line) {
                        self.settling(at)
                    } else {
                        self.describing(line)
                    },
                },
            },
        }
    }
}

/// The state after the lines from `from` up to `n`.
pub open spec fn scanned(lines: Seq<Seq<char>>, from: int, n: int) -> ScanView
    decreases n,
{
    if n <= from || n <= 0 {
        ScanView::start()
    } else {
        scanned(lines, from, n - 1).stepping(lines[n - 1], n - 1)
    }
}

/// Whether a line encloses the frontmatter.
pub open spec fn is_rule(line: Seq<char>) -> bool {
    text::trim_end_of(line) == "---"@
}

/// The first line from `from` on that encloses the frontmatter.
pub open spec fn next_rule(lines: Seq<Seq<char>>, from: int) -> Option<int>
    decreases lines.len() - from,
{
    if from >= lines.len() {
        None
    } else if is_rule(lines[from]) {
        Some(from)
    } else {
        next_rule(lines, from + 1)
    }
}

/// The line that ends the frontmatter; none where there is no frontmatter.
pub open spec fn frontmatter_end(lines: Seq<Seq<char>>) -> Option<int> {
    if lines.len() > 0 && is_rule(lines[0]) {
        next_rule(lines, 1)
    } else {
        None
    }
}

/// The line behind the frontmatter.
pub open spec fn body_start(lines: Seq<Seq<char>>) -> int {
    match frontmatter_end(lines) {
        Some(end) => end + 1,
        None => 0,
    }
}

/// The sections of a file that hold a snippet.
pub open spec fn sections_of(content: Seq<char>) -> Seq<SectionView> {
    let lines = text::lines_of(content);
    scanned(lines, body_start(lines), lines.len() as int).settling(lines.len() as int).done
}

/// The letters and digits of a text in lower case, with one dash for what
/// stands between them.
pub open spec fn dashed(name: Seq<char>) -> Seq<char>
    decreases name.len(),
{
    if name.len() == 0 {
        Seq::empty()
    } else {
        let before = dashed(name.drop_last());
        let c = name.last();
        if text::is_alphanumeric(c) {
            before + text::char_lowercase(c)
        } else if before.len() > 0 && before.last() != '-' {
            before.push('-')
        } else {
            before
        }
    }
}

/// The part of an id that stands for a heading.
pub open spec fn slug_text(name: Seq<char>) -> Seq<char> {
    let d = dashed(name);
    if d.len() > 0 && d.last() == '-' {
        d.drop_last()
    } else {
        d
    }
}

/// The id of a section.
pub open spec fn section_id(relative_path: Seq<char>, section: SectionView) -> Seq<char> {
    domain::id_text(relative_path, slug_text(section.name))
}

/// The snippet of a section.
pub open spec fn snippet_of(relative_path: Seq<char>, section: SectionView) -> domain::SnippetView {
    let body = text::join_of(section.body, "\n"@);
    domain::SnippetView {
        id: section_id(relative_path, section),
        name: section.name,
        description: text::trim_of(text::join_of(section.description, "\n"@)),
        body,
        variables: template::variables_of(template::segments_of(body)),
        language: section.language,
    }
}

/// The snippets of a file.
pub open spec fn snippets_of(relative_path: Seq<char>, content: Seq<char>) -> Seq<
    domain::SnippetView,
> {
    sections_of(content).map_values(|s: SectionView| snippet_of(relative_path, s))
}

/// A section below a heading.
struct Section {
    name: String,
    start: usize,
    code_end: usize,
    end: usize,
    description: Vec<String>,
    body: Vec<String>,
    language: Option<String>,
    progress: Progress,
}

impl View for Section {
    type V = SectionView;

    closed spec fn view(&self) -> SectionView {
        SectionView {
            name: self.name@,
            start: self.start as int,
            code_end: self.code_end as int,
            end: self.end as int,
            description: text::texts(self.description@),
            body: text::texts(self.body@),
            language: text::optional_text(self.language),
            progress: self.progress,
        }
    }
}

spec fn section_views(list: Seq<Section>) -> Seq<SectionView> {
    list.map_values(|s: Section| s@)
}

struct Fence {
    mark: char,
    count: usize,
    code: bool,
}

struct Scan {
    fence: Option<Fence>,
    current: Option<Section>,
    done: Vec<Section>,
}

spec fn fence_view(fence: Option<Fence>) -> Option<FenceView> {
    match fence {
        Some(f) => Some(FenceView { mark: f.mark, count: f.count as nat, code: f.code }),
        None => None,
    }
}

spec fn current_view(current: Option<Section>) -> Option<SectionView> {
    match current {
        Some(s) => Some(s@),
        None => None,
    }
}

impl View for Scan {
    type V = ScanView;

    closed spec fn view(&self) -> ScanView {
        ScanView {
            fence: fence_view(self.fence),
            current: current_view(self.current),
            done: section_views(self.done@),
        }
    }
}

fn count_leading(chars: &Vec<char>, c: char) -> (n: usize)
    ensures
        n == leading(chars@, c),
        n <= chars@.len(),
{
    let mut i: usize = 0;
    assert(chars@.skip(0) =~= chars@);
    while i < chars.len() && chars[i] == c
        invariant
            i <= chars@.len(),
            leading(chars@, c) == leading(chars@.skip(i as int), c) + i,
        decreases chars@.len() - i,
    {
        assert(chars@.skip(i as int)[0] == chars@[i as int]);
        assert(chars@.skip(i as int).skip(1) =~= chars@.skip(i + 1));
        i = i + 1;
    }
    if i < chars.len() {
        assert(chars@.skip(i as int)[0] == chars@[i as int]);
    }
    i
}

fn trim_start(chars: &Vec<char>) -> (out: Vec<char>)
    ensures
        out@ == text::trim_start_of(chars@),
{
    let n: usize = chars.len();
    let mut i: usize = 0;
    assert(chars@.skip(0) =~= chars@);
    while i < n && text::white_space(chars[i])
        invariant
            i <= n,
            n == chars@.len(),
            text::trim_start_of(chars@) == text::trim_start_of(chars@.skip(i as int)),
        decreases n - i,
    {
        assert(chars@.skip(i as int)[0] == chars@[i as int]);
        assert(chars@.skip(i as int).drop_first() =~= chars@.skip(i + 1));
        i = i + 1;
    }
    if i < n {
        assert(chars@.skip(i as int)[0] == chars@[i as int]);
    }
    let out = text::sub_chars(chars, i, n);
    assert(out@ =~= chars@.skip(i as int));
    out
}

fn trim_end(s: &str) -> (out: String)
    ensures
        out@ == text::trim_end_of(s@),
{
    let chars = text::chars_of(s);
    let mut n: usize = chars.len();
    assert(chars@.take(n as int) =~= chars@);
    while n > 0 && text::white_space(chars[n - 1])
        invariant
            n <= chars@.len(),
            chars@ == s@,
            text::trim_end_of(s@) == text::trim_end_of(chars@.take(n as int)),
        decreases n,
    {
        assert(chars@.take(n as int).last() == chars@[n - 1]);
        assert(chars@.take(n as int).drop_last() =~= chars@.take(n - 1));
        n = n - 1;
    }
    if n > 0 {
        assert(chars@.take(n as int).last() == chars@[n - 1]);
    }
    let out = text::string_from(&chars, 0, n);
    assert(out@ =~= chars@.take(n as int));
    out
}

struct Opened {
    mark: char,
    count: usize,
    language: Option<String>,
}

fn read_opening(line: &str) -> (opened: Option<Opened>)
    ensures
        match opened {
            Some(o) => opening_of(line@) == Some(
                (Opening {
                    mark: o.mark,
                    count: o.count as nat,
                    language: text::optional_text(o.language),
                }),
            ),
            None => opening_of(line@) is None,
        },
{
    let whole = text::chars_of(line);
    let chars = trim_start(&whole);
    let n: usize = chars.len();
    if n == 0 {
        return None;
    }
    let mark: char = chars[0];
    if mark != '`' && mark != '~' {
        return None;
    }
    let count = count_leading(&chars, mark);
    if count < 3 {
        return None;
    }
    let info = text::string_from(&chars, count, n);
    assert(info@ =~= chars@.skip(count as int));
    if mark == '`' {
        let mut i: usize = count;
        while i < n
            invariant
                count <= i <= n,
                n == chars@.len(),
                info@ == chars@.skip(count as int),
                mark == '`',
                chars@ == text::trim_start_of(line@),
                chars@[0] == mark,
                n > 0,
                count == leading(chars@, mark),
                forall|k: int| count <= k < i ==> chars@[k] != '`',
            decreases n - i,
        {
            if chars[i] == '`' {
                assert(info@[i - count] == '`');
                assert(info@.contains('`'));
                return None;
            }
            i = i + 1;
        }
        assert(!info@.contains('`')) by {
            assert forall|k: int| 0 <= k < info@.len() implies info@[k] != '`' by {
                assert(info@[k] == chars@[count + k]);
            }
        }
    }
    let words = text::words(info.as_str());
    assert(text::texts(words@).len() == words@.len());
    let language = if words.len() > 0 {
        assert(text::texts(words@)[0] == words@[0]@);
        Some(words[0].clone())
    } else {
        None
    };
    Some(Opened { mark, count, language })
}

fn is_closing(line: &str, mark: char, count: usize) -> (yes: bool)
    ensures
        yes == closes(line@, mark, count as nat),
{
    let trimmed = text::trim(line);
    let chars = text::chars_of(trimmed.as_str());
    let n = count_leading(&chars, mark);
    n == chars.len() && n >= count
}

fn read_heading(line: &str) -> (name: Option<String>)
    ensures
        text::optional_text(name) == heading_of(line@),
{
    proof {
        reveal_strlit("## ");
    }
    if text::starts_with_text(line, "## ") {
        let chars = text::chars_of(line);
        let n: usize = chars.len();
        assert(n >= 3) by {
            assert("## "@.len() == 3);
        }
        let rest = text::string_from(&chars, 3, n);
        assert(rest@ =~= line@.skip(3));
        Some(text::trim(rest.as_str()))
    } else {
        None
    }
}

impl Section {
    fn describe(&mut self, line: &str)
        ensures
            final(self)@ == old(self)@.describing(line@),
    {
        let ghost before = self@;
        if self.progress == Progress::Described {
            let copy = line.to_owned();
            proof {
                text::lemma_texts_push(self.description@, copy);
            }
            self.description.push(copy);
        }
        assert(self@.description =~= before.describing(line@).description);
    }

    fn code(&mut self, line: &str)
        ensures
            final(self)@ == old(self)@.coding(line@),
    {
        let ghost before = self@;
        let copy = line.to_owned();
        proof {
            text::lemma_texts_push(self.body@, copy);
        }
        self.body.push(copy);
        assert(self@.body =~= before.coding(line@).body);
    }
}

impl Scan {
    fn describe(self, line: &str) -> (next: Scan)
        ensures
            next@ == self@.describing(line@),
    {
        let Scan { fence, current, done } = self;
        let current = match current {
            Some(section) => {
                let mut section = section;
                section.describe(line);
                Some(section)
            },
            None => None,
        };
        Scan { fence, current, done }
    }

    fn settle(self, at: usize) -> (next: Scan)
        ensures
            next@ == self@.settling(at as int),
    {
        let Scan { fence, current, done } = self;
        let mut done = done;
        match current {
            Some(section) => {
                if section.progress == Progress::Read {
                    let ghost before = done@;
                    let mut section = section;
                    section.end = at;
                    let ghost view = section@;
                    done.push(section);
                    assert(section_views(done@) =~= section_views(before).push(view));
                }
            },
            None => {},
        }
        Scan { fence, current: None, done }
    }

    fn step(self, line: &str, at: usize) -> (next: Scan)
        requires
            at < usize::MAX,
        ensures
            next@ == self@.stepping(line@, at as int),
    {
        let ghost before = self@;
        let Scan { fence, current, done } = self;
        match fence {
            Some(f) => {
                let closing = is_closing(line, f.mark, f.count);
                if f.code {
                    match current {
                        Some(section) => {
                            let mut section = section;
                            if closing {
                                section.progress = Progress::Read;
                                section.code_end = at + 1;
                                let next = Scan { fence: None, current: Some(section), done };
                                assert(next@ == before.stepping(line@, at as int));
                                return next;
                            }
                            section.code(line);
                            let next = Scan { fence: Some(f), current: Some(section), done };
                            assert(next@ == before.stepping(line@, at as int));
                            return next;
                        },
                        None => {
                            let next = Scan {
                                fence: if closing {
                                    None
                                } else {
                                    Some(f)
                                },
                                current: None,
                                done,
                            };
                            return next;
                        },
                    }
                }
                let rest = Scan {
                    fence: if closing {
                        None
                    } else {
                        Some(f)
                    },
                    current,
                    done,
                };
                rest.describe(line)
            },
            None => match read_opening(line) {
                Some(opened) => {
                    let plain = match &opened.language {
                        Some(language) => text::same_text(language.as_str(), "text"),
                        None => false,
                    };
                    let Opened { mark, count, language } = opened;
                    match current {
                        Some(section) => {
                            if section.progress == Progress::Described && !plain {
                                let mut section = section;
                                section.progress = Progress::Reading;
                                section.language = language;
                                return Scan {
                                    fence: Some(Fence { mark, count, code: true }),
                                    current: Some(section),
                                    done,
                                };
                            }
                            let rest = Scan {
                                fence: Some(Fence { mark, count, code: false }),
                                current: Some(section),
                                done,
                            };
                            rest.describe(line)
                        },
                        None => {
                            let rest = Scan {
                                fence: Some(Fence { mark, count, code: false }),
                                current: None,
                                done,
                            };
                            rest.describe(line)
                        },
                    }
                },
                None => {
                    let rest = Scan { fence: None, current, done };
                    match read_heading(line) {
                        Some(name) => {
                            let settled = rest.settle(at);
                            let section = Section {
                                name,
                                start: at,
                                code_end: at,
                                end: at,
                                description: Vec::new(),
                                body: Vec::new(),
                                language: None,
                                progress: Progress::Described,
                            };
                            assert(text::texts(section.description@) =~= Seq::<Seq<char>>::empty());
                            assert(text::texts(section.body@) =~= Seq::<Seq<char>>::empty());
                            let Scan { fence, current: _, done } = settled;
                            Scan { fence, current: Some(section), done }
                        },
                        None => {
                            if text::starts_with_text(line, "# ") {
                                rest.settle(at)
                            } else {
                                rest.describe(line)
                            }
                        },
                    }
                },
            },
        }
    }
}

fn rule(line: &str) -> (yes: bool)
    ensures
        yes == is_rule(line@),
{
    let trimmed = trim_end(line);
    text::same_text(trimmed.as_str(), "---")
}

/// The line that ends the frontmatter.
fn find_frontmatter_end(lines: &Vec<String>) -> (end: Option<usize>)
    ensures
        match end {
            Some(e) => frontmatter_end(text::texts(lines@)) == Some(e as int) && 1 <= e
                < lines@.len(),
            None => frontmatter_end(text::texts(lines@)) is None,
        },
{
    let ghost all = text::texts(lines@);
    assert(all.len() == lines@.len());
    if lines.len() == 0 {
        return None;
    }
    assert(all[0] == lines@[0]@);
    if !rule(lines[0].as_str()) {
        return None;
    }
    let mut i: usize = 1;
    while i < lines.len()
        invariant
            1 <= i <= lines@.len(),
            all == text::texts(lines@),
            all.len() == lines@.len(),
            frontmatter_end(all) == next_rule(all, i as int),
        decreases lines@.len() - i,
    {
        assert(all[i as int] == lines@[i as int]@);
        if rule(lines[i].as_str()) {
            return Some(i);
        }
        i = i + 1;
    }
    None
}

fn scan_sections(lines: &Vec<String>) -> (sections: Vec<Section>)
    ensures
        ({
            let all = text::texts(lines@);
            section_views(sections@) == scanned(
                all,
                body_start(all),
                all.len() as int,
            ).settling(all.len() as int).done
        }),
{
    let ghost all = text::texts(lines@);
    assert(all.len() == lines@.len());
    let n: usize = lines.len();
    let from: usize = match find_frontmatter_end(lines) {
        Some(end) => end + 1,
        None => 0,
    };
    let mut scan = Scan { fence: None, current: None, done: Vec::new() };
    assert(section_views(scan.done@) =~= Seq::<SectionView>::empty());
    assert(scan@ == ScanView::start());
    let mut i: usize = from;
    while i < n
        invariant
            from <= i <= n,
            n == lines@.len(),
            from == body_start(all),
            all == text::texts(lines@),
            scan@ == scanned(all, from as int, i as int),
        decreases n - i,
    {
        assert(all[i as int] == lines@[i as int]@);
        scan = scan.step(lines[i].as_str(), i);
        i = i + 1;
    }
    let scan = scan.settle(n);
    let Scan { fence: _, current: _, done } = scan;
    done
}

/// The part of an id that stands for a heading.
pub fn slugify(name: &str) -> (out: String)
    ensures
        out@ == slug_text(name@),
{
    let chars = text::chars_of(name);
    let mut i: usize = 0;
    assert(chars@.take(0) =~= Seq::<char>::empty());
    let mut built: Vec<char> = Vec::new();
    while i < chars.len()
        invariant
            i <= chars@.len(),
            built@ == dashed(chars@.take(i as int)),
        decreases chars@.len() - i,
    {
        assert(chars@.take(i + 1).drop_last() =~= chars@.take(i as int));
        assert(chars@.take(i + 1).last() == chars@[i as int]);
        let c: char = chars[i];
        if text::alphanumeric(c) {
            let lower = text::lower_char(c);
            let mut more = text::chars_of(lower.as_str());
            built.append(&mut more);
        } else {
            let n: usize = built.len();
            if n > 0 && built[n - 1] != '-' {
                built.push('-');
            }
        }
        i = i + 1;
    }
    assert(chars@.take(chars@.len() as int) =~= name@);
    let n: usize = built.len();
    if n > 0 && built[n - 1] == '-' {
        let cut = text::string_from(&built, 0, n - 1);
        assert(cut@ =~= built@.drop_last());
        cut
    } else {
        text::string_of(&built)
    }
}

fn id_of(relative_path: &str, name: &str) -> (id: SnippetId)
    ensures
        id@ == domain::id_text(relative_path@, slug_text(name@)),
{
    let slug = slugify(name);
    let mut out = relative_path.to_owned();
    out.push('#');
    out.append(slug.as_str());
    assert(out@ =~= domain::id_text(relative_path@, slug_text(name@)));
    SnippetId::from_text(out)
}

fn make_snippet(relative_path: &str, section: &Section) -> (snippet: Snippet)
    ensures
        snippet@ == snippet_of(relative_path@, section@),
{
    let prose = text::join_texts(&section.description, "\n");
    let body = text::join_texts(&section.body, "\n");
    let variables = template::parse_variables(body.as_str());
    Snippet {
        id: id_of(relative_path, section.name.as_str()),
        name: section.name.clone(),
        description: text::trim(prose.as_str()),
        body,
        variables,
        language: text::copy_optional(&section.language),
    }
}

/// What a list of snippets holds.
pub open spec fn snippet_views(list: Seq<Snippet>) -> Seq<domain::SnippetView> {
    list.map_values(|s: Snippet| s@)
}

/// The snippets of a file.
pub fn parse_snippets(relative_path: &str, content: &str) -> (snippets: Vec<Snippet>)
    ensures
        snippet_views(snippets@) == snippets_of(relative_path@, content@),
{
    let lines = text::lines(content);
    let sections = scan_sections(&lines);
    let ghost all = sections_of(content@);
    let ghost whole = snippets_of(relative_path@, content@);
    let mut out: Vec<Snippet> = Vec::new();
    let mut i: usize = 0;
    assert(snippet_views(out@) =~= whole.take(0));
    while i < sections.len()
        invariant
            i <= sections@.len(),
            all == section_views(sections@),
            whole == all.map_values(|s: SectionView| snippet_of(relative_path@, s)),
            snippet_views(out@) == whole.take(i as int),
        decreases sections@.len() - i,
    {
        assert(all[i as int] == sections@[i as int]@);
        let snippet = make_snippet(relative_path, &sections[i]);
        let ghost before = out@;
        let ghost view = snippet@;
        assert(whole[i as int] == view);
        out.push(snippet);
        assert(snippet_views(out@) =~= snippet_views(before).push(view));
        assert(whole.take(i + 1) =~= whole.take(i as int).push(whole[i as int]));
        i = i + 1;
    }
    assert(whole.take(whole.len() as int) =~= whole);
    out
}

/// The frontmatter of a file.
pub open spec fn metadata_of(content: Seq<char>) -> domain::FrontmatterView {
    let lines = text::lines_of(content);
    frontmatter::frontmatter_of(
        lines,
        match frontmatter_end(lines) {
            Some(end) => end,
            None => 0,
        },
    )
}

/// Reads a file of snippets. The relative path is that below the snippet root.
pub fn parse_file(path: &str, relative_path: &str, content: &str) -> (file: SnippetFile)
    ensures
        file.path@ == path@,
        file.relative_path@ == relative_path@,
        file.frontmatter@ == metadata_of(content@),
        snippet_views(file.snippets@) == snippets_of(relative_path@, content@),
{
    let lines = text::lines(content);
    let end: usize = match find_frontmatter_end(&lines) {
        Some(end) => end,
        None => 0,
    };
    SnippetFile {
        path: path.to_owned(),
        relative_path: relative_path.to_owned(),
        frontmatter: frontmatter::read_frontmatter(&lines, end),
        snippets: parse_snippets(relative_path, content),
    }
}

/// Lines of a file that belong to a snippet, counted from zero; `end_line` is
/// the first line behind them.
#[derive(Debug, PartialEq, Eq)]
pub struct SnippetRange {
    pub id: SnippetId,
    pub start_line: usize,
    pub end_line: usize,
}

/// What a [`SnippetRange`] holds.
pub struct RangeView {
    pub id: Seq<char>,
    pub start_line: int,
    pub end_line: int,
}

impl View for SnippetRange {
    type V = RangeView;

    open spec fn view(&self) -> RangeView {
        RangeView {
            id: self.id@,
            start_line: self.start_line as int,
            end_line: self.end_line as int,
        }
    }
}

/// What a list of ranges holds.
pub open spec fn range_views(list: Seq<SnippetRange>) -> Seq<RangeView> {
    list.map_values(|r: SnippetRange| r@)
}

/// The lines of each snippet, from its heading to the end of its code.
pub open spec fn line_ranges(relative_path: Seq<char>, content: Seq<char>) -> Seq<RangeView> {
    sections_of(content).map_values(
        |s: SectionView|
            RangeView {
                id: section_id(relative_path, s),
                start_line: s.start,
                end_line: s.code_end,
            },
    )
}

/// The lines of each snippet, from its heading to the end of its section.
pub open spec fn section_ranges(relative_path: Seq<char>, content: Seq<char>) -> Seq<RangeView> {
    sections_of(content).map_values(
        |s: SectionView|
            RangeView {
                id: section_id(relative_path, s),
                start_line: s.start,
                end_line: s.end,
            },
    )
}

fn collect_ranges(relative_path: &str, content: &str, whole_section: bool) -> (ranges: Vec<
    SnippetRange,
>)
    ensures
        range_views(ranges@) == (if whole_section {
            section_ranges(relative_path@, content@)
        } else {
            line_ranges(relative_path@, content@)
        }),
{
    let lines = text::lines(content);
    let sections = scan_sections(&lines);
    let ghost all = sections_of(content@);
    let ghost whole = if whole_section {
        section_ranges(relative_path@, content@)
    } else {
        line_ranges(relative_path@, content@)
    };
    let mut out: Vec<SnippetRange> = Vec::new();
    let mut i: usize = 0;
    assert(range_views(out@) =~= whole.take(0));
    while i < sections.len()
        invariant
            i <= sections@.len(),
            all == section_views(sections@),
            all == sections_of(content@),
            whole == (if whole_section {
                section_ranges(relative_path@, content@)
            } else {
                line_ranges(relative_path@, content@)
            }),
            range_views(out@) == whole.take(i as int),
        decreases sections@.len() - i,
    {
        assert(all[i as int] == sections@[i as int]@);
        let section = &sections[i];
        let range = SnippetRange {
            id: id_of(relative_path, section.name.as_str()),
            start_line: section.start,
            end_line: if whole_section {
                section.end
            } else {
                section.code_end
            },
        };
        let ghost before = out@;
        let ghost view = range@;
        assert(whole[i as int] == view);
        out.push(range);
        assert(range_views(out@) =~= range_views(before).push(view));
        assert(whole.take(i + 1) =~= whole.take(i as int).push(whole[i as int]));
        i = i + 1;
    }
    assert(whole.take(whole.len() as int) =~= whole);
    out
}

/// The lines of each snippet, from its heading to the end of its code.
pub fn snippet_line_ranges(relative_path: &str, content: &str) -> (ranges: Vec<SnippetRange>)
    ensures
        range_views(ranges@) == line_ranges(relative_path@, content@),
{
    collect_ranges(relative_path, content, false)
}

/// The first range of a snippet.
pub open spec fn range_of(ranges: Seq<RangeView>, id: Seq<char>) -> Option<RangeView>
    decreases ranges.len(),
{
    if ranges.len() == 0 {
        None
    } else if ranges[0].id == id {
        Some(ranges[0])
    } else {
        range_of(ranges.skip(1), id)
    }
}

fn find_range(ranges: &Vec<SnippetRange>, id: &SnippetId) -> (at: Option<usize>)
    ensures
        match at {
            Some(i) => i < ranges@.len() && range_of(range_views(ranges@), id@) == Some(
                ranges@[i as int]@,
            ),
            None => range_of(range_views(ranges@), id@) is None,
        },
{
    let ghost all = range_views(ranges@);
    let mut i: usize = 0;
    assert(all.skip(0) =~= all);
    while i < ranges.len()
        invariant
            i <= ranges@.len(),
            all == range_views(ranges@),
            range_of(all, id@) == range_of(all.skip(i as int), id@),
        decreases ranges@.len() - i,
    {
        assert(all.skip(i as int)[0] == ranges@[i as int]@);
        assert(all.skip(i as int).skip(1) =~= all.skip(i + 1));
        if ranges[i].id.same(id) {
            return Some(i);
        }
        i = i + 1;
    }
    None
}

/// The lines of a snippet, from its heading to the end of its section.
pub fn snippet_section_range(relative_path: &str, content: &str, id: &SnippetId) -> (range: Option<
    (usize, usize),
>)
    ensures
        match range {
            Some((start, end)) => range_of(section_ranges(relative_path@, content@), id@) == Some(
                (RangeView { id: id@, start_line: start as int, end_line: end as int }),
            ),
            None => range_of(section_ranges(relative_path@, content@), id@) is None,
        },
{
    let ranges = collect_ranges(relative_path, content, true);
    proof {
        lemma_range_has_id(range_views(ranges@), id@);
    }
    match find_range(&ranges, id) {
        Some(i) => Some((ranges[i].start_line, ranges[i].end_line)),
        None => None,
    }
}

proof fn lemma_range_has_id(ranges: Seq<RangeView>, id: Seq<char>)
    ensures
        range_of(ranges, id) matches Some(r) ==> r.id == id,
    decreases ranges.len(),
{
    if ranges.len() > 0 {
        lemma_range_has_id(ranges.skip(1), id);
    }
}

/// Every section of a file starts and ends on lines of the file.
pub open spec fn sections_fit(state: ScanView, n: int) -> bool {
    &&& match state.current {
        Some(s) => 0 <= s.start < n && s.start <= s.code_end <= n,
        None => true,
    }
    &&& forall|i: int|
        0 <= i < state.done.len() ==> {
            let s = #[trigger] state.done[i];
            0 <= s.start < s.end && s.end <= n && s.code_end <= s.end && s.start < n
        }
}

proof fn lemma_sections_fit(lines: Seq<Seq<char>>, from: int, n: int)
    requires
        0 <= from,
        n <= lines.len(),
    ensures
        n >= 0 ==> sections_fit(scanned(lines, from, n), n),
    decreases n,
{
    if n > from && n > 0 {
        lemma_sections_fit(lines, from, n - 1);
        let state = scanned(lines, from, n - 1);
        let next = scanned(lines, from, n);
        assert(next == state.stepping(lines[n - 1], n - 1));
        assert forall|i: int| 0 <= i < next.done.len() implies ({
            let s = #[trigger] next.done[i];
            0 <= s.start < s.end && s.end <= n && s.code_end <= s.end && s.start < n
        }) by {
            if i < state.done.len() {
                assert(next.done[i] == state.done[i]);
            }
        }
    }
}

/// The sections of a file lie inside it: each begins with a line of the file,
/// ends behind its code, and reaches no further than the last line.
pub proof fn law_sections_lie_in_the_file(content: Seq<char>)
    ensures
        forall|i: int|
            0 <= i < sections_of(content).len() ==> {
                let s = #[trigger] sections_of(content)[i];
                0 <= s.start < s.end && s.code_end <= s.end && s.end <= text::lines_of(
                    content,
                ).len()
            },
{
    let lines = text::lines_of(content);
    let n = lines.len() as int;
    lemma_next_rule(lines, 1);
    lemma_sections_fit(lines, body_start(lines), n);
    let state = scanned(lines, body_start(lines), n);
    let done = state.settling(n).done;
    assert forall|i: int| 0 <= i < done.len() implies ({
        let s = #[trigger] done[i];
        0 <= s.start < s.end && s.code_end <= s.end && s.end <= n
    }) by {
        if i < state.done.len() {
            assert(done[i] == state.done[i]);
        }
    }
}

/// Whether no line between two others opens a code block.
pub open spec fn no_opening(lines: Seq<Seq<char>>, from: int, to: int) -> bool {
    forall|i: int| from < i < to ==> opening_of(#[trigger] lines[i]) is None
}

/// Whether the first line between two others that opens a code block, if one
/// does, marks it as plain text.
pub open spec fn plain_at_first(lines: Seq<Seq<char>>, from: int, to: int) -> bool {
    forall|i: int|
        from < i < to && opening_of(#[trigger] lines[i]) is Some && no_opening(lines, from, i)
            ==> opening_of(lines[i])->0.language == Some("text"@)
}

/// Whether the code of a section opens on a line: what stands between the
/// heading and that line describes the section.
pub open spec fn code_opens(lines: Seq<Seq<char>>, s: SectionView, at: int) -> bool {
    &&& s.start < at < lines.len()
    &&& s.description == lines.subrange(s.start + 1, at)
    &&& opening_of(lines[at]) matches Some(o) && o.language == s.language && o.language != Some(
        "text"@,
    )
    &&& plain_at_first(lines, s.start, at)
}

/// Whether a section is made of lines of the file: its heading, the lines that
/// describe it, and the code between the line that opens it and the first one
/// that closes it.
pub open spec fn made_of(lines: Seq<Seq<char>>, s: SectionView, at: int) -> bool {
    &&& 0 <= s.start
    &&& heading_of(lines[s.start]) == Some(s.name)
    &&& code_opens(lines, s, at)
    &&& at < s.code_end - 1 < lines.len()
    &&& s.body == lines.subrange(at + 1, s.code_end - 1)
    &&& opening_of(lines[at]) matches Some(o) && {
        &&& closes(lines[s.code_end - 1], o.mark, o.count)
        &&& forall|i: int|
            at < i < s.code_end - 1 ==> !closes(#[trigger] lines[i], o.mark, o.count)
    }
}

/// What holds of the section that is being read.
spec fn reads(lines: Seq<Seq<char>>, state: ScanView, n: int) -> bool {
    match state.current {
        None => state.fence matches Some(f) ==> !f.code,
        Some(s) => {
            &&& 0 <= s.start < n
            &&& heading_of(lines[s.start]) == Some(s.name)
            &&& match s.progress {
                Progress::Described => {
                    &&& s.description == lines.subrange(s.start + 1, n)
                    &&& s.body.len() == 0
                    &&& state.fence matches Some(f) ==> !f.code
                    &&& plain_at_first(lines, s.start, n)
                    &&& no_opening(lines, s.start, n) ==> state.fence is None
                },
                Progress::Reading => exists|at: int| #[trigger] reads_from(lines, state, s, at, n),
                Progress::Read => {
                    &&& state.fence matches Some(f) ==> !f.code
                    &&& s.code_end <= n
                    &&& exists|at: int| #[trigger] made_of(lines, s, at)
                },
            }
        },
    }
}

/// What holds while the code that opened on a line is read.
spec fn reads_from(lines: Seq<Seq<char>>, state: ScanView, s: SectionView, at: int, n: int) -> bool {
    &&& code_opens(lines, s, at)
    &&& at < n
    &&& s.body == lines.subrange(at + 1, n)
    &&& opening_of(lines[at]) matches Some(o) && {
        &&& state.fence == Some(FenceView { mark: o.mark, count: o.count, code: true })
        &&& forall|i: int| at < i < n ==> !closes(#[trigger] lines[i], o.mark, o.count)
    }
}

/// Whether the sections that were read stand one behind the other, each made of
/// lines of the file.
spec fn in_a_row(lines: Seq<Seq<char>>, done: Seq<SectionView>, end: int) -> bool {
    &&& forall|i: int|
        0 <= i < done.len() ==> {
            &&& (#[trigger] done[i]).code_end <= done[i].end <= end
            &&& exists|at: int| #[trigger] made_of(lines, done[i], at)
        }
    &&& forall|i: int, j: int|
        0 <= i < j < done.len() ==> (#[trigger] done[i]).end <= (#[trigger] done[j]).start
}

/// Up to which line the sections that were read reach.
spec fn reach(state: ScanView, n: int) -> int {
    match state.current {
        Some(s) => s.start,
        None => n,
    }
}

proof fn lemma_reads(lines: Seq<Seq<char>>, from: int, n: int)
    requires
        0 <= from,
        0 <= n <= lines.len(),
    ensures
        reads(lines, scanned(lines, from, n), n),
        in_a_row(lines, scanned(lines, from, n).done, reach(scanned(lines, from, n), n)),
    decreases n,
{
    if n > from && n > 0 {
        lemma_reads(lines, from, n - 1);
        lemma_reads_line(lines, scanned(lines, from, n - 1), n - 1);
    }
}

/// One more section behind the others.
proof fn lemma_settled(lines: Seq<Seq<char>>, state: ScanView, at: int)
    requires
        reads(lines, state, at),
        in_a_row(lines, state.done, reach(state, at)),
    ensures
        in_a_row(lines, state.settling(at).done, at),
{
    let next = state.settling(at).done;
    assert forall|i: int| 0 <= i < next.len() implies {
        &&& (#[trigger] next[i]).code_end <= next[i].end <= at
        &&& exists|o: int| #[trigger] made_of(lines, next[i], o)
    } by {
        if i < state.done.len() {
            assert(next[i] == state.done[i]);
        } else {
            let s = state.current->0;
            let o = choose|o: int| #[trigger] made_of(lines, s, o);
            assert(made_of(lines, next[i], o));
        }
    }
    assert forall|i: int, j: int| 0 <= i < j < next.len() implies (#[trigger] next[i]).end <= (
    #[trigger] next[j]).start by {
        assert(next[i] == state.done[i]);
        if j < state.done.len() {
            assert(next[j] == state.done[j]);
        }
    }
}

proof fn lemma_reads_line(lines: Seq<Seq<char>>, state: ScanView, at: int)
    requires
        0 <= at < lines.len(),
        reads(lines, state, at),
        in_a_row(lines, state.done, reach(state, at)),
    ensures
        reads(lines, state.stepping(lines[at], at), at + 1),
        in_a_row(
            lines,
            state.stepping(lines[at], at).done,
            reach(state.stepping(lines[at], at), at + 1),
        ),
{
    let line = lines[at];
    let next = state.stepping(line, at);
    let n = at + 1;
    lemma_settled(lines, state, at);
    match state.fence {
        Some(f) => {
            lemma_reads_fenced(lines, state, f, at);
        },
        None => match opening_of(line) {
            Some(o) => {
                lemma_reads_opening(lines, state, o, at);
            },
            None => {
                if heading_of(line) is Some {
                    assert(lines.subrange(at + 1, n) =~= Seq::<Seq<char>>::empty());
                    assert(plain_at_first(lines, at, n));
                } else if !"# "@.is_prefix_of(line) {
                    lemma_reads_description(lines, state, None, at);
                }
            },
        },
    }
}

/// A line that describes the section, or belongs to none.
proof fn lemma_reads_description(
    lines: Seq<Seq<char>>,
    state: ScanView,
    fence: Option<FenceView>,
    at: int,
)
    requires
        0 <= at < lines.len(),
        reads(lines, state, at),
        in_a_row(lines, state.done, reach(state, at)),
        state.fence matches Some(f) ==> !f.code,
        fence matches Some(f) ==> !f.code,
        state.current matches Some(s) && s.progress == Progress::Described && no_opening(
            lines,
            s.start,
            at,
        ) ==> match opening_of(lines[at]) {
            Some(o) => o.language == Some("text"@),
            None => fence is None,
        },
    ensures
        ({
            let next = (ScanView { fence, ..state }).describing(lines[at]);
            &&& reads(lines, next, at + 1)
            &&& in_a_row(lines, next.done, reach(next, at + 1))
        }),
{
    let n = at + 1;
    if let Some(s) = state.current {
        if s.progress == Progress::Described {
            assert(lines.subrange(s.start + 1, n) =~= lines.subrange(s.start + 1, at).push(
                lines[at],
            ));
            assert forall|i: int|
                s.start < i < n && opening_of(#[trigger] lines[i]) is Some && no_opening(
                    lines,
                    s.start,
                    i,
                ) implies opening_of(lines[i])->0.language == Some("text"@) by {}
            if no_opening(lines, s.start, n) {
                assert(no_opening(lines, s.start, at));
                assert(opening_of(lines[at]) is None);
            }
        }
    }
}

/// A line inside a code block.
proof fn lemma_reads_fenced(lines: Seq<Seq<char>>, state: ScanView, f: FenceView, at: int)
    requires
        0 <= at < lines.len(),
        reads(lines, state, at),
        in_a_row(lines, state.done, reach(state, at)),
        state.fence == Some(f),
    ensures
        reads(lines, state.fenced(f, lines[at], at), at + 1),
        in_a_row(
            lines,
            state.fenced(f, lines[at], at).done,
            reach(state.fenced(f, lines[at], at), at + 1),
        ),
{
    let n = at + 1;
    let next = state.fenced(f, lines[at], at);
    if f.code {
        let s = state.current->0;
        let o = choose|o: int| #[trigger] reads_from(lines, state, s, o, at);
        let t = next.current->0;
        if closes(lines[at], f.mark, f.count) {
            assert(made_of(lines, t, o));
        } else {
            assert(lines.subrange(o + 1, n) =~= lines.subrange(o + 1, at).push(lines[at]));
            assert(reads_from(lines, next, t, o, n));
        }
    } else if closes(lines[at], f.mark, f.count) {
        lemma_reads_description(lines, state, None, at);
    } else {
        lemma_reads_description(lines, state, Some(f), at);
    }
}

/// A line that opens a code block.
proof fn lemma_reads_opening(lines: Seq<Seq<char>>, state: ScanView, o: Opening, at: int)
    requires
        0 <= at < lines.len(),
        reads(lines, state, at),
        in_a_row(lines, state.done, reach(state, at)),
        state.fence is None,
        opening_of(lines[at]) == Some(o),
    ensures
        reads(lines, state.opening(o, lines[at]), at + 1),
        in_a_row(
            lines,
            state.opening(o, lines[at]).done,
            reach(state.opening(o, lines[at]), at + 1),
        ),
{
    let next = state.opening(o, lines[at]);
    match state.current {
        Some(s) if s.progress == Progress::Described && o.language != Some("text"@) => {
            let t = next.current->0;
            assert(lines.subrange(at + 1, at + 1) =~= t.body);
            assert(reads_from(lines, next, t, at, at + 1));
        },
        _ => {
            lemma_reads_description(
                lines,
                state,
                Some(FenceView { mark: o.mark, count: o.count, code: false }),
                at,
            );
        },
    }
}

/// Each snippet is made of the lines of its file: its heading, the lines
/// between the heading and the code, which describe it, and the code. Its code
/// is the first code block below the heading, unless that block is marked as
/// plain text.
pub proof fn law_first_code_block_is_the_snippet(content: Seq<char>, i: int) -> (at: int)
    requires
        0 <= i < sections_of(content).len(),
    ensures
        made_of(text::lines_of(content), sections_of(content)[i], at),
{
    let lines = text::lines_of(content);
    let n = lines.len() as int;
    lemma_next_rule(lines, 1);
    lemma_reads(lines, body_start(lines), n);
    lemma_settled(lines, scanned(lines, body_start(lines), n), n);
    let s = sections_of(content)[i];
    choose|at: int| #[trigger] made_of(lines, s, at)
}

/// The snippets of a file stand one behind the other: each ends before the next
/// begins.
pub proof fn law_snippets_do_not_overlap(content: Seq<char>, i: int, j: int)
    requires
        0 <= i < j < sections_of(content).len(),
    ensures
        sections_of(content)[i].end <= sections_of(content)[j].start,
{
    let lines = text::lines_of(content);
    let n = lines.len() as int;
    lemma_next_rule(lines, 1);
    lemma_reads(lines, body_start(lines), n);
    lemma_settled(lines, scanned(lines, body_start(lines), n), n);
}

proof fn lemma_next_rule(lines: Seq<Seq<char>>, from: int)
    requires
        0 <= from,
    ensures
        next_rule(lines, from) matches Some(i) ==> from <= i < lines.len(),
    decreases lines.len() - from,
{
    if from < lines.len() && !is_rule(lines[from]) {
        lemma_next_rule(lines, from + 1);
    }
}

/// The line of a snippet's heading, counted from one.
pub fn snippet_line(relative_path: &str, content: &str, id: &SnippetId) -> (line: Option<usize>)
    ensures
        match line {
            Some(n) => match range_of(line_ranges(relative_path@, content@), id@) {
                Some(range) => n == range.start_line + 1,
                None => false,
            },
            None => range_of(line_ranges(relative_path@, content@), id@) is None,
        },
{
    let ranges = snippet_line_ranges(relative_path, content);
    let lines = text::lines(content);
    let n: usize = lines.len();
    match find_range(&ranges, id) {
        Some(i) => {
            proof {
                law_sections_lie_in_the_file(content@);
                let s = sections_of(content@)[i as int];
                assert(range_views(ranges@)[i as int] == ranges@[i as int]@);
                assert(ranges@[i as int]@.start_line == s.start);
                assert(text::texts(lines@).len() == lines@.len());
            }
            Some(ranges[i].start_line + 1)
        },
        None => None,
    }
}

/// The heading of a snippet is what stands behind two number signs and a blank at
/// the start of a line, trimmed.
pub proof fn law_headings(title: Seq<char>, line: Seq<char>)
    ensures
        heading_of(seq!['#', '#', ' '] + title) == Some(text::trim_of(title)),
        heading_of(line) is Some ==> line.len() >= 3 && line[0] == '#' && line[1] == '#' && line[2]
            == ' ',
{
    reveal_strlit("## ");
    assert("## "@ =~= seq!['#', '#', ' ']);
    let whole = seq!['#', '#', ' '] + title;
    assert(whole.skip(3) =~= title);
    assert("## "@.is_prefix_of(whole));
    if "## "@.is_prefix_of(line) {
        assert(line.subrange(0, 3) == "## "@);
        assert(line[0] == line.subrange(0, 3)[0]);
        assert(line[1] == line.subrange(0, 3)[1]);
        assert(line[2] == line.subrange(0, 3)[2]);
    }
}

proof fn lemma_leading(mark: char, n: nat, rest: Seq<char>)
    requires
        rest.len() > 0 ==> rest[0] != mark,
    ensures
        leading(Seq::new(n, |i: int| mark) + rest, mark) == n,
    decreases n,
{
    let s = Seq::new(n, |i: int| mark) + rest;
    if n > 0 {
        lemma_leading(mark, (n - 1) as nat, rest);
        assert(s.skip(1) =~= Seq::new((n - 1) as nat, |i: int| mark) + rest);
    } else {
        assert(s =~= rest);
    }
}

/// A line opens a code block where three or more backquotes or tildes stand first
/// behind white space, and no backquote behind backquotes. The first word behind
/// them is the language.
pub proof fn law_openings(indent: Seq<char>, mark: char, n: nat, info: Seq<char>)
    requires
        forall|i: int| 0 <= i < indent.len() ==> text::is_white_space(#[trigger] indent[i]),
        info.len() > 0 ==> info[0] != mark,
        !text::is_white_space(mark),
        n > 0,
    ensures
        ({
            let line = indent + (Seq::new(n, |i: int| mark) + info);
            let words = text::words_of(info);
            &&& opening_of(line) is Some <==> (mark == '~' || (mark == '`' && !info.contains('`')))
                && n >= 3
            &&& opening_of(line) matches Some(o) ==> {
                &&& o.mark == mark
                &&& o.count == n
                &&& words.len() == 0 ==> o.language is None
                &&& words.len() > 0 ==> o.language == Some(words[0])
            }
        }),
{
    let marks = Seq::new(n, |i: int| mark);
    let s = marks + info;
    assert(s[0] == mark);
    text::law_trimming_at_the_start(indent, s);
    lemma_leading(mark, n, info);
    assert(s.skip(n as int) =~= info);
}

/// A code block is closed by a line of nothing but its mark and white space around,
/// with the mark as often at least as where it was opened.
pub proof fn law_closings(before: Seq<char>, mark: char, n: nat, behind: Seq<char>, count: nat)
    requires
        forall|i: int| 0 <= i < before.len() ==> text::is_white_space(#[trigger] before[i]),
        forall|i: int| 0 <= i < behind.len() ==> text::is_white_space(#[trigger] behind[i]),
        !text::is_white_space(mark),
        n > 0,
    ensures
        closes(before + Seq::new(n, |i: int| mark) + behind, mark, count) <==> n >= count,
{
    let marks = Seq::new(n, |i: int| mark);
    text::law_trimming_takes_white_space_away(before, marks, behind);
    lemma_leading(mark, n, Seq::empty());
    assert(marks + Seq::<char>::empty() =~= marks);
}

/// A line with another character than the mark and white space closes nothing.
pub proof fn law_other_lines_close_nothing(line: Seq<char>, mark: char, count: nat, k: int)
    requires
        0 <= k < text::trim_of(line).len(),
        text::trim_of(line)[k] != mark,
    ensures
        !closes(line, mark, count),
{
    lemma_leading_bound(text::trim_of(line), mark, k);
}

proof fn lemma_leading_bound(s: Seq<char>, mark: char, k: int)
    requires
        0 <= k < s.len(),
        s[k] != mark,
    ensures
        leading(s, mark) <= k,
    decreases s.len(),
{
    if s[0] == mark {
        lemma_leading_bound(s.skip(1), mark, k - 1);
    }
}

/// A code block that opens outside of others ends with the first line that closes
/// it, and lines that open nothing open no block.
pub proof fn law_code_blocks_end(lines: Seq<Seq<char>>, from: int, at: int, close: int, o: Opening)
    requires
        0 <= from <= at < close < lines.len(),
        scanned(lines, from, at).fence is None,
    ensures
        opening_of(lines[at]) is None ==> scanned(lines, from, at + 1).fence is None,
        opening_of(lines[at]) == Some(o) && closes(lines[close], o.mark, o.count) && (forall|i: int|
            at < i < close ==> !closes(#[trigger] lines[i], o.mark, o.count)) ==> {
            &&& scanned(lines, from, close + 1).fence is None
            &&& forall|i: int|
                at < i <= close ==> (#[trigger] scanned(lines, from, i)).fence is Some
        },
{
    if opening_of(lines[at]) == Some(o) && closes(lines[close], o.mark, o.count) && (forall|i: int|
        at < i < close ==> !closes(#[trigger] lines[i], o.mark, o.count)) {
        assert forall|i: int| at < i <= close implies (#[trigger] scanned(lines, from, i)).fence is Some by {
            lemma_fence_stays(lines, from, at, i, o);
        }
        lemma_fence_stays(lines, from, at, close, o);
    }
}

proof fn lemma_fence_stays(lines: Seq<Seq<char>>, from: int, at: int, n: int, o: Opening)
    requires
        0 <= from <= at < n <= lines.len(),
        scanned(lines, from, at).fence is None,
        opening_of(lines[at]) == Some(o),
        forall|i: int| at < i < n ==> !closes(#[trigger] lines[i], o.mark, o.count),
    ensures
        scanned(lines, from, n).fence matches Some(f) && f.mark == o.mark && f.count == o.count,
    decreases n,
{
    if n > at + 1 {
        lemma_fence_stays(lines, from, at, n - 1, o);
    }
}

/// Whether a section has the given heading, description, code and places.
pub open spec fn is_section(
    s: SectionView,
    lines: Seq<Seq<char>>,
    name: Seq<char>,
    start: int,
    at: int,
    close: int,
    language: Option<Seq<char>>,
) -> bool {
    &&& s.name == name
    &&& s.start == start
    &&& s.description == lines.subrange(start + 1, at)
    &&& s.body == lines.subrange(at + 1, close)
    &&& s.code_end == close + 1
    &&& s.language == language
}

/// Whether a line leaves the section without code: it opens no block but one of
/// plain text, and is no heading of a snippet or a file.
pub open spec fn describes(line: Seq<char>) -> bool {
    match opening_of(line) {
        Some(o) => o.language == Some("text"@),
        None => heading_of(line) is None && !"# "@.is_prefix_of(line),
    }
}

/// Whether a line starts no other section.
pub open spec fn goes_on(line: Seq<char>) -> bool {
    opening_of(line) is Some || (heading_of(line) is None && !"# "@.is_prefix_of(line))
}

proof fn lemma_described(lines: Seq<Seq<char>>, from: int, start: int, n: int)
    requires
        0 <= from <= start < n <= lines.len(),
        scanned(lines, from, start).fence is None,
        opening_of(lines[start]) is None,
        heading_of(lines[start]) is Some,
        forall|i: int|
            start < i < n ==> (#[trigger] scanned(lines, from, i)).fence is Some || describes(
                lines[i],
            ),
    ensures
        scanned(lines, from, n).fence matches Some(f) ==> !f.code,
        scanned(lines, from, n).current matches Some(s) && {
            &&& s.name == heading_of(lines[start])->0
            &&& s.start == start
            &&& s.description == lines.subrange(start + 1, n)
            &&& s.body.len() == 0
            &&& s.progress == Progress::Described
        },
    decreases n,
{
    if n > start + 1 {
        lemma_described(lines, from, start, n - 1);
        assert(lines.subrange(start + 1, n) =~= lines.subrange(start + 1, n - 1).push(
            lines[n - 1],
        ));
        assert(scanned(lines, from, n - 1).fence is Some || describes(lines[n - 1]));
    } else {
        assert(lines.subrange(start + 1, n) =~= Seq::<Seq<char>>::empty());
    }
}

proof fn lemma_coded(lines: Seq<Seq<char>>, from: int, start: int, at: int, n: int, o: Opening)
    requires
        0 <= from <= start < at < n <= lines.len(),
        scanned(lines, from, start).fence is None,
        opening_of(lines[start]) is None,
        heading_of(lines[start]) is Some,
        forall|i: int|
            start < i < at ==> (#[trigger] scanned(lines, from, i)).fence is Some || describes(
                lines[i],
            ),
        scanned(lines, from, at).fence is None,
        opening_of(lines[at]) == Some(o),
        o.language != Some("text"@),
        forall|i: int| at < i < n ==> !closes(#[trigger] lines[i], o.mark, o.count),
    ensures
        scanned(lines, from, n).fence matches Some(f) && f.code && f.mark == o.mark && f.count
            == o.count,
        scanned(lines, from, n).current matches Some(s) && {
            &&& s.name == heading_of(lines[start])->0
            &&& s.start == start
            &&& s.description == lines.subrange(start + 1, at)
            &&& s.body == lines.subrange(at + 1, n)
            &&& s.language == o.language
        },
    decreases n,
{
    if n > at + 1 {
        lemma_coded(lines, from, start, at, n - 1, o);
        assert(lines.subrange(at + 1, n) =~= lines.subrange(at + 1, n - 1).push(lines[n - 1]));
    } else {
        lemma_described(lines, from, start, at);
        assert(lines.subrange(at + 1, n) =~= Seq::<Seq<char>>::empty());
    }
}

/// What holds of a section once its code has been read.
spec fn keeps(state: ScanView, s: SectionView) -> bool {
    &&& state.current == Some(s)
    &&& s.progress == Progress::Read
    &&& state.fence matches Some(f) ==> !f.code
}

proof fn lemma_kept(lines: Seq<Seq<char>>, from: int, close: int, n: int, s: SectionView)
    requires
        0 <= from <= close < n <= lines.len(),
        keeps(scanned(lines, from, close + 1), s),
        forall|i: int|
            close < i < n ==> (#[trigger] scanned(lines, from, i)).fence is Some || goes_on(
                lines[i],
            ),
    ensures
        keeps(scanned(lines, from, n), s),
    decreases n,
{
    if n > close + 1 {
        lemma_kept(lines, from, close, n - 1, s);
        assert(scanned(lines, from, n - 1).fence is Some || goes_on(lines[n - 1]));
    }
}

proof fn lemma_done_stays(lines: Seq<Seq<char>>, from: int, k: int, n: int, i: int)
    requires
        0 <= from <= k <= n <= lines.len(),
        0 <= i < scanned(lines, from, k).done.len(),
    ensures
        i < scanned(lines, from, n).done.len(),
        scanned(lines, from, n).done[i] == scanned(lines, from, k).done[i],
    decreases n,
{
    if n > k {
        lemma_done_stays(lines, from, k, n - 1, i);
    }
}

/// Each heading outside of code blocks that is followed by a code block, before
/// another heading and other than one of plain text, makes a snippet: the lines
/// between are its description, those of the block its code. The section reaches
/// to the next heading outside of code blocks, or to the end of the file.
pub proof fn law_headings_with_code_are_snippets(
    content: Seq<char>,
    start: int,
    at: int,
    close: int,
    end: int,
    o: Opening,
) -> (k: int)
    requires
        ({
            let lines = text::lines_of(content);
            let from = body_start(lines);
            &&& from <= start < at < close < end <= lines.len()
            &&& scanned(lines, from, start).fence is None
            &&& opening_of(lines[start]) is None
            &&& heading_of(lines[start]) is Some
            &&& forall|i: int|
                start < i < at ==> (#[trigger] scanned(lines, from, i)).fence is Some || describes(
                    lines[i],
                )
            &&& scanned(lines, from, at).fence is None
            &&& opening_of(lines[at]) == Some(o)
            &&& o.language != Some("text"@)
            &&& forall|i: int| at < i < close ==> !closes(#[trigger] lines[i], o.mark, o.count)
            &&& closes(lines[close], o.mark, o.count)
            &&& forall|i: int|
                close < i < end ==> (#[trigger] scanned(lines, from, i)).fence is Some || goes_on(
                    lines[i],
                )
            &&& end < lines.len() ==> scanned(lines, from, end).fence is None && opening_of(
                lines[end],
            ) is None && (heading_of(lines[end]) is Some || "# "@.is_prefix_of(lines[end]))
        }),
    ensures
        0 <= k < sections_of(content).len(),
        is_section(
            sections_of(content)[k],
            text::lines_of(content),
            heading_of(text::lines_of(content)[start])->0,
            start,
            at,
            close,
            o.language,
        ),
        sections_of(content)[k].end == end,
{
    let lines = text::lines_of(content);
    let from = body_start(lines);
    let n = lines.len() as int;
    lemma_next_rule(lines, 1);
    lemma_coded(lines, from, start, at, close, o);
    let s = scanned(lines, from, close + 1).current->0;
    assert(keeps(scanned(lines, from, close + 1), s));
    lemma_kept(lines, from, close, end, s);
    let state = scanned(lines, from, end);
    let k = state.done.len() as int;
    let settled = SectionView { end, ..s };
    assert(state.settling(end).done[k] == settled);
    if end < n {
        let next = scanned(lines, from, end + 1);
        assert(next == state.stepping(lines[end], end));
        assert(next.done[k] == settled);
        lemma_done_stays(lines, from, end + 1, n, k);
        let last = scanned(lines, from, n);
        assert(last.settling(n).done[k] == last.done[k]);
    }
    k
}

/// A snippet has the name, the code and the language of its section; its id is made
/// of the path of its file and the name, and its description is trimmed.
pub proof fn law_snippets_are_their_sections(relative_path: Seq<char>, content: Seq<char>, i: int)
    requires
        0 <= i < sections_of(content).len(),
    ensures
        ({
            let section = sections_of(content)[i];
            let snippet = snippets_of(relative_path, content)[i];
            &&& snippets_of(relative_path, content).len() == sections_of(content).len()
            &&& snippet.name == section.name
            &&& snippet.id == domain::id_text(relative_path, slug_text(section.name))
            &&& section.body.len() > 0 && (forall|k: int|
                0 <= k < section.body.len() ==> !(#[trigger] section.body[k]).contains('\n'))
                ==> text::split_of(snippet.body, '\n') == section.body
            &&& section.body.len() == 0 ==> snippet.body.len() == 0
            &&& text::is_trimmed(snippet.description)
            &&& snippet.description == text::trim_of(
                text::join_of(section.description, seq!['\n']),
            )
            &&& snippet.language == section.language
            &&& line_ranges(relative_path, content)[i].id == snippet.id
            &&& line_ranges(relative_path, content)[i].start_line == section.start
            &&& line_ranges(relative_path, content)[i].end_line == section.code_end
            &&& section_ranges(relative_path, content)[i].id == snippet.id
            &&& section_ranges(relative_path, content)[i].start_line == section.start
            &&& section_ranges(relative_path, content)[i].end_line == section.end
            &&& line_ranges(relative_path, content).len() == sections_of(content).len()
            &&& section_ranges(relative_path, content).len() == sections_of(content).len()
        }),
{
    reveal_strlit("\n");
    assert("\n"@ =~= seq!['\n']);
    let section = sections_of(content)[i];
    text::law_trimming(text::join_of(section.description, seq!['\n']));
    if section.body.len() > 0 && forall|k: int|
        0 <= k < section.body.len() ==> !(#[trigger] section.body[k]).contains('\n') {
        text::law_split_undoes_join(section.body, '\n');
    }
}

/// The range of a snippet is the first one with its id.
pub proof fn law_first_range_counts(ranges: Seq<RangeView>, id: Seq<char>, i: int)
    requires
        0 <= i <= ranges.len(),
        forall|j: int| 0 <= j < i ==> (#[trigger] ranges[j]).id != id,
        i < ranges.len() ==> ranges[i].id == id,
    ensures
        i < ranges.len() ==> range_of(ranges, id) == Some(ranges[i]),
        i == ranges.len() ==> range_of(ranges, id) is None,
    decreases ranges.len(),
{
    if i > 0 {
        assert(ranges[0].id != id);
        assert forall|j: int| 0 <= j < i - 1 implies (#[trigger] ranges.skip(1)[j]).id != id by {
            assert(ranges[j + 1].id != id);
        }
        law_first_range_counts(ranges.skip(1), id, i - 1);
    }
}

/// The frontmatter reaches from a first line of three dashes to the next such line,
/// white space behind them aside. Without both there is none.
pub proof fn law_frontmatter_stands_between_rules(lines: Seq<Seq<char>>, end: int)
    requires
        lines.len() > 0,
        0 < end <= lines.len(),
        forall|i: int|
            0 < i < end ==> text::trim_end_of(#[trigger] lines[i]) != seq!['-', '-', '-'],
        end < lines.len() ==> text::trim_end_of(lines[end]) == seq!['-', '-', '-'],
    ensures
        text::trim_end_of(lines[0]) == seq!['-', '-', '-'] && end < lines.len()
            ==> frontmatter_end(lines) == Some(end) && body_start(lines) == end + 1,
        text::trim_end_of(lines[0]) != seq!['-', '-', '-'] || end == lines.len()
            ==> frontmatter_end(lines) is None && body_start(lines) == 0,
{
    reveal_strlit("---");
    assert("---"@ =~= seq!['-', '-', '-']);
    lemma_next_rule_is(lines, 1, end);
}

proof fn lemma_next_rule_is(lines: Seq<Seq<char>>, from: int, end: int)
    requires
        0 <= from <= end <= lines.len(),
        forall|i: int| from <= i < end ==> !is_rule(#[trigger] lines[i]),
        end < lines.len() ==> is_rule(lines[end]),
    ensures
        next_rule(lines, from) == (if end < lines.len() {
            Some(end)
        } else {
            None
        }),
    decreases end - from,
{
    if from < end {
        lemma_next_rule_is(lines, from + 1, end);
    }
}

/// Whether a character is a letter or a digit that has a small form, which ends in
/// no dash.
pub open spec fn is_letter(c: char) -> bool {
    &&& text::is_alphanumeric(c)
    &&& text::char_lowercase(c).len() > 0
    &&& text::char_lowercase(c).last() != '-'
}

proof fn lemma_gap_is_one_dash(a: Seq<char>, gap: Seq<char>)
    requires
        a.len() > 0 ==> is_letter(a.last()),
        gap.len() > 0,
        forall|i: int| 0 <= i < gap.len() ==> !text::is_alphanumeric(#[trigger] gap[i]),
    ensures
        a.len() > 0 ==> dashed(a + gap) == dashed(a).push('-'),
        a.len() > 0 ==> dashed(a).len() > 0 && dashed(a).last() != '-',
        a.len() == 0 ==> dashed(a + gap).len() == 0,
    decreases gap.len(),
{
    let s = a + gap;
    assert(s.drop_last() =~= a + gap.drop_last());
    if gap.len() > 1 {
        lemma_gap_is_one_dash(a, gap.drop_last());
    } else {
        assert(s.drop_last() =~= a);
    }
}

proof fn lemma_slug_goes_on(front: Seq<char>, b: Seq<char>)
    requires
        b.len() > 0,
        is_letter(b[0]),
    ensures
        dashed(front + b) == dashed(front) + dashed(b),
        dashed(b).len() > 0,
    decreases b.len(),
{
    let s = front + b;
    assert(s.drop_last() =~= front + b.drop_last());
    if b.len() > 1 {
        lemma_slug_goes_on(front, b.drop_last());
        assert(dashed(s) =~= dashed(front) + dashed(b));
    } else {
        assert(b.drop_last() =~= Seq::<char>::empty());
        assert(s.drop_last() =~= front);
        assert(dashed(b.drop_last()) =~= Seq::<char>::empty());
        assert(dashed(s) =~= dashed(front) + dashed(b));
    }
}

/// In an id the words of a heading stand in small letters, with one dash for all
/// that stands between two of them and nothing for what stands before or behind.
pub proof fn law_slugs(a: Seq<char>, gap: Seq<char>, b: Seq<char>, c: char)
    requires
        a.len() > 0,
        b.len() > 0,
        is_letter(a[0]),
        is_letter(a.last()),
        is_letter(b[0]),
        is_letter(b.last()),
        is_letter(c),
        gap.len() > 0,
        forall|i: int| 0 <= i < gap.len() ==> !text::is_alphanumeric(#[trigger] gap[i]),
    ensures
        slug_text(a + gap + b) == slug_text(a) + seq!['-'] + slug_text(b),
        slug_text(gap + a) == slug_text(a),
        slug_text(a + gap) == slug_text(a),
        slug_text(a.push(c)) == slug_text(a) + text::char_lowercase(c),
        slug_text(seq![c]) == text::char_lowercase(c),
{
    lemma_gap_is_one_dash(a, gap);
    lemma_gap_is_one_dash(b, gap);
    lemma_slug_goes_on(a + gap, b);
    lemma_slug_goes_on(gap, a);
    lemma_slug_goes_on(a, b);
    lemma_gap_is_one_dash(Seq::empty(), gap);
    assert(Seq::<char>::empty() + gap =~= gap);
    assert(dashed(gap) + dashed(a) =~= dashed(a));
    assert(dashed(a).push('-') + dashed(b) =~= dashed(a) + seq!['-'] + dashed(b));
    assert((dashed(a) + seq!['-'] + dashed(b)).last() == dashed(b).last());
    assert(dashed(a).push('-').drop_last() =~= dashed(a));
    assert(a.push(c).drop_last() =~= a);
    assert((dashed(a) + text::char_lowercase(c)).last() == text::char_lowercase(c).last());
    reveal_with_fuel(dashed, 2);
    assert(seq![c].drop_last() =~= Seq::<char>::empty());
    assert(dashed(seq![c]) =~= text::char_lowercase(c));
}

} // verus!
