//! Finding the markdown files below the snippet roots.
//!
//! A [`Walk`] decides what is read and what is kept; its caller reads the
//! directories that it names.

use vstd::prelude::*;
use crate::glob;
use crate::path;
use crate::text;
use crate::text_map::TextSet;

verus! {

broadcast use vstd::string::group_string_axioms;

/// A pattern without slashes at its end.
pub open spec fn without_slashes(s: Seq<char>) -> Seq<char>
    decreases s.len(),
{
    if s.len() > 0 && s.last() == '/' {
        without_slashes(s.drop_last())
    } else {
        s
    }
}

/// The patterns that count: without slashes at the end, and not empty.
pub open spec fn counted(patterns: Seq<Seq<char>>) -> Seq<Seq<char>>
    decreases patterns.len(),
{
    if patterns.len() == 0 {
        Seq::empty()
    } else {
        let before = counted(patterns.drop_last());
        let last = without_slashes(patterns.last());
        if last.len() > 0 {
            before.push(last)
        } else {
            before
        }
    }
}

/// The pieces behind the first `n` components.
pub open spec fn behind_parts(pieces: Seq<Seq<char>>, n: int) -> Seq<Seq<char>>
    decreases pieces.len(),
{
    if n <= 0 || pieces.len() == 0 {
        pieces
    } else if path::is_part(pieces[0]) {
        behind_parts(pieces.skip(1), n - 1)
    } else {
        behind_parts(pieces.skip(1), n)
    }
}

/// The pieces from the first component on.
pub open spec fn from_first_part(pieces: Seq<Seq<char>>) -> Seq<Seq<char>>
    decreases pieces.len(),
{
    if pieces.len() > 0 && !path::is_part(pieces[0]) {
        from_first_part(pieces.skip(1))
    } else {
        pieces
    }
}

/// The pieces up to the last component.
pub open spec fn to_last_part(pieces: Seq<Seq<char>>) -> Seq<Seq<char>>
    decreases pieces.len(),
{
    if pieces.len() > 0 && !path::is_part(pieces.last()) {
        to_last_part(pieces.drop_last())
    } else {
        pieces
    }
}

/// A path as it is written below another one; none where it does not lie there
/// or is the same. The other path has components.
pub open spec fn written_below(p: Seq<char>, base: Seq<char>) -> Option<Seq<char>> {
    if path::components_of(base).len() > 0 && path::lies_under(p, base) {
        let named = path::components_of(base).len() - path::start_of(base).len();
        let rest = to_last_part(
            from_first_part(behind_parts(text::split_of(p, '/'), named as int)),
        );
        if rest.len() == 0 {
            None
        } else {
            Some(text::join_of(rest, "/"@))
        }
    } else {
        None
    }
}

/// A path with slashes in place of backslashes.
pub open spec fn slashed(p: Seq<char>) -> Seq<char> {
    text::replace_char_of(p, '\\', "/"@)
}

/// Whether a pattern matches a text.
pub open spec fn glob_hits(pattern: Seq<char>, value: Seq<char>) -> bool {
    glob::glob_of(vstd::utf8::encode_utf8(pattern), vstd::utf8::encode_utf8(value))
}

/// Whether a pattern matches a path, as it is written below the root or as a
/// whole.
pub open spec fn pattern_hits(pattern: Seq<char>, root: Seq<char>, p: Seq<char>) -> bool {
    ||| written_below(p, root) is Some && glob_hits(pattern, slashed(written_below(p, root)->0))
    ||| glob_hits(pattern, slashed(p))
}

/// Whether one of the patterns matches a path.
pub open spec fn is_ignored(patterns: Seq<Seq<char>>, root: Seq<char>, p: Seq<char>) -> bool {
    exists|i: int| 0 <= i < patterns.len() && pattern_hits(#[trigger] patterns[i], root, p)
}

/// Patterns for files and directories that are passed over.
#[derive(Debug, PartialEq, Eq)]
pub struct IgnoreRules {
    patterns: Vec<String>,
}

impl View for IgnoreRules {
    type V = Seq<Seq<char>>;

    closed spec fn view(&self) -> Seq<Seq<char>> {
        text::texts(self.patterns@)
    }
}

impl Default for IgnoreRules {
    /// No patterns.
    fn default() -> (rules: Self)
        ensures
            rules@ == Seq::<Seq<char>>::empty(),
    {
        let rules = IgnoreRules { patterns: Vec::new() };
        assert(rules@ =~= Seq::<Seq<char>>::empty());
        rules
    }
}

fn trim_slashes(s: &str) -> (out: String)
    ensures
        out@ == without_slashes(s@),
{
    let chars = text::chars_of(s);
    let mut n: usize = chars.len();
    assert(chars@.take(n as int) =~= chars@);
    while n > 0 && chars[n - 1] == '/'
        invariant
            n <= chars@.len(),
            chars@ == s@,
            without_slashes(s@) == without_slashes(chars@.take(n as int)),
        decreases n,
    {
        assert(chars@.take(n as int).last() == chars@[n - 1]);
        assert(chars@.take(n as int).drop_last() =~= chars@.take(n - 1));
        n = n - 1;
    }
    let out = text::string_from(&chars, 0, n);
    assert(out@ =~= chars@.take(n as int));
    out
}

impl IgnoreRules {
    /// Rules from patterns. `dir/` and `dir` mean the same.
    pub fn new(patterns: Vec<String>) -> (rules: Self)
        ensures
            rules@ == counted(text::texts(patterns@)),
    {
        let ghost all = text::texts(patterns@);
        let mut out: Vec<String> = Vec::new();
        let mut i: usize = 0;
        assert(all.take(0) =~= Seq::<Seq<char>>::empty());
        assert(text::texts(out@) =~= Seq::<Seq<char>>::empty());
        while i < patterns.len()
            invariant
                i <= patterns@.len(),
                all == text::texts(patterns@),
                text::texts(out@) == counted(all.take(i as int)),
            decreases patterns@.len() - i,
        {
            assert(all.take(i + 1).drop_last() =~= all.take(i as int));
            assert(all.take(i + 1).last() == patterns@[i as int]@);
            let pattern = trim_slashes(patterns[i].as_str());
            if !pattern.as_str().is_empty() {
                proof {
                    text::lemma_texts_push(out@, pattern);
                }
                out.push(pattern);
            }
            i = i + 1;
        }
        assert(all.take(all.len() as int) =~= all);
        IgnoreRules { patterns: out }
    }

    /// Whether there are no patterns.
    pub fn is_empty(&self) -> (yes: bool)
        ensures
            yes == (self@.len() == 0),
    {
        assert(self@.len() == self.patterns@.len());
        self.patterns.len() == 0
    }

    /// Whether one of the patterns matches a path below a root. Directories
    /// above the path are not looked at.
    pub fn matches(&self, root: &str, p: &str) -> (yes: bool)
        ensures
            yes == is_ignored(self@, root@, p@),
    {
        let ghost patterns = self@;
        if self.patterns.len() == 0 {
            return false;
        }
        let relative = match write_below(p, root) {
            Some(rest) => Some(text::replace_char(rest.as_str(), '\\', "/")),
            None => None,
        };
        let absolute = text::replace_char(p, '\\', "/");
        let mut i: usize = 0;
        while i < self.patterns.len()
            invariant
                i <= self.patterns@.len(),
                patterns == self@,
                patterns == text::texts(self.patterns@),
                absolute@ == slashed(p@),
                match relative {
                    Some(rest) => written_below(p@, root@) is Some && rest@ == slashed(
                        written_below(p@, root@)->0,
                    ),
                    None => written_below(p@, root@) is None,
                },
                forall|k: int|
                    0 <= k < i ==> !pattern_hits(#[trigger] patterns[k], root@, p@),
            decreases self.patterns@.len() - i,
        {
            let pattern = self.patterns[i].as_str();
            assert(patterns[i as int] == pattern@);
            let below = match &relative {
                Some(rest) => glob::glob_matches(pattern, rest.as_str()),
                None => false,
            };
            if below || glob::glob_matches(pattern, absolute.as_str()) {
                assert(pattern_hits(patterns[i as int], root@, p@));
                return true;
            }
            i = i + 1;
        }
        false
    }
}

/// A path as it is written below another one.
fn write_below(p: &str, base: &str) -> (out: Option<String>)
    ensures
        text::optional_text(out) == written_below(p@, base@),
{
    let base_parts = path::components(base);
    assert(path::components_of(base@).len() == base_parts@.len());
    if base_parts.len() == 0 || !path::is_under(p, base) {
        return None;
    }
    proof {
        reveal_strlit(".");
        reveal_strlit("/");
        assert("."@ =~= seq!['.']);
        assert("/"@ =~= seq!['/']);
        text::lemma_split_nonempty(base@, '/');
    }
    let base_pieces = text::split_text(base, '/');
    let base_chars = text::chars_of(base);
    assert(text::texts(base_pieces@)[0] == base_pieces@[0]@);
    let started = (base_chars.len() > 0 && base_chars[0] == '/') || text::same_text(
        base_pieces[0].as_str(),
        ".",
    );
    let named: usize = if started {
        base_parts.len() - 1
    } else {
        base_parts.len()
    };
    assert(named == path::components_of(base@).len() - path::start_of(base@).len());
    let pieces = text::split_text(p, '/');
    let ghost all = text::texts(pieces@);
    let mut from: usize = 0;
    let mut left: usize = named;
    assert(all.skip(0) =~= all);
    while left > 0 && from < pieces.len()
        invariant
            from <= pieces@.len(),
            all == text::texts(pieces@),
            behind_parts(all, named as int) == behind_parts(all.skip(from as int), left as int),
        decreases pieces@.len() - from,
    {
        let piece = pieces[from].as_str();
        assert(all.skip(from as int)[0] == piece@);
        assert(all.skip(from as int).skip(1) =~= all.skip(from + 1));
        if counts(piece) {
            left = left - 1;
        }
        from = from + 1;
    }
    let ghost tail = all.skip(from as int);
    assert(behind_parts(all, named as int) == tail);
    while from < pieces.len() && !counts(pieces[from].as_str())
        invariant
            from <= pieces@.len(),
            all == text::texts(pieces@),
            from_first_part(tail) == from_first_part(all.skip(from as int)),
        decreases pieces@.len() - from,
    {
        assert(all.skip(from as int)[0] == pieces@[from as int]@);
        assert(all.skip(from as int).skip(1) =~= all.skip(from + 1));
        from = from + 1;
    }
    let ghost body = all.skip(from as int);
    if from < pieces.len() {
        assert(body[0] == pieces@[from as int]@);
    }
    assert(from_first_part(tail) == body);
    let mut to: usize = pieces.len();
    assert(all.subrange(from as int, to as int) =~= body);
    while to > from && !counts(pieces[to - 1].as_str())
        invariant
            from <= to <= pieces@.len(),
            all == text::texts(pieces@),
            to_last_part(body) == to_last_part(all.subrange(from as int, to as int)),
        decreases to,
    {
        let ghost part = all.subrange(from as int, to as int);
        assert(part.last() == pieces@[to - 1]@);
        assert(part.drop_last() =~= all.subrange(from as int, to - 1));
        to = to - 1;
    }
    let ghost rest = all.subrange(from as int, to as int);
    if to > from {
        assert(rest.last() == pieces@[to - 1]@);
    }
    assert(to_last_part(body) == rest);
    if to == from {
        return None;
    }
    let mut kept: Vec<String> = Vec::new();
    let mut i: usize = from;
    assert(text::texts(kept@) =~= rest.take(0));
    while i < to
        invariant
            from <= i <= to <= pieces@.len(),
            all == text::texts(pieces@),
            rest == all.subrange(from as int, to as int),
            text::texts(kept@) == rest.take(i - from),
        decreases to - i,
    {
        proof {
            text::lemma_texts_push(kept@, pieces@[i as int]);
            assert(rest[i - from] == pieces@[i as int]@);
            assert(rest.take(i - from + 1) =~= rest.take(i - from).push(rest[i - from]));
        }
        kept.push(pieces[i].clone());
        i = i + 1;
    }
    assert(rest.take(rest.len() as int) =~= rest);
    Some(text::join_texts(&kept, "/"))
}

/// The path of a file as ids give it: as it is written below its root, with
/// slashes alone, or its name where it is no path below the root.
pub open spec fn relative_of(p: Seq<char>, root: Seq<char>) -> Seq<char> {
    match written_below(p, root) {
        Some(rest) => slashed(rest),
        None => match path::file_name_of(p) {
            Some(name) => name,
            None => Seq::empty(),
        },
    }
}

/// The path of a file as ids give it.
pub fn relative_to(p: &str, root: &str) -> (rel: String)
    ensures
        rel@ == relative_of(p@, root@),
{
    match write_below(p, root) {
        Some(rest) => text::replace_char(rest.as_str(), '\\', "/"),
        None => match path::file_name(p) {
            Some(name) => name,
            None => {
                let none = String::new();
                assert(none@ =~= Seq::<char>::empty());
                none
            },
        },
    }
}

/// Whether a piece between slashes is a component.
fn counts(piece: &str) -> (yes: bool)
    ensures
        yes == path::is_part(piece@),
{
    proof {
        reveal_strlit(".");
        assert("."@ =~= seq!['.']);
    }
    !piece.is_empty() && !text::same_text(piece, ".")
}

/// What an entry of a directory is, links followed.
#[derive(Debug, Clone, Copy, PartialEq, Eq, Structural)]
pub enum EntryKind {
    File,
    Directory,
    Other,
}

/// An entry of a directory.
#[derive(Debug, PartialEq, Eq)]
pub struct WalkEntry {
    pub name: String,
    pub kind: EntryKind,
}

/// The names of entries of a kind that are not ignored; of files only those
/// that are markdown.
pub open spec fn wanted(
    entries: Seq<WalkEntry>,
    kind: EntryKind,
    patterns: Seq<Seq<char>>,
    root: Seq<char>,
    dir: Seq<char>,
) -> Seq<Seq<char>>
    decreases entries.len(),
{
    if entries.len() == 0 {
        Seq::empty()
    } else {
        let before = wanted(entries.drop_last(), kind, patterns, root, dir);
        let e = entries.last();
        let child = path::joined(dir, e.name@);
        if e.kind == kind && !is_ignored(patterns, root, child) && (kind == EntryKind::File
            ==> path::names_markdown(child)) {
            before.push(e.name@)
        } else {
            before
        }
    }
}

/// Names as paths in a directory.
pub open spec fn children(dir: Seq<char>, names: Seq<Seq<char>>) -> Seq<Seq<char>> {
    names.map_values(|name: Seq<char>| path::joined(dir, name))
}

/// Whether a path is among others, however it is written there.
pub open spec fn is_among(list: Seq<Seq<char>>, p: Seq<char>) -> bool {
    exists|i: int|
        0 <= i < list.len() && path::components_of(#[trigger] list[i]) == path::components_of(p)
}

/// Paths and one more, where it is not among them yet.
pub open spec fn with_path(list: Seq<Seq<char>>, p: Seq<char>) -> Seq<Seq<char>> {
    if is_among(list, p) {
        list
    } else {
        list.push(p)
    }
}

/// Paths and more of them, each where it is not among them yet.
pub open spec fn with_paths(list: Seq<Seq<char>>, more: Seq<Seq<char>>) -> Seq<Seq<char>>
    decreases more.len(),
{
    if more.len() == 0 {
        list
    } else {
        with_path(with_paths(list, more.drop_last()), more.last())
    }
}

/// The state of a walk.
#[verifier::ext_equal]
pub struct WalkView {
    /// The patterns of what is passed over.
    pub ignored: Seq<Seq<char>>,
    /// The root that is walked.
    pub root: Seq<char>,
    /// The files found, and how many of them under earlier roots.
    pub found: Seq<Seq<char>>,
    pub settled: nat,
    /// The directories that were entered, by their canonical paths.
    pub entered: Set<Seq<char>>,
    /// The directories still to be read, the next one last.
    pub pending: Seq<Seq<char>>,
}

impl WalkView {
    /// How many files were found under earlier roots.
    pub open spec fn earlier(self) -> int {
        if self.settled < self.found.len() {
            self.settled as int
        } else {
            self.found.len() as int
        }
    }

    /// At the start of a root.
    pub open spec fn at_root(self, root: Seq<char>, kind: EntryKind) -> WalkView {
        let here = WalkView { root, ..self };
        if is_ignored(self.ignored, root, root) {
            here
        } else {
            match kind {
                EntryKind::File => if path::names_markdown(root) {
                    WalkView { found: with_path(here.found, root), ..here }
                } else {
                    here
                },
                EntryKind::Directory => WalkView { pending: here.pending.push(root), ..here },
                EntryKind::Other => here,
            }
        }
    }

    /// With the entries of a directory taken in: its markdown files are found,
    /// and its directories are read next, in order.
    pub open spec fn listing(self, dir: Seq<char>, entries: Seq<WalkEntry>) -> WalkView {
        let files = text::in_order(
            wanted(entries, EntryKind::File, self.ignored, self.root, dir),
        );
        let dirs = text::in_order(
            wanted(entries, EntryKind::Directory, self.ignored, self.root, dir),
        );
        WalkView {
            found: with_paths(self.found, children(dir, files)),
            pending: self.pending + children(dir, dirs).reverse(),
            ..self
        }
    }

    /// With the files found under the root in order, behind those of earlier
    /// roots.
    pub open spec fn finished(self) -> WalkView {
        let found = self.found.take(self.earlier()) + in_path_order(
            self.found.skip(self.earlier()),
        );
        WalkView { found, settled: found.len(), ..self }
    }
}

/// The order of components: the root, `.`, `..`, and names.
pub open spec fn component_rank(part: Seq<char>) -> int {
    if part == seq!['/'] {
        0
    } else if part == seq!['.'] {
        1
    } else if part == seq!['.', '.'] {
        2
    } else {
        3
    }
}

/// Whether a component comes before another one.
pub open spec fn component_less(a: Seq<char>, b: Seq<char>) -> bool {
    component_rank(a) < component_rank(b) || (component_rank(a) == component_rank(b) && text::text_less(a, b))
}

/// Whether components come before others.
pub open spec fn components_less(a: Seq<Seq<char>>, b: Seq<Seq<char>>) -> bool
    decreases a.len(),
{
    if b.len() == 0 {
        false
    } else if a.len() == 0 {
        true
    } else if a[0] == b[0] {
        components_less(a.skip(1), b.skip(1))
    } else {
        component_less(a[0], b[0])
    }
}

/// Whether a path comes before another one, component by component.
pub open spec fn path_less(a: Seq<char>, b: Seq<char>) -> bool {
    components_less(path::components_of(a), path::components_of(b))
}

/// Paths in order, with another one behind everything that is not larger.
pub open spec fn put_path(list: Seq<Seq<char>>, p: Seq<char>) -> Seq<Seq<char>>
    decreases list.len(),
{
    if list.len() > 0 && path_less(p, list.last()) {
        put_path(list.drop_last(), p).push(list.last())
    } else {
        list.push(p)
    }
}

/// Paths in order.
pub open spec fn in_path_order(list: Seq<Seq<char>>) -> Seq<Seq<char>>
    decreases list.len(),
{
    if list.len() == 0 {
        Seq::empty()
    } else {
        put_path(in_path_order(list.drop_last()), list.last())
    }
}

fn rank_of(part: &str) -> (rank: u8)
    ensures
        rank == component_rank(part@),
{
    proof {
        reveal_strlit("/");
        reveal_strlit(".");
        reveal_strlit("..");
        assert("/"@ =~= seq!['/']);
        assert("."@ =~= seq!['.']);
        assert(".."@ =~= seq!['.', '.']);
    }
    if text::same_text(part, "/") {
        0
    } else if text::same_text(part, ".") {
        1
    } else if text::same_text(part, "..") {
        2
    } else {
        3
    }
}

fn less_path(a: &str, b: &str) -> (yes: bool)
    ensures
        yes == path_less(a@, b@),
{
    let x = path::components(a);
    let y = path::components(b);
    let ghost xs = text::texts(x@);
    let ghost ys = text::texts(y@);
    assert(xs.len() == x@.len() && ys.len() == y@.len());
    let mut i: usize = 0;
    assert(xs.skip(0) =~= xs);
    assert(ys.skip(0) =~= ys);
    loop
        invariant
            i <= x@.len(),
            i <= y@.len(),
            xs == text::texts(x@),
            ys == text::texts(y@),
            xs.len() == x@.len(),
            ys.len() == y@.len(),
            path_less(a@, b@) == components_less(xs.skip(i as int), ys.skip(i as int)),
        decreases x@.len() - i,
    {
        if i == y.len() {
            return false;
        }
        if i == x.len() {
            return true;
        }
        assert(xs.skip(i as int)[0] == x@[i as int]@);
        assert(ys.skip(i as int)[0] == y@[i as int]@);
        if !text::same_text(x[i].as_str(), y[i].as_str()) {
            let p = rank_of(x[i].as_str());
            let q = rank_of(y[i].as_str());
            return p < q || (p == q && text::less_text(x[i].as_str(), y[i].as_str()));
        }
        assert(xs.skip(i as int).skip(1) =~= xs.skip(i + 1));
        assert(ys.skip(i as int).skip(1) =~= ys.skip(i + 1));
        i = i + 1;
    }
}

/// Paths in order.
pub fn sort_paths(items: &Vec<String>) -> (out: Vec<String>)
    ensures
        text::texts(out@) == in_path_order(text::texts(items@)),
{
    let ghost all = text::texts(items@);
    let mut out: Vec<String> = Vec::new();
    let mut i: usize = 0;
    assert(all.take(0) =~= Seq::<Seq<char>>::empty());
    assert(text::texts(out@) =~= Seq::<Seq<char>>::empty());
    while i < items.len()
        invariant
            i <= items@.len(),
            all == text::texts(items@),
            text::texts(out@) == in_path_order(all.take(i as int)),
        decreases items@.len() - i,
    {
        let ghost before = text::texts(out@);
        let x = items[i].as_str();
        let mut at: usize = out.len();
        assert(before.take(at as int) =~= before);
        assert(put_path(before, x@) + before.skip(at as int) =~= put_path(before, x@));
        while at > 0 && less_path(x, out[at - 1].as_str())
            invariant
                at <= out@.len(),
                before == text::texts(out@),
                put_path(before, x@) == put_path(before.take(at as int), x@) + before.skip(
                    at as int,
                ),
            decreases at,
        {
            let ghost head = before.take(at as int);
            assert(head.last() == out@[at - 1]@);
            assert(head.drop_last() =~= before.take(at - 1));
            assert(put_path(head.drop_last(), x@).push(head.last()) + before.skip(at as int)
                =~= put_path(before.take(at - 1), x@) + before.skip(at - 1));
            at = at - 1;
        }
        proof {
            let head = before.take(at as int);
            if at > 0 {
                assert(head.last() == out@[at - 1]@);
            } else {
                assert(head =~= Seq::<Seq<char>>::empty());
            }
            assert(put_path(head, x@) =~= head.push(x@));
            assert(head.push(x@) + before.skip(at as int) =~= before.insert(at as int, x@));
            assert(all.take(i + 1).drop_last() =~= all.take(i as int));
            assert(all.take(i + 1).last() == x@);
        }
        out.insert(at, items[i].clone());
        assert(text::texts(out@) =~= before.insert(at as int, x@));
        i = i + 1;
    }
    assert(all.take(all.len() as int) =~= all);
    out
}

/// A walk through snippet roots.
pub struct Walk {
    ignored: IgnoreRules,
    root: String,
    found: Vec<String>,
    settled: usize,
    entered: TextSet,
    pending: Vec<String>,
}

impl View for Walk {
    type V = WalkView;

    closed spec fn view(&self) -> WalkView {
        WalkView {
            ignored: self.ignored@,
            root: self.root@,
            found: text::texts(self.found@),
            settled: self.settled as nat,
            entered: self.entered@,
            pending: text::texts(self.pending@),
        }
    }
}

impl Walk {
    /// A walk that has not started.
    pub fn new(ignored: IgnoreRules) -> (walk: Self)
        ensures
            walk@ == (WalkView {
                ignored: ignored@,
                root: Seq::empty(),
                found: Seq::empty(),
                settled: 0,
                entered: Set::empty(),
                pending: Seq::empty(),
            }),
    {
        let walk = Walk {
            ignored,
            root: String::new(),
            found: Vec::new(),
            settled: 0,
            entered: TextSet::new(),
            pending: Vec::new(),
        };
        assert(walk.root@ =~= Seq::<char>::empty());
        assert(text::texts(walk.found@) =~= Seq::<Seq<char>>::empty());
        assert(text::texts(walk.pending@) =~= Seq::<Seq<char>>::empty());
        walk
    }

    /// Starts a root of some kind.
    pub fn start_root(&mut self, root: &str, kind: EntryKind)
        ensures
            final(self)@ == old(self)@.at_root(root@, kind),
    {
        let ghost before = self@;
        self.root = root.to_owned();
        if !self.ignored.matches(root, root) {
            match kind {
                EntryKind::File => {
                    if path::is_markdown(root) {
                        self.find(root.to_owned());
                    }
                },
                EntryKind::Directory => {
                    let dir = root.to_owned();
                    proof {
                        text::lemma_texts_push(self.pending@, dir);
                    }
                    self.pending.push(dir);
                },
                EntryKind::Other => {},
            }
        }
        assert(self@ =~= before.at_root(root@, kind));
    }

    /// Keeps a file, where it was not found yet.
    fn find(&mut self, file: String)
        ensures
            final(self)@ == (WalkView {
                found: with_path(old(self)@.found, file@),
                ..old(self)@
            }),
    {
        let ghost before = self@;
        let mut i: usize = 0;
        while i < self.found.len()
            invariant
                i <= self.found@.len(),
                self@ == before,
                before.found == text::texts(self.found@),
                forall|k: int|
                    0 <= k < i ==> path::components_of(#[trigger] before.found[k])
                        != path::components_of(file@),
            decreases self.found@.len() - i,
        {
            assert(before.found[i as int] == self.found@[i as int]@);
            if path::same_path(self.found[i].as_str(), file.as_str()) {
                assert(is_among(before.found, file@));
                return;
            }
            i = i + 1;
        }
        assert(before.found.len() == self.found@.len());
        proof {
            text::lemma_texts_push(self.found@, file);
        }
        self.found.push(file);
        assert(self@ =~= (WalkView { found: with_path(before.found, file@), ..before }));
    }

    /// The next directory to read; none where the root is done.
    pub fn next_dir(&mut self) -> (dir: Option<String>)
        ensures
            match dir {
                Some(d) => old(self)@.pending.len() > 0 && d@ == old(self)@.pending.last()
                    && final(self)@ == (WalkView {
                    pending: old(self)@.pending.drop_last(),
                    ..old(self)@
                }),
                None => old(self)@.pending.len() == 0 && final(self)@ == old(self)@,
            },
    {
        let ghost before = self@;
        let ghost list = self.pending@;
        assert(before.pending.len() == list.len());
        let dir = self.pending.pop();
        proof {
            if list.len() > 0 {
                assert(text::texts(self.pending@) =~= before.pending.drop_last());
                assert(before.pending.last() == list.last()@);
                assert(self@ =~= (WalkView { pending: before.pending.drop_last(), ..before }));
            } else {
                assert(self@ =~= before);
            }
        }
        dir
    }

    /// Whether a directory is to be read: it was not entered yet, under this or
    /// another name.
    pub fn enter(&mut self, canonical: &str) -> (new: bool)
        ensures
            new == !old(self)@.entered.contains(canonical@),
            final(self)@ == (WalkView {
                entered: old(self)@.entered.insert(canonical@),
                ..old(self)@
            }),
    {
        let ghost before = self@;
        let new = !self.entered.contains(canonical);
        self.entered.insert(canonical.to_owned());
        assert(self@ =~= (WalkView { entered: before.entered.insert(canonical@), ..before }));
        new
    }

    /// Takes in the entries of a directory.
    pub fn list(&mut self, dir: &str, entries: &Vec<WalkEntry>)
        ensures
            final(self)@ == old(self)@.listing(dir@, entries@),
    {
        let ghost before = self@;
        let files = text::sort_texts(self.wanted_names(dir, entries, EntryKind::File));
        let dirs = text::sort_texts(self.wanted_names(dir, entries, EntryKind::Directory));
        let ghost file_names = text::texts(files@);
        let ghost dir_names = text::texts(dirs@);
        let ghost new_files = children(dir@, file_names);
        let ghost new_dirs = children(dir@, dir_names);
        let mut i: usize = 0;
        assert(with_paths(before.found, new_files.take(0)) == before.found);
        while i < files.len()
            invariant
                i <= files@.len(),
                file_names == text::texts(files@),
                new_files == children(dir@, file_names),
                self@ == (WalkView {
                    found: with_paths(before.found, new_files.take(i as int)),
                    ..before
                }),
            decreases files@.len() - i,
        {
            let child = path::join(dir, files[i].as_str());
            proof {
                assert(file_names[i as int] == files@[i as int]@);
                assert(new_files.take(i + 1).last() == child@);
                assert(new_files.take(i + 1).drop_last() =~= new_files.take(i as int));
            }
            self.find(child);
            i = i + 1;
        }
        assert(new_files.take(new_files.len() as int) =~= new_files);
        let ghost middle = self@;
        let mut left: usize = dirs.len();
        assert(middle.pending + new_dirs.skip(left as int).reverse() =~= middle.pending);
        while left > 0
            invariant
                left <= dirs@.len(),
                dir_names == text::texts(dirs@),
                new_dirs == children(dir@, dir_names),
                self@ == (WalkView {
                    pending: middle.pending + new_dirs.skip(left as int).reverse(),
                    ..middle
                }),
            decreases left,
        {
            left = left - 1;
            let child = path::join(dir, dirs[left].as_str());
            proof {
                text::lemma_texts_push(self.pending@, child);
                assert(dir_names[left as int] == dirs@[left as int]@);
                assert(new_dirs[left as int] == child@);
                assert(new_dirs.skip(left as int).reverse() =~= new_dirs.skip(
                    left + 1,
                ).reverse().push(child@));
                assert((middle.pending + new_dirs.skip(left + 1).reverse()).push(child@)
                    =~= middle.pending + new_dirs.skip(left as int).reverse());
            }
            self.pending.push(child);
            assert(self@ =~= (WalkView {
                pending: middle.pending + new_dirs.skip(left as int).reverse(),
                ..middle
            }));
        }
        assert(new_dirs.skip(0) =~= new_dirs);
        assert(self@ =~= before.listing(dir@, entries@));
    }

    fn wanted_names(&self, dir: &str, entries: &Vec<WalkEntry>, kind: EntryKind) -> (names: Vec<
        String,
    >)
        ensures
            text::texts(names@) == wanted(entries@, kind, self@.ignored, self@.root, dir@),
    {
        let mut out: Vec<String> = Vec::new();
        let mut i: usize = 0;
        assert(entries@.take(0) =~= Seq::<WalkEntry>::empty());
        assert(text::texts(out@) =~= Seq::<Seq<char>>::empty());
        while i < entries.len()
            invariant
                i <= entries@.len(),
                text::texts(out@) == wanted(
                    entries@.take(i as int),
                    kind,
                    self@.ignored,
                    self@.root,
                    dir@,
                ),
            decreases entries@.len() - i,
        {
            assert(entries@.take(i + 1).drop_last() =~= entries@.take(i as int));
            assert(entries@.take(i + 1).last() == entries@[i as int]);
            let e = &entries[i];
            if e.kind == kind {
                let child = path::join(dir, e.name.as_str());
                let file = match kind {
                    EntryKind::File => true,
                    _ => false,
                };
                if !self.ignored.matches(self.root.as_str(), child.as_str()) && (!file
                    || path::is_markdown(child.as_str())) {
                    proof {
                        text::lemma_texts_push(out@, e.name);
                    }
                    out.push(e.name.clone());
                }
            }
            i = i + 1;
        }
        assert(entries@.take(entries@.len() as int) =~= entries@);
        out
    }

    /// Puts the files of the root that was walked in order.
    pub fn finish_root(&mut self)
        ensures
            final(self)@ == old(self)@.finished(),
    {
        let ghost before = self@;
        let n: usize = self.found.len();
        assert(before.found.len() == n);
        let keep: usize = if self.settled < n {
            self.settled
        } else {
            n
        };
        let mut kept: Vec<String> = Vec::new();
        let mut i: usize = 0;
        assert(text::texts(kept@) =~= before.found.take(0));
        while i < keep
            invariant
                i <= keep,
                keep <= self.found@.len(),
                before.found == text::texts(self.found@),
                text::texts(kept@) == before.found.take(i as int),
            decreases keep - i,
        {
            let item = self.found[i].clone();
            proof {
                text::lemma_texts_push(kept@, item);
                assert(before.found.take(i + 1) =~= before.found.take(i as int).push(item@));
            }
            kept.push(item);
            i = i + 1;
        }
        let ghost tail = before.found.skip(keep as int);
        let mut new: Vec<String> = Vec::new();
        assert(text::texts(new@) =~= tail.take(0));
        while i < n
            invariant
                keep <= i <= n,
                n == self.found@.len(),
                before.found == text::texts(self.found@),
                tail == before.found.skip(keep as int),
                text::texts(new@) == tail.take(i - keep),
            decreases n - i,
        {
            let item = self.found[i].clone();
            proof {
                text::lemma_texts_push(new@, item);
                assert(tail[i - keep] == item@);
                assert(tail.take(i - keep + 1) =~= tail.take(i - keep).push(item@));
            }
            new.push(item);
            i = i + 1;
        }
        assert(tail.take(tail.len() as int) =~= tail);
        let mut sorted = sort_paths(&new);
        let ghost front = text::texts(kept@);
        let ghost back = text::texts(sorted@);
        kept.append(&mut sorted);
        assert(text::texts(kept@) =~= front + back);
        assert(text::texts(kept@).len() == kept@.len());
        self.settled = kept.len();
        self.found = kept;
        assert(self@ =~= before.finished());
    }

    /// The files found.
    pub fn files(&self) -> (files: &Vec<String>)
        ensures
            text::texts(files@) == self@.found,
    {
        &self.found
    }
}

/// A directory is entered once, whatever it is called.
pub proof fn law_directories_are_entered_once(walk: WalkView, canonical: Seq<char>)
    ensures
        walk.entered.insert(canonical).contains(canonical),
        walk.entered.contains(canonical) ==> walk.entered.insert(canonical) == walk.entered,
{
    if walk.entered.contains(canonical) {
        assert(walk.entered.insert(canonical) =~= walk.entered);
    }
}

proof fn lemma_wanted(
    entries: Seq<WalkEntry>,
    kind: EntryKind,
    patterns: Seq<Seq<char>>,
    root: Seq<char>,
    dir: Seq<char>,
    i: int,
)
    requires
        0 <= i < wanted(entries, kind, patterns, root, dir).len(),
    ensures
        !is_ignored(
            patterns,
            root,
            path::joined(dir, wanted(entries, kind, patterns, root, dir)[i]),
        ),
        kind == EntryKind::File ==> path::names_markdown(
            path::joined(dir, wanted(entries, kind, patterns, root, dir)[i]),
        ),
    decreases entries.len(),
{
    let before = wanted(entries.drop_last(), kind, patterns, root, dir);
    if i < before.len() {
        lemma_wanted(entries.drop_last(), kind, patterns, root, dir, i);
    }
}

/// What a directory adds to the files found is markdown, and none of it is
/// ignored; nor is any directory that is read next.
pub proof fn law_ignored_paths_are_passed_over(walk: WalkView, dir: Seq<char>, entries: Seq<WalkEntry>)
    ensures
        forall|i: int|
            walk.found.len() <= i < walk.listing(dir, entries).found.len() ==> !is_ignored(
                walk.ignored,
                walk.root,
                #[trigger] walk.listing(dir, entries).found[i],
            ) && path::names_markdown(walk.listing(dir, entries).found[i]),
        forall|i: int|
            walk.pending.len() <= i < walk.listing(dir, entries).pending.len() ==> !is_ignored(
                walk.ignored,
                walk.root,
                #[trigger] walk.listing(dir, entries).pending[i],
            ),
{
    let next = walk.listing(dir, entries);
    let files = wanted(entries, EntryKind::File, walk.ignored, walk.root, dir);
    let dirs = wanted(entries, EntryKind::Directory, walk.ignored, walk.root, dir);
    text::law_in_order(files);
    text::law_in_order(dirs);
    assert forall|i: int| walk.found.len() <= i < next.found.len() implies !is_ignored(
        walk.ignored,
        walk.root,
        #[trigger] next.found[i],
    ) && path::names_markdown(next.found[i]) by {
        let names = text::in_order(files);
        lemma_with_paths(walk.found, children(dir, names));
        let k = children(dir, names).index_of(next.found[i]);
        lemma_same_members(names, files, k);
        let m = files.index_of(names[k]);
        lemma_wanted(entries, EntryKind::File, walk.ignored, walk.root, dir, m);
        assert(next.found[i] == path::joined(dir, names[k]));
    }
    assert forall|i: int| walk.pending.len() <= i < next.pending.len() implies !is_ignored(
        walk.ignored,
        walk.root,
        #[trigger] next.pending[i],
    ) by {
        let n = dirs.len() as int;
        let k = n - 1 - (i - walk.pending.len());
        let name = text::in_order(dirs)[k];
        lemma_same_members(text::in_order(dirs), dirs, k);
        let m = dirs.index_of(name);
        lemma_wanted(entries, EntryKind::Directory, walk.ignored, walk.root, dir, m);
        assert(next.pending[i] == path::joined(dir, name));
    }
}

/// What is added stands behind the others, and comes from what was to be added.
proof fn lemma_with_paths(list: Seq<Seq<char>>, more: Seq<Seq<char>>)
    ensures
        list.is_prefix_of(with_paths(list, more)),
        forall|i: int|
            list.len() <= i < with_paths(list, more).len() ==> more.contains(
                #[trigger] with_paths(list, more)[i],
            ),
        is_each_once(list) ==> is_each_once(with_paths(list, more)),
    decreases more.len(),
{
    if more.len() > 0 {
        let front = more.drop_last();
        lemma_with_paths(list, front);
        let before = with_paths(list, front);
        let after = with_paths(list, more);
        assert forall|i: int| list.len() <= i < after.len() implies more.contains(
            #[trigger] after[i],
        ) by {
            if i < before.len() {
                assert(front.contains(before[i]));
                let k = front.index_of(before[i]);
                assert(more[k] == after[i]);
            } else {
                assert(more[more.len() - 1] == after[i]);
            }
        }
        lemma_push_once(before, more.last());
    }
}

/// Whether no path stands in a list twice, however it is written.
pub open spec fn is_each_once(list: Seq<Seq<char>>) -> bool {
    forall|i: int, j: int|
        0 <= i < j < list.len() ==> path::components_of(#[trigger] list[i])
            != path::components_of(#[trigger] list[j])
}

proof fn lemma_push_once(list: Seq<Seq<char>>, p: Seq<char>)
    ensures
        is_each_once(list) ==> is_each_once(with_path(list, p)),
{
    let out = with_path(list, p);
    if is_each_once(list) && !is_among(list, p) {
        assert forall|i: int, j: int| 0 <= i < j < out.len() implies path::components_of(
            #[trigger] out[i],
        ) != path::components_of(#[trigger] out[j]) by {
            assert(out[i] == list[i]);
            if j < list.len() {
                assert(out[j] == list[j]);
            }
        }
    }
}

/// A file is found once, under however many roots it lies and however often it
/// is named as a root: starting a root, reading a directory and finishing a
/// root keep it so.
pub proof fn law_each_file_is_found_once(
    walk: WalkView,
    root: Seq<char>,
    kind: EntryKind,
    dir: Seq<char>,
    entries: Seq<WalkEntry>,
)
    requires
        is_each_once(walk.found),
    ensures
        is_each_once(walk.at_root(root, kind).found),
        is_each_once(walk.listing(dir, entries).found),
        is_each_once(walk.finished().found),
{
    lemma_push_once(walk.found, root);
    let files = text::in_order(wanted(entries, EntryKind::File, walk.ignored, walk.root, dir));
    lemma_with_paths(walk.found, children(dir, files));
    let front = walk.found.take(walk.earlier());
    let back = walk.found.skip(walk.earlier());
    law_paths_in_order(back);
    let sorted = in_path_order(back);
    assert forall|i: int, j: int| 0 <= i < j < back.len() implies path::components_of(
        #[trigger] back[i],
    ) != path::components_of(#[trigger] back[j]) by {
        assert(back[i] == walk.found[i + walk.earlier()]);
        assert(back[j] == walk.found[j + walk.earlier()]);
    }
    lemma_sorted_once(back);
    let out = front + sorted;
    assert forall|i: int, j: int| 0 <= i < j < out.len() implies path::components_of(
        #[trigger] out[i],
    ) != path::components_of(#[trigger] out[j]) by {
        let n = front.len() as int;
        if j < n {
            assert(out[i] == walk.found[i] && out[j] == walk.found[j]);
        } else if i >= n {
            assert(out[i] == sorted[i - n] && out[j] == sorted[j - n]);
        } else {
            lemma_same_members(sorted, back, j - n);
            let k = back.index_of(sorted[j - n]);
            assert(out[i] == walk.found[i]);
            assert(out[j] == walk.found[k + n]);
        }
    }
}

proof fn lemma_sorted_once(list: Seq<Seq<char>>)
    requires
        is_each_once(list),
    ensures
        is_each_once(in_path_order(list)),
    decreases list.len(),
{
    if list.len() > 0 {
        let front = list.drop_last();
        lemma_sorted_once(front);
        law_paths_in_order(front);
        let before = in_path_order(front);
        let p = list.last();
        assert(!is_among(before, p)) by {
            if is_among(before, p) {
                let i = choose|i: int|
                    0 <= i < before.len() && path::components_of(#[trigger] before[i])
                        == path::components_of(p);
                lemma_same_members(before, front, i);
                let k = front.index_of(before[i]);
                assert(list[k] == before[i]);
                assert(list[list.len() - 1] == p);
            }
        }
        lemma_put_once(before, p);
    }
}

proof fn lemma_put_once(list: Seq<Seq<char>>, p: Seq<char>)
    requires
        is_each_once(list),
        !is_among(list, p),
    ensures
        is_each_once(put_path(list, p)),
        put_path(list, p).len() == list.len() + 1,
        forall|i: int|
            0 <= i < put_path(list, p).len() ==> (#[trigger] put_path(list, p)[i]) == p
                || list.contains(put_path(list, p)[i]),
    decreases list.len(),
{
    let out = put_path(list, p);
    if list.len() > 0 && path_less(p, list.last()) {
        let front = list.drop_last();
        assert(!is_among(front, p)) by {
            if is_among(front, p) {
                let i = choose|i: int|
                    0 <= i < front.len() && path::components_of(#[trigger] front[i])
                        == path::components_of(p);
                assert(list[i] == front[i]);
            }
        }
        assert forall|i: int, j: int| 0 <= i < j < front.len() implies path::components_of(
            #[trigger] front[i],
        ) != path::components_of(#[trigger] front[j]) by {
            assert(list[i] == front[i] && list[j] == front[j]);
        }
        lemma_put_once(front, p);
        let shorter = put_path(front, p);
        assert forall|i: int| 0 <= i < out.len() implies (#[trigger] out[i]) == p || list.contains(
            out[i],
        ) by {
            if i < shorter.len() {
                assert(out[i] == shorter[i]);
                if shorter[i] != p {
                    let k = front.index_of(shorter[i]);
                    assert(list[k] == out[i]);
                }
            } else {
                assert(out[i] == list[list.len() - 1]);
            }
        }
        assert forall|i: int, j: int| 0 <= i < j < out.len() implies path::components_of(
            #[trigger] out[i],
        ) != path::components_of(#[trigger] out[j]) by {
            assert(out[i] == shorter[i]);
            if j < shorter.len() {
                assert(out[j] == shorter[j]);
            } else {
                assert(out[j] == list[list.len() - 1]);
                if shorter[i] == p {
                } else {
                    let k = front.index_of(shorter[i]);
                    assert(list[k] == out[i]);
                }
            }
        }
    } else {
        lemma_push_once(list, p);
        assert forall|i: int| 0 <= i < out.len() implies (#[trigger] out[i]) == p || list.contains(
            out[i],
        ) by {
            if i < list.len() {
                assert(list[i] == out[i]);
            }
        }
    }
}

/// Whether no path comes before one that stands in front of it.
pub open spec fn paths_ordered(list: Seq<Seq<char>>) -> bool {
    forall|i: int, j: int|
        0 <= i < j < list.len() ==> !path_less(#[trigger] list[j], #[trigger] list[i])
}

proof fn lemma_component_order(a: Seq<char>, b: Seq<char>, c: Seq<char>)
    ensures
        component_less(a, b) || component_less(b, a) || a == b,
        !(component_less(a, b) && component_less(b, a)),
        !component_less(a, a),
        component_less(a, b) && component_less(b, c) ==> component_less(a, c),
{
    text::lemma_text_less_total(a, b);
    text::lemma_text_less_total(a, a);
    if text::text_less(a, b) && text::text_less(b, c) {
        text::lemma_text_less_transitive(a, b, c);
    }
}

proof fn lemma_components_total(a: Seq<Seq<char>>, b: Seq<Seq<char>>)
    ensures
        components_less(a, b) || components_less(b, a) || a == b,
        !(components_less(a, b) && components_less(b, a)),
    decreases a.len(),
{
    if a.len() > 0 && b.len() > 0 {
        lemma_component_order(a[0], b[0], b[0]);
        if a[0] == b[0] {
            lemma_components_total(a.skip(1), b.skip(1));
            if a.skip(1) == b.skip(1) {
                assert(a =~= seq![a[0]] + a.skip(1));
                assert(b =~= seq![b[0]] + b.skip(1));
            }
        }
    } else if a.len() == 0 && b.len() == 0 {
        assert(a =~= b);
    }
}

proof fn lemma_components_transitive(a: Seq<Seq<char>>, b: Seq<Seq<char>>, c: Seq<Seq<char>>)
    requires
        components_less(a, b),
        components_less(b, c),
    ensures
        components_less(a, c),
    decreases a.len(),
{
    if a.len() > 0 {
        lemma_component_order(a[0], b[0], c[0]);
        lemma_component_order(c[0], b[0], a[0]);
        if a[0] == b[0] && b[0] == c[0] {
            lemma_components_transitive(a.skip(1), b.skip(1), c.skip(1));
        } else if a[0] == c[0] {
            lemma_component_order(a[0], b[0], a[0]);
        }
    }
}

proof fn lemma_put_path(list: Seq<Seq<char>>, p: Seq<char>)
    requires
        paths_ordered(list),
    ensures
        paths_ordered(put_path(list, p)),
        put_path(list, p).to_multiset() == list.to_multiset().insert(p),
        put_path(list, p).len() == list.len() + 1,
        forall|i: int|
            0 <= i < list.len() + 1 ==> (#[trigger] put_path(list, p)[i]) == p || list.contains(
                put_path(list, p)[i],
            ),
    decreases list.len(),
{
    broadcast use vstd::seq_lib::group_to_multiset_ensures;

    let out = put_path(list, p);
    if list.len() == 0 {
        assert(out =~= Seq::<Seq<char>>::empty().push(p));
        assert(list =~= Seq::<Seq<char>>::empty());
    } else if path_less(p, list.last()) {
        let front = list.drop_last();
        let shorter = put_path(front, p);
        lemma_put_path(front, p);
        assert(list =~= front.push(list.last()));
        assert(out.to_multiset() =~= list.to_multiset().insert(p));
        assert forall|i: int| 0 <= i < list.len() + 1 implies (#[trigger] out[i]) == p
            || list.contains(out[i]) by {
            if i < list.len() {
                assert(out[i] == shorter[i]);
                if shorter[i] != p {
                    let k = front.index_of(shorter[i]);
                    assert(list[k] == out[i]);
                }
            } else {
                assert(out[i] == list[list.len() - 1]);
            }
        }
        assert forall|i: int, j: int| 0 <= i < j < out.len() implies !path_less(
            #[trigger] out[j],
            #[trigger] out[i],
        ) by {
            if j < list.len() {
                assert(out[i] == shorter[i] && out[j] == shorter[j]);
            } else {
                assert(out[j] == list.last());
                assert(out[i] == shorter[i]);
                if shorter[i] == p {
                    lemma_components_total(
                        path::components_of(p),
                        path::components_of(list.last()),
                    );
                } else {
                    let k = front.index_of(shorter[i]);
                    assert(list[k] == out[i]);
                    assert(!path_less(list[list.len() - 1], list[k]));
                }
            }
        }
    } else {
        assert forall|i: int| 0 <= i < list.len() + 1 implies (#[trigger] out[i]) == p
            || list.contains(out[i]) by {
            if i < list.len() {
                assert(list[i] == out[i]);
            }
        }
        assert forall|i: int, j: int| 0 <= i < j < out.len() implies !path_less(
            #[trigger] out[j],
            #[trigger] out[i],
        ) by {
            assert(out[i] == list[i]);
            if j < list.len() {
                assert(out[j] == list[j]);
            } else if i < list.len() - 1 {
                let last = path::components_of(list.last());
                let other = path::components_of(list[i]);
                assert(!path_less(list[list.len() - 1], list[i]));
                if path_less(p, list[i]) {
                    lemma_components_total(other, last);
                    if other != last {
                        lemma_components_transitive(path::components_of(p), other, last);
                    }
                }
            }
        }
    }
}

/// Paths that are put in order are in order, and are the same paths.
pub proof fn law_paths_in_order(list: Seq<Seq<char>>)
    ensures
        paths_ordered(in_path_order(list)),
        in_path_order(list).to_multiset() == list.to_multiset(),
        in_path_order(list).len() == list.len(),
    decreases list.len(),
{
    broadcast use vstd::seq_lib::group_to_multiset_ensures;

    if list.len() > 0 {
        law_paths_in_order(list.drop_last());
        lemma_put_path(in_path_order(list.drop_last()), list.last());
        assert(list =~= list.drop_last().push(list.last()));
    }
}

proof fn lemma_same_members(a: Seq<Seq<char>>, b: Seq<Seq<char>>, k: int)
    requires
        a.to_multiset() == b.to_multiset(),
        0 <= k < a.len(),
    ensures
        b.contains(a[k]),
{
    broadcast use vstd::seq_lib::group_to_multiset_ensures;

    assert(a.contains(a[k]));
    assert(a.to_multiset().count(a[k]) > 0);
    assert(b.to_multiset().count(a[k]) > 0);
}

/// The names of a listing that count: those of entries of the kind that are not
/// ignored, and of files those of markdown files, in order.
pub proof fn law_wanted_entries(
    entries: Seq<WalkEntry>,
    patterns: Seq<Seq<char>>,
    root: Seq<char>,
    dir: Seq<char>,
)
    ensures
        wanted(entries, EntryKind::File, patterns, root, dir) == entries.filter(
            |e: WalkEntry|
                e.kind == EntryKind::File && !is_ignored(patterns, root, path::joined(dir, e.name@))
                    && path::names_markdown(path::joined(dir, e.name@)),
        ).map_values(|e: WalkEntry| e.name@),
        wanted(entries, EntryKind::Directory, patterns, root, dir) == entries.filter(
            |e: WalkEntry|
                e.kind == EntryKind::Directory && !is_ignored(
                    patterns,
                    root,
                    path::joined(dir, e.name@),
                ),
        ).map_values(|e: WalkEntry| e.name@),
    decreases entries.len(),
{
    reveal(Seq::filter);
    let files = |e: WalkEntry|
        e.kind == EntryKind::File && !is_ignored(patterns, root, path::joined(dir, e.name@))
            && path::names_markdown(path::joined(dir, e.name@));
    let dirs = |e: WalkEntry|
        e.kind == EntryKind::Directory && !is_ignored(patterns, root, path::joined(dir, e.name@));
    let name = |e: WalkEntry| e.name@;
    if entries.len() > 0 {
        let front = entries.drop_last();
        let last = entries.last();
        law_wanted_entries(front, patterns, root, dir);
        assert(front.filter(files).push(last).map_values(name) =~= front.filter(files).map_values(
            name,
        ).push(last.name@));
        assert(front.filter(dirs).push(last).map_values(name) =~= front.filter(dirs).map_values(
            name,
        ).push(last.name@));
    } else {
        assert(wanted(entries, EntryKind::File, patterns, root, dir) =~= entries.filter(
            files,
        ).map_values(name));
        assert(wanted(entries, EntryKind::Directory, patterns, root, dir) =~= entries.filter(
            dirs,
        ).map_values(name));
    }
}

proof fn lemma_wanted_is_there(
    entries: Seq<WalkEntry>,
    kind: EntryKind,
    patterns: Seq<Seq<char>>,
    root: Seq<char>,
    dir: Seq<char>,
    i: int,
)
    requires
        0 <= i < entries.len(),
        entries[i].kind == kind,
        !is_ignored(patterns, root, path::joined(dir, entries[i].name@)),
        kind == EntryKind::File ==> path::names_markdown(path::joined(dir, entries[i].name@)),
    ensures
        wanted(entries, kind, patterns, root, dir).contains(entries[i].name@),
    decreases entries.len(),
{
    let front = entries.drop_last();
    let before = wanted(front, kind, patterns, root, dir);
    let after = wanted(entries, kind, patterns, root, dir);
    let name = entries[i].name@;
    if i < front.len() {
        lemma_wanted_is_there(front, kind, patterns, root, dir, i);
        let k = before.index_of(name);
        assert(after[k] == name);
    } else {
        assert(after[after.len() - 1] == name);
    }
}

proof fn lemma_all_are_among(list: Seq<Seq<char>>, more: Seq<Seq<char>>, i: int)
    requires
        0 <= i < more.len(),
    ensures
        is_among(with_paths(list, more), more[i]),
    decreases more.len(),
{
    let front = more.drop_last();
    let before = with_paths(list, front);
    let after = with_paths(list, more);
    if i < front.len() {
        lemma_all_are_among(list, front, i);
        let k = choose|k: int|
            0 <= k < before.len() && path::components_of(#[trigger] before[k])
                == path::components_of(front[i]);
        assert(after[k] == before[k]);
    } else if !is_among(before, more.last()) {
        assert(after[after.len() - 1] == more[i]);
    }
}

proof fn lemma_ordered_is_there(s: Seq<Seq<char>>, x: Seq<char>)
    requires
        s.contains(x),
    ensures
        text::in_order(s).contains(x),
{
    broadcast use vstd::seq_lib::group_to_multiset_ensures;

    text::law_in_order(s);
    assert(s.to_multiset().contains(x));
    assert(text::in_order(s).to_multiset().contains(x));
}

/// Every markdown file of a directory that is not ignored is found, and every
/// directory in it that is not ignored is read later.
pub proof fn law_nothing_is_missed(walk: WalkView, dir: Seq<char>, entries: Seq<WalkEntry>, i: int)
    requires
        0 <= i < entries.len(),
        !is_ignored(walk.ignored, walk.root, path::joined(dir, entries[i].name@)),
    ensures
        ({
            let p = path::joined(dir, entries[i].name@);
            let after = walk.listing(dir, entries);
            &&& entries[i].kind == EntryKind::File && path::names_markdown(p) ==> is_among(
                after.found,
                p,
            )
            &&& entries[i].kind == EntryKind::Directory ==> after.pending.contains(p)
        }),
{
    let name = entries[i].name@;
    let p = path::joined(dir, name);
    let after = walk.listing(dir, entries);
    if entries[i].kind == EntryKind::File && path::names_markdown(p) {
        lemma_wanted_is_there(entries, EntryKind::File, walk.ignored, walk.root, dir, i);
        let names = wanted(entries, EntryKind::File, walk.ignored, walk.root, dir);
        lemma_ordered_is_there(names, name);
        let files = children(dir, text::in_order(names));
        let k = text::in_order(names).index_of(name);
        assert(files[k] == p);
        lemma_all_are_among(walk.found, files, k);
    }
    if entries[i].kind == EntryKind::Directory {
        lemma_wanted_is_there(entries, EntryKind::Directory, walk.ignored, walk.root, dir, i);
        let names = wanted(entries, EntryKind::Directory, walk.ignored, walk.root, dir);
        lemma_ordered_is_there(names, name);
        let dirs = children(dir, text::in_order(names));
        let k = text::in_order(names).index_of(name);
        assert(dirs[k] == p);
        let at = walk.pending.len() + dirs.len() - 1 - k;
        assert(after.pending[at] == p);
    }
}

/// Slashes at the end of a pattern do not count, and a pattern of nothing else is
/// none.
pub proof fn law_slashes_behind_a_pattern(s: Seq<char>, n: nat)
    requires
        s.len() > 0 ==> s.last() != '/',
    ensures
        without_slashes(s + Seq::new(n, |i: int| '/')) == s,
    decreases n,
{
    let slashes = Seq::new(n, |i: int| '/');
    if n > 0 {
        law_slashes_behind_a_pattern(s, (n - 1) as nat);
        assert((s + slashes).drop_last() =~= s + Seq::new((n - 1) as nat, |i: int| '/'));
    } else {
        assert(s + slashes =~= s);
    }
}

} // verus!
