//! Paths as text, with `/` between their components.

use vstd::prelude::*;
use crate::text;

verus! {

broadcast use vstd::string::group_string_axioms;

/// Whether a piece between slashes names something: it is not empty, `.`
/// or `..`.
pub open spec fn is_normal(piece: Seq<char>) -> bool {
    piece.len() > 0 && piece != seq!['.'] && piece != seq!['.', '.']
}

/// [`is_normal`] as a predicate.
pub open spec fn normal() -> spec_fn(Seq<char>) -> bool {
    |piece: Seq<char>| is_normal(piece)
}

/// The components of a path that name files and directories, in order.
pub open spec fn names_of(path: Seq<char>) -> Seq<Seq<char>> {
    text::split_of(path, '/').filter(normal())
}

/// Whether a piece between slashes names something.
pub fn normal_piece(piece: &str) -> (yes: bool)
    ensures
        yes == is_normal(piece@),
{
    proof {
        reveal_strlit(".");
        reveal_strlit("..");
        assert("."@ =~= seq!['.']);
        assert(".."@ =~= seq!['.', '.']);
    }
    !piece.is_empty() && !text::same_text(piece, ".") && !text::same_text(piece, "..")
}

/// The components of a path that name files and directories, in order.
pub fn named_components(path: &str) -> (names: Vec<String>)
    ensures
        text::texts(names@) == names_of(path@),
{
    let pieces = text::split_text(path, '/');
    let ghost all = text::texts(pieces@);
    let mut out: Vec<String> = Vec::new();
    let mut i: usize = 0;
    assert(all.take(0).filter(normal()) =~= Seq::<Seq<char>>::empty()) by {
        reveal(Seq::filter);
    }
    assert(text::texts(out@) =~= Seq::<Seq<char>>::empty());
    while i < pieces.len()
        invariant
            i <= pieces@.len(),
            all == text::texts(pieces@),
            text::texts(out@) == all.take(i as int).filter(normal()),
        decreases pieces@.len() - i,
    {
        let piece = &pieces[i];
        proof {
            assert(all.take(i + 1) =~= all.take(i as int).push(piece@));
            all.take(i as int).lemma_filter_push(piece@, normal());
            text::lemma_texts_push(out@, *piece);
        }
        if normal_piece(piece.as_str()) {
            out.push(piece.clone());
        }
        i = i + 1;
    }
    assert(all.take(all.len() as int) =~= all);
    out
}

/// Whether a piece between slashes counts when paths are compared: it is not
/// empty and not `.`.
pub open spec fn is_part(piece: Seq<char>) -> bool {
    piece.len() > 0 && piece != seq!['.']
}

/// [`is_part`] as a predicate.
pub open spec fn part() -> spec_fn(Seq<char>) -> bool {
    |piece: Seq<char>| is_part(piece)
}

/// What a path starts with: the root, the current directory where it is
/// written out, or nothing.
pub open spec fn start_of(path: Seq<char>) -> Seq<Seq<char>> {
    if path.len() > 0 && path[0] == '/' {
        seq![seq!['/']]
    } else if text::split_of(path, '/')[0] == seq!['.'] {
        seq![seq!['.']]
    } else {
        Seq::empty()
    }
}

/// The components of a path: its start, then each piece that counts. Repeated
/// slashes, slashes at the end and inner `.` make no difference.
pub open spec fn components_of(path: Seq<char>) -> Seq<Seq<char>> {
    start_of(path) + text::split_of(path, '/').filter(part())
}

/// The components of a path.
pub fn components(path: &str) -> (parts: Vec<String>)
    ensures
        text::texts(parts@) == components_of(path@),
{
    let chars = text::chars_of(path);
    let pieces = text::split_text(path, '/');
    let ghost all = text::texts(pieces@);
    proof {
        text::lemma_split_nonempty(path@, '/');
        reveal_strlit(".");
        assert("."@ =~= seq!['.']);
        reveal_strlit("/");
        assert("/"@ =~= seq!['/']);
    }
    let mut out: Vec<String> = Vec::new();
    assert(all[0] == pieces@[0]@);
    if chars.len() > 0 && chars[0] == '/' {
        out.push("/".to_owned());
    } else if text::same_text(pieces[0].as_str(), ".") {
        out.push(".".to_owned());
    }
    let ghost start = start_of(path@);
    assert(text::texts(out@) =~= start);
    let mut i: usize = 0;
    assert(all.take(0).filter(part()) =~= Seq::<Seq<char>>::empty()) by {
        reveal(Seq::filter);
    }
    assert(text::texts(out@) =~= start + all.take(0).filter(part()));
    while i < pieces.len()
        invariant
            i <= pieces@.len(),
            all == text::texts(pieces@),
            "."@ == seq!['.'],
            text::texts(out@) == start + all.take(i as int).filter(part()),
        decreases pieces@.len() - i,
    {
        let piece = &pieces[i];
        proof {
            assert(all.take(i + 1) =~= all.take(i as int).push(piece@));
            all.take(i as int).lemma_filter_push(piece@, part());
            text::lemma_texts_push(out@, *piece);
        }
        if !piece.as_str().is_empty() && !text::same_text(piece.as_str(), ".") {
            out.push(piece.clone());
            assert((start + all.take(i as int).filter(part())).push(piece@) =~= start + all.take(
                i as int,
            ).filter(part()).push(piece@));
        }
        i = i + 1;
    }
    assert(all.take(all.len() as int) =~= all);
    out
}

/// Whether two paths have the same components.
pub fn same_path(a: &str, b: &str) -> (yes: bool)
    ensures
        yes == (components_of(a@) == components_of(b@)),
{
    let x = components(a);
    let y = components(b);
    text::same_texts(&x, &y)
}

/// Whether a path starts at the root.
pub open spec fn is_absolute(path: Seq<char>) -> bool {
    path.len() > 0 && path[0] == '/'
}

/// `tail` below `base`; `tail` itself where it starts at the root.
pub open spec fn joined(base: Seq<char>, tail: Seq<char>) -> Seq<char> {
    if is_absolute(tail) || base.len() == 0 {
        tail
    } else if base.last() == '/' {
        base + tail
    } else {
        base.push('/') + tail
    }
}

/// `tail` below `base`; `tail` itself where it starts at the root.
pub fn join(base: &str, tail: &str) -> (out: String)
    ensures
        out@ == joined(base@, tail@),
{
    let b = text::chars_of(base);
    let t = text::chars_of(tail);
    if b.len() == 0 || (t.len() > 0 && t[0] == '/') {
        return tail.to_owned();
    }
    let mut out = base.to_owned();
    if b[b.len() - 1] != '/' {
        out.push('/');
    }
    out.append(tail);
    out
}

/// The name that a path ends with; none where it ends with the root, `.` or
/// `..`.
pub open spec fn file_name_of(path: Seq<char>) -> Option<Seq<char>> {
    let parts = components_of(path);
    if parts.len() > 0 && is_normal(parts.last()) && parts.last() != seq!['/'] {
        Some(parts.last())
    } else {
        None
    }
}

/// The name that a path ends with.
pub fn file_name(path: &str) -> (name: Option<String>)
    ensures
        text::optional_text(name) == file_name_of(path@),
{
    let parts = components(path);
    let ghost all = text::texts(parts@);
    let n: usize = parts.len();
    assert(all.len() == n);
    if n == 0 {
        return None;
    }
    assert(all.last() == parts@[n - 1]@);
    proof {
        reveal_strlit("/");
        assert("/"@ =~= seq!['/']);
    }
    if normal_piece(parts[n - 1].as_str()) && !text::same_text(parts[n - 1].as_str(), "/") {
        Some(parts[n - 1].clone())
    } else {
        None
    }
}

/// The place of the last dot of a name, the first character aside; none where
/// there is no such dot.
pub open spec fn last_dot(name: Seq<char>) -> Option<int>
    decreases name.len(),
{
    if name.len() <= 1 {
        None
    } else if name.last() == '.' {
        Some(name.len() - 1)
    } else {
        last_dot(name.drop_last())
    }
}

/// What stands behind the last dot of the name that a path ends with. A dot at
/// the start of the name does not count.
pub open spec fn extension_of(path: Seq<char>) -> Option<Seq<char>> {
    match file_name_of(path) {
        Some(name) => match last_dot(name) {
            Some(at) => Some(name.skip(at + 1)),
            None => None,
        },
        None => None,
    }
}

/// What stands behind the last dot of the name that a path ends with.
pub fn extension(path: &str) -> (ext: Option<String>)
    ensures
        text::optional_text(ext) == extension_of(path@),
{
    let name = match file_name(path) {
        Some(name) => name,
        None => {
            return None;
        },
    };
    let chars = text::chars_of(name.as_str());
    let n: usize = chars.len();
    let mut i: usize = n;
    assert(chars@.take(n as int) =~= chars@);
    while i > 1
        invariant
            i <= n,
            n == chars@.len(),
            chars@ == name@,
            file_name_of(path@) == Some(name@),
            last_dot(chars@) == last_dot(chars@.take(i as int)),
        decreases i,
    {
        assert(chars@.take(i as int).last() == chars@[i - 1]);
        assert(chars@.take(i as int).drop_last() =~= chars@.take(i - 1));
        if chars[i - 1] == '.' {
            let out = text::string_from(&chars, i, n);
            assert(out@ =~= name@.skip(i as int));
            return Some(out);
        }
        i = i - 1;
    }
    None
}

/// Whether a path names a markdown file.
pub open spec fn names_markdown(path: Seq<char>) -> bool {
    extension_of(path) == Some("md"@) || extension_of(path) == Some("markdown"@)
}

/// Whether a path names a markdown file.
pub fn is_markdown(path: &str) -> (yes: bool)
    ensures
        yes == names_markdown(path@),
{
    match extension(path) {
        Some(ext) => text::same_text(ext.as_str(), "md") || text::same_text(
            ext.as_str(),
            "markdown",
        ),
        None => false,
    }
}

/// A path up to the end of its last component: without slashes and `.` behind
/// it.
pub open spec fn body_of(path: Seq<char>) -> Seq<char>
    decreases path.len(),
{
    if path.len() > 0 && path.last() == '/' {
        body_of(path.drop_last())
    } else if path.len() > 1 && path.last() == '.' && path[path.len() - 2] == '/' {
        body_of(path.take(path.len() - 2))
    } else {
        path
    }
}

/// A path with the ending of markdown files where its name has no ending.
pub open spec fn with_markdown_ending(path: Seq<char>) -> Seq<char> {
    if file_name_of(path) is Some && extension_of(path) is None {
        body_of(path) + ".md"@
    } else {
        path
    }
}

/// A path with the ending of markdown files where its name has no ending.
pub fn add_markdown_ending(path: &str) -> (out: String)
    ensures
        out@ == with_markdown_ending(path@),
{
    if file_name(path).is_none() || extension(path).is_some() {
        return path.to_owned();
    }
    let chars = text::chars_of(path);
    let mut n: usize = chars.len();
    assert(chars@.take(n as int) =~= chars@);
    loop
        invariant
            n <= chars@.len(),
            chars@ == path@,
            file_name_of(path@) is Some && extension_of(path@) is None,
            body_of(path@) == body_of(chars@.take(n as int)),
        decreases n,
    {
        let ghost part = chars@.take(n as int);
        if n > 0 && chars[n - 1] == '/' {
            assert(part.drop_last() =~= chars@.take(n - 1));
            n = n - 1;
        } else if n > 1 && chars[n - 1] == '.' && chars[n - 2] == '/' {
            assert(part.take(n - 2) =~= chars@.take(n - 2));
            n = n - 2;
        } else {
            let mut out = text::string_from(&chars, 0, n);
            assert(out@ =~= part);
            out.append(".md");
            return out;
        }
    }
}

/// Whether a path lies at or below another one.
pub open spec fn lies_under(path: Seq<char>, base: Seq<char>) -> bool {
    components_of(base).is_prefix_of(components_of(path))
}

/// Whether a path lies at or below another one.
pub fn is_under(path: &str, base: &str) -> (yes: bool)
    ensures
        yes == lies_under(path@, base@),
{
    let whole = components(path);
    let front = components(base);
    let ghost w = text::texts(whole@);
    let ghost f = text::texts(front@);
    let n: usize = front.len();
    assert(f.len() == n && w.len() == whole@.len());
    if n > whole.len() {
        return false;
    }
    let mut i: usize = 0;
    while i < n
        invariant
            i <= n,
            n == front@.len(),
            n <= whole@.len(),
            w == text::texts(whole@),
            f == text::texts(front@),
            w == components_of(path@),
            f == components_of(base@),
            forall|k: int| 0 <= k < i ==> w[k] == f[k],
        decreases n - i,
    {
        assert(w[i as int] == whole@[i as int]@);
        assert(f[i as int] == front@[i as int]@);
        if !text::same_text(whole[i].as_str(), front[i].as_str()) {
            assert(w.take(n as int)[i as int] != f[i as int]);
            return false;
        }
        i = i + 1;
    }
    assert(f =~= w.take(n as int));
    true
}

/// A path is put below another with one slash between them. A path that starts at
/// the root stays as it is.
pub proof fn law_joining(base: Seq<char>, tail: Seq<char>)
    requires
        base.len() > 0,
        base.last() != '/',
    ensures
        is_absolute(tail) ==> joined(base, tail) == tail,
        !is_absolute(tail) ==> joined(base, tail) == base + seq!['/'] + tail,
        !is_absolute(tail) ==> joined(base.push('/'), tail) == base + seq!['/'] + tail,
        joined(Seq::empty(), tail) == tail,
{
    assert(base.push('/') + tail =~= base + seq!['/'] + tail);
}

proof fn lemma_last_dot(name: Seq<char>, at: int)
    requires
        0 < at < name.len(),
        name[at] == '.',
        forall|i: int| at < i < name.len() ==> name[i] != '.',
    ensures
        last_dot(name) == Some(at),
    decreases name.len(),
{
    if at < name.len() - 1 {
        lemma_last_dot(name.drop_last(), at);
    }
}

proof fn lemma_no_dot(name: Seq<char>)
    requires
        forall|i: int| 0 < i < name.len() ==> name[i] != '.',
    ensures
        last_dot(name) is None,
    decreases name.len(),
{
    if name.len() > 1 {
        lemma_no_dot(name.drop_last());
    }
}

/// The ending of a path is what stands behind the last dot of its last name, and then
/// the path needs no other.
pub proof fn law_endings(path: Seq<char>, stem: Seq<char>, ending: Seq<char>)
    requires
        stem.len() > 0,
        !ending.contains('.'),
        file_name_of(path) == Some(stem + seq!['.'] + ending),
    ensures
        extension_of(path) == Some(ending),
        with_markdown_ending(path) == path,
        names_markdown(path) <==> ending == "md"@ || ending == "markdown"@,
{
    let name = stem + seq!['.'] + ending;
    assert forall|i: int| stem.len() < i < name.len() implies name[i] != '.' by {
        let k = i - stem.len() - 1;
        assert(ending[k] == name[i]);
        assert(ending.contains(ending[k]));
    }
    lemma_last_dot(name, stem.len() as int);
    assert(name.skip(stem.len() as int + 1) =~= ending);
}

/// A name without a dot behind its first character has no ending, and gets that of
/// markdown files.
pub proof fn law_names_without_ending(path: Seq<char>, name: Seq<char>)
    requires
        file_name_of(path) == Some(name),
        forall|i: int| 0 < i < name.len() ==> name[i] != '.',
    ensures
        extension_of(path) is None,
        !names_markdown(path),
        with_markdown_ending(path) == body_of(path) + ".md"@,
{
    lemma_no_dot(name);
}

} // verus!
