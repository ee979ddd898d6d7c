//! Which file is edited, and what can be completed.

use vstd::prelude::*;
use crate::config::Paths;
use crate::edit::aliases;
use crate::execute::suggestions::DirectoryEntry;
use crate::path;
use crate::text;
use crate::text_map;

verus! {

broadcast use vstd::string::group_string_axioms;

/// The file that is edited where none is named.
pub const DEFAULT_EDIT_PATH: &'static str = "snippets.md";

/// A snippet root and its short name.
#[derive(Debug, PartialEq, Eq)]
pub struct EditRootAlias {
    pub alias: String,
    pub root: String,
}

/// The short names of a list of roots.
pub open spec fn alias_texts(list: Seq<EditRootAlias>) -> Seq<Seq<char>> {
    list.map_values(|e: EditRootAlias| e.alias@)
}

/// The roots of a list.
pub open spec fn root_texts(list: Seq<EditRootAlias>) -> Seq<Seq<char>> {
    list.map_values(|e: EditRootAlias| e.root@)
}

/// The snippet roots with their short names.
pub fn edit_root_aliases(paths: &Paths) -> (list: Vec<EditRootAlias>)
    ensures
        root_texts(list@) == paths@.snippet_roots,
        alias_texts(list@) == aliases::aliases_of(paths@.snippet_roots),
        alias_texts(list@).no_duplicates(),
{
    let names = aliases::root_aliases(&paths.snippet_roots);
    let ghost roots = paths@.snippet_roots;
    let ghost goal = aliases::aliases_of(roots);
    let mut list: Vec<EditRootAlias> = Vec::new();
    let mut i: usize = 0;
    assert(root_texts(list@) =~= roots.take(0));
    assert(alias_texts(list@) =~= goal.take(0));
    assert(goal.len() == names@.len());
    while i < names.len()
        invariant
            i <= names@.len(),
            names@.len() == paths.snippet_roots@.len(),
            roots == paths@.snippet_roots,
            goal == text::texts(names@),
            root_texts(list@) == roots.take(i as int),
            alias_texts(list@) == goal.take(i as int),
        decreases names@.len() - i,
    {
        let entry = EditRootAlias {
            alias: names[i].clone(),
            root: paths.snippet_roots[i].clone(),
        };
        let ghost before = list@;
        let ghost root = entry.root@;
        let ghost alias = entry.alias@;
        list.push(entry);
        assert(root_texts(list@) =~= root_texts(before).push(root));
        assert(alias_texts(list@) =~= alias_texts(before).push(alias));
        assert(roots.take(i + 1) =~= roots.take(i as int).push(roots[i as int]));
        assert(goal.take(i + 1) =~= goal.take(i as int).push(goal[i as int]));
        i = i + 1;
    }
    assert(roots.take(roots.len() as int) =~= roots);
    assert(goal.take(goal.len() as int) =~= goal);
    proof {
        let lists = aliases::component_lists(roots);
        aliases::law_aliases_are_distinct(
            aliases::names_at(
                lists,
                aliases::settled(lists, Seq::new(roots.len(), |i: int| 0int)),
            ),
        );
    }
    list
}

/// The place of a root by its short name, from `from` on.
pub open spec fn place_of_alias(names: Seq<Seq<char>>, alias: Seq<char>, from: int) -> Option<int>
    decreases names.len() - from,
{
    if from >= names.len() {
        None
    } else if names[from] == alias {
        Some(from)
    } else {
        place_of_alias(names, alias, from + 1)
    }
}

/// The root with a short name.
pub open spec fn root_named(roots: Seq<Seq<char>>, alias: Seq<char>) -> Option<Seq<char>> {
    match place_of_alias(aliases::aliases_of(roots), alias, 0) {
        Some(at) => Some(roots[at]),
        None => None,
    }
}

fn find_root(list: &Vec<EditRootAlias>, alias: &str) -> (root: Option<String>)
    ensures
        match place_of_alias(alias_texts(list@), alias@, 0) {
            Some(at) => 0 <= at < list@.len() && text::optional_text(root) == Some(
                root_texts(list@)[at],
            ),
            None => root is None,
        },
{
    let ghost names = alias_texts(list@);
    let mut i: usize = 0;
    while i < list.len()
        invariant
            i <= list@.len(),
            names == alias_texts(list@),
            place_of_alias(names, alias@, 0) == place_of_alias(names, alias@, i as int),
        decreases list@.len() - i,
    {
        assert(names[i as int] == list@[i as int].alias@);
        if text::same_text(list[i].alias.as_str(), alias) {
            assert(root_texts(list@)[i as int] == list@[i as int].root@);
            return Some(list[i].root.clone());
        }
        i = i + 1;
    }
    None
}

/// Whether a path starts with the current directory, written out.
pub open spec fn starts_here(p: Seq<char>) -> bool {
    let parts = path::components_of(p);
    parts.len() > 0 && parts[0] == seq!['.']
}

/// A path below the current directory, without the mention of it.
pub open spec fn without_here(p: Seq<char>) -> Seq<char> {
    text::join_of(path::components_of(p).skip(1), "/"@)
}

/// The file that is edited: the default file of the first root, a path below
/// it, a path below a root that is given by its short name, or an absolute path
/// inside a root. A path that starts with `./` is always one below the first
/// root. Where a name has no ending it gets that of markdown files.
pub open spec fn edit_target(roots: Seq<Seq<char>>, requested: Option<Seq<char>>) -> Result<
    Seq<char>,
    Seq<char>,
> {
    if roots.len() == 0 {
        Err("no snippet roots configured"@)
    } else {
        match requested {
            None => Ok(path::joined(roots[0], DEFAULT_EDIT_PATH@)),
            Some(p) => if path::is_absolute(p) {
                let target = path::with_markdown_ending(p);
                if exists|i: int|
                    0 <= i < roots.len() && path::lies_under(target, #[trigger] roots[i]) {
                    Ok(target)
                } else {
                    Err(
                        "absolute edit target must live under a configured snippet root: "@ + p,
                    )
                }
            } else if starts_here(p) {
                Ok(path::joined(roots[0], path::with_markdown_ending(without_here(p))))
            } else {
                let parts = path::components_of(p);
                let named = if parts.len() > 0 && path::is_normal(parts[0]) {
                    root_named(roots, parts[0])
                } else {
                    None
                };
                match named {
                    Some(root) => if parts.len() == 1 {
                        Ok(path::joined(root, DEFAULT_EDIT_PATH@))
                    } else {
                        Ok(
                            path::joined(
                                root,
                                path::with_markdown_ending(text::join_of(parts.skip(1), "/"@)),
                            ),
                        )
                    },
                    None => Ok(path::joined(roots[0], path::with_markdown_ending(p))),
                }
            },
        }
    }
}

/// A result as texts.
pub open spec fn text_result(result: Result<String, String>) -> Result<Seq<char>, Seq<char>> {
    match result {
        Ok(s) => Ok(s@),
        Err(s) => Err(s@),
    }
}

/// All texts but the first, with slashes between them.
fn join_rest(parts: &Vec<String>) -> (out: String)
    requires
        parts@.len() > 0,
    ensures
        out@ == text::join_of(text::texts(parts@).skip(1), "/"@),
{
    let ghost goal = text::texts(parts@).skip(1);
    let mut rest: Vec<String> = Vec::new();
    let mut i: usize = 1;
    assert(text::texts(rest@) =~= goal.take(0));
    while i < parts.len()
        invariant
            1 <= i <= parts@.len(),
            goal == text::texts(parts@).skip(1),
            text::texts(rest@) == goal.take(i - 1),
        decreases parts@.len() - i,
    {
        proof {
            text::lemma_texts_push(rest@, parts@[i as int]);
            assert(goal[i - 1] == parts@[i as int]@);
            assert(goal.take(i as int) =~= goal.take(i - 1).push(goal[i - 1]));
        }
        rest.push(parts[i].clone());
        i = i + 1;
    }
    assert(goal.take(goal.len() as int) =~= goal);
    text::join_texts(&rest, "/")
}

/// The file that is edited.
pub fn resolve_edit_target(paths: &Paths, requested: Option<&str>) -> (target: Result<
    String,
    String,
>)
    ensures
        text_result(target) == edit_target(
            paths@.snippet_roots,
            crate::config::str_view(requested),
        ),
{
    let ghost roots = paths@.snippet_roots;
    assert(roots.len() == paths.snippet_roots@.len());
    if paths.snippet_roots.len() == 0 {
        return Err("no snippet roots configured".to_owned());
    }
    let default_root = paths.snippet_roots[0].as_str();
    assert(default_root@ == roots[0]);
    let p = match requested {
        Some(p) => p,
        None => {
            return Ok(path::join(default_root, DEFAULT_EDIT_PATH));
        },
    };
    let chars = text::chars_of(p);
    if chars.len() > 0 && chars[0] == '/' {
        let target = path::add_markdown_ending(p);
        let mut i: usize = 0;
        while i < paths.snippet_roots.len()
            invariant
                i <= paths.snippet_roots@.len(),
                roots == text::texts(paths.snippet_roots@),
                target@ == path::with_markdown_ending(p@),
                forall|k: int|
                    0 <= k < i ==> !path::lies_under(target@, #[trigger] roots[k]),
                path::is_absolute(p@),
                requested == Some(p),
                roots == paths@.snippet_roots,
                roots.len() > 0,
            decreases paths.snippet_roots@.len() - i,
        {
            assert(roots[i as int] == paths.snippet_roots@[i as int]@);
            if path::is_under(target.as_str(), paths.snippet_roots[i].as_str()) {
                return Ok(target);
            }
            i = i + 1;
        }
        let mut message =
            "absolute edit target must live under a configured snippet root: ".to_owned();
        message.append(p);
        return Err(message);
    }
    let parts = path::components(p);
    let ghost all = text::texts(parts@);
    assert(all.len() == parts@.len());
    proof {
        reveal_strlit(".");
        assert("."@ =~= seq!['.']);
    }
    if parts.len() > 0 {
        assert(all[0] == parts@[0]@);
        if text::same_text(parts[0].as_str(), ".") {
            let rest = join_rest(&parts);
            let tail = path::add_markdown_ending(rest.as_str());
            return Ok(path::join(default_root, tail.as_str()));
        }
        if path::normal_piece(parts[0].as_str()) {
            let list = edit_root_aliases(paths);
            match find_root(&list, parts[0].as_str()) {
                Some(root) => {
                    if parts.len() == 1 {
                        return Ok(path::join(root.as_str(), DEFAULT_EDIT_PATH));
                    }
                    let rest = join_rest(&parts);
                    let tail = path::add_markdown_ending(rest.as_str());
                    return Ok(path::join(root.as_str(), tail.as_str()));
                },
                None => {},
            }
        }
    }
    let tail = path::add_markdown_ending(p);
    Ok(path::join(default_root, tail.as_str()))
}

/// What is to be looked up to complete an argument: a directory, and the start
/// of names in it.
#[derive(Debug, PartialEq, Eq)]
pub struct CompletionQuery {
    /// The directory whose entries are candidates.
    pub dir: String,
    /// The part of the argument that names the directory.
    pub dir_part: String,
    /// What names must start with.
    pub prefix: String,
    /// The short name of the root, where the argument has one.
    pub alias: Option<String>,
}

/// What a [`CompletionQuery`] holds.
pub struct QueryView {
    pub dir: Seq<char>,
    pub dir_part: Seq<char>,
    pub prefix: Seq<char>,
    pub alias: Option<Seq<char>>,
}

impl View for CompletionQuery {
    type V = QueryView;

    open spec fn view(&self) -> QueryView {
        QueryView {
            dir: self.dir@,
            dir_part: self.dir_part@,
            prefix: self.prefix@,
            alias: text::optional_text(self.alias),
        }
    }
}

/// The place of the last slash.
pub open spec fn last_slash(s: Seq<char>) -> Option<int>
    decreases s.len(),
{
    if s.len() == 0 {
        None
    } else if s.last() == '/' {
        Some(s.len() - 1)
    } else {
        last_slash(s.drop_last())
    }
}

/// What is looked up below a root.
pub open spec fn query_below(root: Seq<char>, current: Seq<char>, alias: Option<Seq<char>>) -> QueryView {
    match last_slash(current) {
        Some(at) => QueryView {
            dir: path::joined(root, current.take(at)),
            dir_part: current.take(at),
            prefix: current.skip(at + 1),
            alias,
        },
        None => QueryView {
            dir: path::joined(root, Seq::empty()),
            dir_part: Seq::empty(),
            prefix: current,
            alias,
        },
    }
}

/// What is looked up to complete an argument. Absolute paths are not completed;
/// behind a slash stands a path below the root of that short name, and without
/// a slash a name in the first root.
pub open spec fn query_of(roots: Seq<Seq<char>>, current: Seq<char>) -> Option<QueryView> {
    if path::is_absolute(current) {
        None
    } else {
        match text::find_from(current, seq!['/'], 0) {
            Some(at) => match root_named(roots, current.take(at)) {
                Some(root) => Some(
                    query_below(root, current.skip(at + 1), Some(current.take(at))),
                ),
                None => None,
            },
            None => if roots.len() > 0 {
                Some(query_below(roots[0], current, None))
            } else {
                None
            },
        }
    }
}

fn look_below(root: &str, current: &Vec<char>, alias: Option<String>) -> (query: CompletionQuery)
    ensures
        query@ == query_below(root@, current@, text::optional_text(alias)),
{
    let n: usize = current.len();
    let mut i: usize = n;
    assert(current@.take(n as int) =~= current@);
    while i > 0
        invariant
            i <= n,
            n == current@.len(),
            last_slash(current@) == last_slash(current@.take(i as int)),
        decreases i,
    {
        assert(current@.take(i as int).last() == current@[i - 1]);
        assert(current@.take(i as int).drop_last() =~= current@.take(i - 1));
        if current[i - 1] == '/' {
            let dir_part = text::string_from(current, 0, i - 1);
            let prefix = text::string_from(current, i, n);
            assert(dir_part@ =~= current@.take(i - 1));
            assert(prefix@ =~= current@.skip(i as int));
            return CompletionQuery {
                dir: path::join(root, dir_part.as_str()),
                dir_part,
                prefix,
                alias,
            };
        }
        i = i - 1;
    }
    let dir_part = String::new();
    assert(dir_part@ =~= Seq::<char>::empty());
    CompletionQuery {
        dir: path::join(root, dir_part.as_str()),
        dir_part,
        prefix: text::string_of(current),
        alias,
    }
}

/// What is looked up to complete an argument.
pub fn completion_query(paths: &Paths, current: &str) -> (query: Option<CompletionQuery>)
    ensures
        match query {
            Some(q) => query_of(paths@.snippet_roots, current@) == Some(q@),
            None => query_of(paths@.snippet_roots, current@) is None,
        },
{
    let chars = text::chars_of(current);
    if chars.len() > 0 && chars[0] == '/' {
        return None;
    }
    let mut slash: Vec<char> = Vec::new();
    slash.push('/');
    assert(slash@ =~= seq!['/']);
    match text::find_chars(&chars, &slash, 0) {
        Some(at) => {
            proof {
                text::lemma_find_from(current@, seq!['/'], 0);
            }
            let n: usize = chars.len();
            assert(at < n);
            let alias = text::string_from(&chars, 0, at);
            assert(alias@ =~= current@.take(at as int));
            let rest = text::sub_chars(&chars, at + 1, n);
            assert(rest@ =~= current@.skip(at + 1));
            let list = edit_root_aliases(paths);
            match find_root(&list, alias.as_str()) {
                Some(root) => Some(look_below(root.as_str(), &rest, Some(alias))),
                None => None,
            }
        },
        None => {
            assert(paths@.snippet_roots.len() == paths.snippet_roots@.len());
            if paths.snippet_roots.len() > 0 {
                Some(look_below(paths.snippet_roots[0].as_str(), &chars, None))
            } else {
                None
            }
        },
    }
}

/// A candidate for an entry.
pub open spec fn candidate_text(p: Seq<char>, alias: Option<Seq<char>>, is_dir: bool) -> Seq<char> {
    let value = text::replace_char_of(p, '\\', "/"@);
    let named = match alias {
        Some(a) => a + "/"@ + value,
        None => value,
    };
    if is_dir {
        named.push('/')
    } else {
        named
    }
}

fn format_completion_candidate(p: &str, alias: &Option<String>, is_dir: bool) -> (out: String)
    ensures
        out@ == candidate_text(p@, text::optional_text(*alias), is_dir),
{
    let value = text::replace_char(p, '\\', "/");
    let mut out = match alias {
        Some(a) => {
            let mut named = a.clone();
            named.append("/");
            named.append(value.as_str());
            named
        },
        None => value,
    };
    if is_dir {
        out.push('/');
    }
    out
}

/// The candidates among the entries of a directory: its directories and its
/// markdown files, as far as their names start as asked for.
pub open spec fn entry_candidates(query: QueryView, entries: Seq<DirectoryEntry>) -> Seq<Seq<char>>
    decreases entries.len(),
{
    if entries.len() == 0 {
        Seq::empty()
    } else {
        let before = entry_candidates(query, entries.drop_last());
        let e = entries.last();
        if query.prefix.is_prefix_of(e.name@) && (e.is_dir || (e.is_file
            && path::names_markdown(e.name@))) {
            before.push(
                candidate_text(path::joined(query.dir_part, e.name@), query.alias, e.is_dir),
            )
        } else {
            before
        }
    }
}

/// The candidates that are roots: their short names that start as asked for.
pub open spec fn root_candidates(names: Seq<Seq<char>>, current: Seq<char>) -> Seq<Seq<char>>
    decreases names.len(),
{
    if names.len() == 0 {
        Seq::empty()
    } else {
        let before = root_candidates(names.drop_last(), current);
        if current.is_prefix_of(names.last()) {
            before.push(names.last().push('/'))
        } else {
            before
        }
    }
}

/// A list in order, with each text once.
pub open spec fn once_each(list: Seq<Seq<char>>) -> Seq<Seq<char>>
    decreases list.len(),
{
    if list.len() == 0 {
        Seq::empty()
    } else {
        let before = once_each(list.drop_last());
        if before.len() > 0 && before.last() == list.last() {
            before
        } else {
            before.push(list.last())
        }
    }
}

/// The completions of an argument, given the entries of the directory that was
/// looked up.
pub open spec fn completions_of(
    roots: Seq<Seq<char>>,
    current: Seq<char>,
    entries: Seq<DirectoryEntry>,
) -> Seq<Seq<char>> {
    let found = match query_of(roots, current) {
        Some(query) => entry_candidates(query, entries),
        None => Seq::empty(),
    };
    let named = if current.contains('/') {
        Seq::empty()
    } else {
        root_candidates(aliases::aliases_of(roots), current)
    };
    once_each(text::in_order(found + named))
}

fn entry_candidate_list(query: &CompletionQuery, entries: &Vec<DirectoryEntry>) -> (list: Vec<String>)
    ensures
        text::texts(list@) == entry_candidates(query@, entries@),
{
    let mut list: Vec<String> = Vec::new();
    let mut i: usize = 0;
    assert(entries@.take(0) =~= Seq::<DirectoryEntry>::empty());
    assert(text::texts(list@) =~= Seq::<Seq<char>>::empty());
    while i < entries.len()
        invariant
            i <= entries@.len(),
            text::texts(list@) == entry_candidates(query@, entries@.take(i as int)),
        decreases entries@.len() - i,
    {
        assert(entries@.take(i + 1).drop_last() =~= entries@.take(i as int));
        assert(entries@.take(i + 1).last() == entries@[i as int]);
        let e = &entries[i];
        if text::starts_with_text(e.name.as_str(), query.prefix.as_str()) && (e.is_dir || (
        e.is_file && path::is_markdown(e.name.as_str()))) {
            let p = path::join(query.dir_part.as_str(), e.name.as_str());
            let candidate = format_completion_candidate(p.as_str(), &query.alias, e.is_dir);
            proof {
                text::lemma_texts_push(list@, candidate);
            }
            list.push(candidate);
        }
        i = i + 1;
    }
    assert(entries@.take(entries@.len() as int) =~= entries@);
    list
}

fn keep_once_each(list: &Vec<String>) -> (out: Vec<String>)
    ensures
        text::texts(out@) == once_each(text::texts(list@)),
{
    let ghost all = text::texts(list@);
    let mut out: Vec<String> = Vec::new();
    let mut i: usize = 0;
    assert(all.take(0) =~= Seq::<Seq<char>>::empty());
    assert(text::texts(out@) =~= Seq::<Seq<char>>::empty());
    while i < list.len()
        invariant
            i <= list@.len(),
            all == text::texts(list@),
            text::texts(out@) == once_each(all.take(i as int)),
        decreases list@.len() - i,
    {
        assert(all.take(i + 1).drop_last() =~= all.take(i as int));
        assert(all.take(i + 1).last() == list@[i as int]@);
        let n: usize = out.len();
        assert(text::texts(out@).len() == n);
        let repeated = if n > 0 {
            assert(text::texts(out@).last() == out@[n - 1]@);
            text::same_text(out[n - 1].as_str(), list[i].as_str())
        } else {
            false
        };
        if !repeated {
            proof {
                text::lemma_texts_push(out@, list@[i as int]);
            }
            out.push(list[i].clone());
        }
        i = i + 1;
    }
    assert(all.take(all.len() as int) =~= all);
    out
}

/// The completions of an argument, given the entries of the directory that
/// [`completion_query`] names.
pub fn complete_edit(paths: &Paths, current: &str, entries: &Vec<DirectoryEntry>) -> (list: Vec<
    String,
>)
    ensures
        text::texts(list@) == completions_of(paths@.snippet_roots, current@, entries@),
{
    let ghost roots = paths@.snippet_roots;
    let mut list = match completion_query(paths, current) {
        Some(query) => entry_candidate_list(&query, entries),
        None => Vec::new(),
    };
    let ghost found = match query_of(roots, current@) {
        Some(query) => entry_candidates(query, entries@),
        None => Seq::empty(),
    };
    assert(text::texts(list@) =~= found);
    let chars = text::chars_of(current);
    let mut k: usize = 0;
    while k < chars.len() && chars[k] != '/'
        invariant
            k <= chars@.len(),
            chars@ == current@,
            forall|j: int| 0 <= j < k ==> current@[j] != '/',
        decreases chars@.len() - k,
    {
        k = k + 1;
    }
    if k == chars.len() {
        assert(!current@.contains('/'));
        let named = edit_root_aliases(paths);
        let ghost names = alias_texts(named@);
        let mut i: usize = 0;
        assert(names.take(0) =~= Seq::<Seq<char>>::empty());
        assert(found + root_candidates(names.take(0), current@) =~= found);
        while i < named.len()
            invariant
                i <= named@.len(),
                names == alias_texts(named@),
                text::texts(list@) == found + root_candidates(names.take(i as int), current@),
            decreases named@.len() - i,
        {
            assert(names.take(i + 1).drop_last() =~= names.take(i as int));
            assert(names.take(i + 1).last() == named@[i as int].alias@);
            if text::starts_with_text(named[i].alias.as_str(), current) {
                let mut candidate = named[i].alias.clone();
                candidate.push('/');
                proof {
                    text::lemma_texts_push(list@, candidate);
                    assert((found + root_candidates(names.take(i as int), current@)).push(
                        candidate@,
                    ) =~= found + root_candidates(names.take(i as int), current@).push(
                        candidate@,
                    ));
                }
                list.push(candidate);
            }
            i = i + 1;
        }
        assert(names.take(names.len() as int) =~= names);
    } else {
        assert(current@[k as int] == '/');
        assert(current@.contains('/'));
        assert(found + Seq::<Seq<char>>::empty() =~= found);
    }
    let sorted = text::sort_texts(list);
    keep_once_each(&sorted)
}

/// Where a target is found, it lies under one of the roots.
pub proof fn law_absolute_target_lies_under_a_root(roots: Seq<Seq<char>>, p: Seq<char>)
    requires
        path::is_absolute(p),
        edit_target(roots, Some(p)) is Ok,
    ensures
        exists|i: int|
            0 <= i < roots.len() && path::lies_under(
                edit_target(roots, Some(p))->Ok_0,
                #[trigger] roots[i],
            ),
{
}

proof fn lemma_once_each(list: Seq<Seq<char>>)
    requires
        text::is_ordered(list),
    ensures
        text_map::strictly_sorted(once_each(list)),
        forall|x: Seq<char>| once_each(list).contains(x) <==> list.contains(x),
    decreases list.len(),
{
    if list.len() > 0 {
        let front = list.drop_last();
        let last = list.last();
        assert forall|i: int, j: int| 0 <= i < j < front.len() implies !text::text_less(
            #[trigger] front[j],
            #[trigger] front[i],
        ) by {
            assert(!text::text_less(list[j], list[i]));
        }
        lemma_once_each(front);
        let before = once_each(front);
        let after = once_each(list);
        assert forall|k: int| 0 <= k < before.len() implies !text::text_less(
            last,
            #[trigger] before[k],
        ) by {
            assert(before.contains(before[k]));
            let at = front.index_of(before[k]);
            assert(front.contains(before[k]));
            assert(list[at] == before[k]);
            assert(!text::text_less(list[list.len() - 1], list[at]));
        }
        if before.len() > 0 && before.last() == last {
            assert(before.contains(last)) by {
                assert(before[before.len() - 1] == last);
            }
        } else {
            assert forall|i: int, j: int| 0 <= i < j < after.len() implies text::text_less(
                #[trigger] after[i],
                #[trigger] after[j],
            ) by {
                if j < before.len() {
                    assert(text::text_less(before[i], before[j]));
                } else {
                    let top = before.last();
                    text::lemma_text_less_total(top, last);
                    assert(before[before.len() - 1] == top);
                    if i < before.len() - 1 {
                        assert(text::text_less(before[i], before[before.len() - 1]));
                        text::lemma_text_less_transitive(before[i], top, last);
                    }
                }
            }
        }
        assert forall|x: Seq<char>| after.contains(x) <==> list.contains(x) by {
            assert(list =~= front.push(last));
            if list.contains(x) {
                let at = list.index_of(x);
                if at < front.len() {
                    assert(front[at] == x);
                    assert(front.contains(x));
                    let k = before.index_of(x);
                    assert(before.contains(x));
                    assert(after[k] == x);
                } else {
                    assert(after[after.len() - 1] == x || before.last() == x);
                    if before.len() > 0 && before.last() == last {
                        assert(after[after.len() - 1] == x);
                    } else {
                        assert(after[after.len() - 1] == x);
                    }
                }
            }
            if after.contains(x) {
                let k = after.index_of(x);
                if k < before.len() {
                    assert(before[k] == x);
                    assert(before.contains(x));
                    let at = front.index_of(x);
                    assert(front.contains(x));
                    assert(list[at] == x);
                } else {
                    assert(list[list.len() - 1] == x);
                }
            }
        }
    }
}

/// Completions come in alphabetical order, and none comes twice.
pub proof fn law_completions_are_ordered(
    roots: Seq<Seq<char>>,
    current: Seq<char>,
    entries: Seq<DirectoryEntry>,
)
    ensures
        text_map::strictly_sorted(completions_of(roots, current, entries)),
{
    let found = match query_of(roots, current) {
        Some(query) => entry_candidates(query, entries),
        None => Seq::empty(),
    };
    let named = if current.contains('/') {
        Seq::empty()
    } else {
        root_candidates(aliases::aliases_of(roots), current)
    };
    text::law_in_order(found + named);
    lemma_once_each(text::in_order(found + named));
}

proof fn lemma_place_of_alias(names: Seq<Seq<char>>, from: int, at: int)
    requires
        names.no_duplicates(),
        0 <= from <= at < names.len(),
    ensures
        place_of_alias(names, names[at], from) == Some(at),
    decreases at - from,
{
    if from < at {
        assert(names[from] != names[at]);
        lemma_place_of_alias(names, from + 1, at);
    }
}

proof fn lemma_no_alias(names: Seq<Seq<char>>, alias: Seq<char>, from: int)
    requires
        0 <= from,
        !names.contains(alias),
    ensures
        place_of_alias(names, alias, from) is None,
    decreases names.len() - from,
{
    if from < names.len() {
        assert(names.contains(names[from]));
        lemma_no_alias(names, alias, from + 1);
    }
}

/// A short name leads to the root that has it.
pub proof fn law_short_names_lead_to_their_roots(roots: Seq<Seq<char>>, alias: Seq<char>, at: int)
    ensures
        0 <= at < roots.len() && aliases::aliases_of(roots)[at] == alias ==> root_named(
            roots,
            alias,
        ) == Some(roots[at]),
        !aliases::aliases_of(roots).contains(alias) ==> root_named(roots, alias) is None,
        aliases::aliases_of(roots).len() == roots.len(),
{
    let lists = aliases::component_lists(roots);
    let depths = Seq::new(roots.len(), |i: int| 0int);
    aliases::law_aliases_are_distinct(
        aliases::names_at(lists, aliases::settled(lists, depths)),
    );
    let names = aliases::aliases_of(roots);
    if 0 <= at < roots.len() && names[at] == alias {
        lemma_place_of_alias(names, 0, at);
    }
    if !names.contains(alias) {
        lemma_no_alias(names, alias, 0);
    }
}

/// Without a path the default file of the first root is edited. A path that starts
/// with the short name of a root lies below that root, and any other relative path
/// below the first one; a short name alone stands for the default file of its root.
/// An absolute path is taken where it lies under a root, and refused elsewhere.
pub proof fn law_where_edits_go(roots: Seq<Seq<char>>, p: Seq<char>, at: int)
    requires
        roots.len() > 0,
    ensures
        edit_target(roots, None) == Ok::<Seq<char>, Seq<char>>(
            path::joined(roots[0], "snippets.md"@),
        ),
        ({
            let parts = path::components_of(p);
            let names = aliases::aliases_of(roots);
            let to = edit_target(roots, Some(p));
            let named = parts.len() > 0 && path::is_normal(parts[0]) && 0 <= at < roots.len()
                && names[at] == parts[0];
            let relative = !path::is_absolute(p) && !starts_here(p);
            &&& relative && named && parts.len() == 1 ==> to == Ok::<Seq<char>, Seq<char>>(
                path::joined(roots[at], "snippets.md"@),
            )
            &&& relative && named && parts.len() > 1 ==> to == Ok::<Seq<char>, Seq<char>>(
                path::joined(
                    roots[at],
                    path::with_markdown_ending(text::join_of(parts.skip(1), seq!['/'])),
                ),
            )
            &&& relative && (parts.len() == 0 || !path::is_normal(parts[0]) || !names.contains(
                parts[0],
            )) ==> to == Ok::<Seq<char>, Seq<char>>(
                path::joined(roots[0], path::with_markdown_ending(p)),
            )
            &&& !path::is_absolute(p) && starts_here(p) ==> to == Ok::<Seq<char>, Seq<char>>(
                path::joined(
                    roots[0],
                    path::with_markdown_ending(text::join_of(parts.skip(1), seq!['/'])),
                ),
            )
            &&& path::is_absolute(p) && 0 <= at < roots.len() && path::lies_under(
                path::with_markdown_ending(p),
                roots[at],
            ) ==> to == Ok::<Seq<char>, Seq<char>>(path::with_markdown_ending(p))
            &&& path::is_absolute(p) && (forall|i: int|
                0 <= i < roots.len() ==> !path::lies_under(
                    path::with_markdown_ending(p),
                    #[trigger] roots[i],
                )) ==> to is Err
        }),
{
    reveal_strlit("/");
    assert("/"@ =~= seq!['/']);
    let parts = path::components_of(p);
    if parts.len() > 0 {
        law_short_names_lead_to_their_roots(roots, parts[0], at);
    }
}

/// Without a root nothing can be edited.
pub proof fn law_no_roots_no_target(requested: Option<Seq<char>>)
    ensures
        edit_target(Seq::empty(), requested) is Err,
{
}

proof fn lemma_last_slash(a: Seq<char>, b: Seq<char>)
    requires
        !b.contains('/'),
    ensures
        last_slash(a + seq!['/'] + b) == Some(a.len() as int),
        last_slash(b) is None,
    decreases b.len(),
{
    let s = a + seq!['/'] + b;
    if b.len() > 0 {
        let front = b.drop_last();
        assert(b.contains(b.last())) by {
            assert(b[b.len() - 1] == b.last());
        }
        if front.contains('/') {
            let k = front.index_of('/');
            assert(b[k] == '/');
        }
        assert(s.drop_last() =~= a + seq!['/'] + front);
        assert(s.last() == b.last());
        lemma_last_slash(a, front);
    } else {
        assert(s.last() == '/');
    }
}

/// A name that is being typed below a root is looked up in the directory before it.
pub proof fn law_names_are_looked_up(root: Seq<char>, dir: Seq<char>, name: Seq<char>, alias: Option<
    Seq<char>,
>)
    requires
        !name.contains('/'),
    ensures
        query_below(root, dir + seq!['/'] + name, alias) == (QueryView {
            dir: path::joined(root, dir),
            dir_part: dir,
            prefix: name,
            alias,
        }),
        query_below(root, name, alias) == (QueryView {
            dir: path::joined(root, Seq::empty()),
            dir_part: Seq::empty(),
            prefix: name,
            alias,
        }),
{
    lemma_last_slash(dir, name);
    let s = dir + seq!['/'] + name;
    assert(s.take(dir.len() as int) =~= dir);
    assert(s.skip(dir.len() as int + 1) =~= name);
}

/// Behind the short name of a root and a slash the names of that root are completed;
/// without a slash those of the first root.
pub proof fn law_where_completions_come_from(
    roots: Seq<Seq<char>>,
    alias: Seq<char>,
    rest: Seq<char>,
    at: int,
)
    requires
        0 <= at < roots.len(),
        aliases::aliases_of(roots)[at] == alias,
        alias.len() > 0,
        !alias.contains('/'),
        !rest.contains('/'),
    ensures
        query_of(roots, alias + seq!['/'] + rest) == Some(query_below(roots[at], rest, Some(alias))),
        query_of(roots, rest) == Some(query_below(roots[0], rest, None)),
{
    let s = alias + seq!['/'] + rest;
    law_short_names_lead_to_their_roots(roots, alias, at);
    assert(alias.contains(alias[0]));
    assert(s[0] == alias[0]);
    assert forall|i: int| 0 <= i < alias.len() implies alias[i] != '/' by {
        assert(alias.contains(alias[i]));
    }
    text::lemma_find_first(alias, '/', rest, 0);
    assert(s.take(alias.len() as int) =~= alias);
    assert(s.skip(alias.len() as int + 1) =~= rest);
    assert forall|i: int| 0 <= i < rest.len() implies rest[i] != '/' by {
        assert(rest.contains(rest[i]));
    }
    text::lemma_find_nothing(rest, '/', 0);
}

/// The entries that are offered: directories and markdown files whose names begin as
/// typed, in order.
pub proof fn law_offered_entries(query: QueryView, entries: Seq<DirectoryEntry>)
    ensures
        entry_candidates(query, entries) == entries.filter(
            |e: DirectoryEntry|
                query.prefix.is_prefix_of(e.name@) && (e.is_dir || (e.is_file
                    && path::names_markdown(e.name@))),
        ).map_values(
            |e: DirectoryEntry|
                candidate_text(path::joined(query.dir_part, e.name@), query.alias, e.is_dir),
        ),
    decreases entries.len(),
{
    reveal(Seq::filter);
    let fits = |e: DirectoryEntry|
        query.prefix.is_prefix_of(e.name@) && (e.is_dir || (e.is_file && path::names_markdown(
            e.name@,
        )));
    let shown = |e: DirectoryEntry|
        candidate_text(path::joined(query.dir_part, e.name@), query.alias, e.is_dir);
    if entries.len() > 0 {
        let front = entries.drop_last();
        law_offered_entries(query, front);
        assert(front.filter(fits).push(entries.last()).map_values(shown) =~= front.filter(
            fits,
        ).map_values(shown).push(shown(entries.last())));
    } else {
        assert(entry_candidates(query, entries) =~= entries.filter(fits).map_values(shown));
    }
}

/// What is offered for an entry ends in a slash where it is a directory, and stands
/// behind the short name of the root where one was typed.
pub proof fn law_offered_texts(p: Seq<char>, alias: Seq<char>)
    requires
        !p.contains('\\'),
    ensures
        candidate_text(p, None, false) == p,
        candidate_text(p, None, true) == p + seq!['/'],
        candidate_text(p, Some(alias), false) == alias + seq!['/'] + p,
        candidate_text(p, Some(alias), true) == alias + seq!['/'] + p + seq!['/'],
{
    reveal_strlit("/");
    assert("/"@ =~= seq!['/']);
    text::lemma_replace_nothing(p, '\\', "/"@);
    assert(p.push('/') =~= p + seq!['/']);
    assert((alias + seq!['/'] + p).push('/') =~= alias + seq!['/'] + p + seq!['/']);
}

/// The roots that are offered: those whose short names begin as typed, with a slash
/// behind each.
pub proof fn law_offered_roots(names: Seq<Seq<char>>, current: Seq<char>)
    ensures
        root_candidates(names, current) == names.filter(
            |name: Seq<char>| current.is_prefix_of(name),
        ).map_values(|name: Seq<char>| name + seq!['/']),
    decreases names.len(),
{
    reveal(Seq::filter);
    let fits = |name: Seq<char>| current.is_prefix_of(name);
    let shown = |name: Seq<char>| name + seq!['/'];
    if names.len() > 0 {
        let front = names.drop_last();
        law_offered_roots(front, current);
        assert(names.last().push('/') =~= names.last() + seq!['/']);
        assert(front.filter(fits).push(names.last()).map_values(shown) =~= front.filter(
            fits,
        ).map_values(shown).push(shown(names.last())));
    } else {
        assert(root_candidates(names, current) =~= names.filter(fits).map_values(shown));
    }
}

/// What is offered are the matching entries of the directory that was looked up and,
/// as long as no slash was typed, the matching roots, and nothing else.
pub proof fn law_what_is_offered(
    roots: Seq<Seq<char>>,
    current: Seq<char>,
    entries: Seq<DirectoryEntry>,
    x: Seq<char>,
)
    ensures
        completions_of(roots, current, entries).contains(x) <==> {
            ||| query_of(roots, current) is Some && entry_candidates(
                query_of(roots, current)->0,
                entries,
            ).contains(x)
            ||| !current.contains('/') && root_candidates(
                aliases::aliases_of(roots),
                current,
            ).contains(x)
        },
{
    broadcast use vstd::seq_lib::group_to_multiset_ensures;

    let found = match query_of(roots, current) {
        Some(query) => entry_candidates(query, entries),
        None => Seq::empty(),
    };
    let named = if current.contains('/') {
        Seq::empty()
    } else {
        root_candidates(aliases::aliases_of(roots), current)
    };
    let all = found + named;
    text::law_in_order(all);
    lemma_once_each(text::in_order(all));
    assert(text::in_order(all).contains(x) <==> all.contains(x)) by {
        assert(text::in_order(all).to_multiset().contains(x) <==> all.to_multiset().contains(x));
    }
    if found.contains(x) {
        let k = found.index_of(x);
        assert(all[k] == x);
    }
    if named.contains(x) {
        let k = named.index_of(x);
        assert(all[found.len() + k] == x);
    }
    if all.contains(x) {
        let k = all.index_of(x);
        if k < found.len() {
            assert(found[k] == x);
        } else {
            assert(named[k - found.len()] == x);
        }
    }
}

} // verus!
