//! The tree of directories, files and snippets, and a browser over it that
//! keeps one path and one input.

use vstd::prelude::*;
use crate::domain::SnippetId;
use crate::index;
use crate::index::SnippetIndex;
use crate::line_edit;
use crate::path;
use crate::text;
use crate::text_map;

verus! {

broadcast use vstd::string::group_string_axioms;

/// A snippet as shown in browse mode.
#[derive(Debug, PartialEq, Eq)]
pub struct BrowseSnippet {
    pub name: String,
    pub id: SnippetId,
}

/// What a [`BrowseSnippet`] holds.
pub struct BrowseSnippetView {
    pub name: Seq<char>,
    pub id: Seq<char>,
}

impl View for BrowseSnippet {
    type V = BrowseSnippetView;

    open spec fn view(&self) -> BrowseSnippetView {
        BrowseSnippetView { name: self.name@, id: self.id@ }
    }
}

impl Clone for BrowseSnippet {
    fn clone(&self) -> (out: Self)
        ensures
            out == *self,
    {
        BrowseSnippet { name: self.name.clone(), id: self.id.clone() }
    }
}

/// What the snippets of a list hold.
pub open spec fn snippet_views(list: Seq<BrowseSnippet>) -> Seq<BrowseSnippetView> {
    list.map_values(|s: BrowseSnippet| s@)
}

/// A node of the tree. Its children stand in alphabetical order.
#[derive(Debug)]
pub struct DirNode {
    pub children: Vec<(String, DirNode)>,
    pub snippets: Vec<BrowseSnippet>,
    /// How many snippets there are at or below this node.
    pub recursive_count: usize,
}

/// The names of the children of a node.
pub open spec fn child_names(node: DirNode) -> Seq<Seq<char>> {
    text_map::entry_keys(node.children@)
}

/// The child with a name.
pub open spec fn child_of(children: Seq<(String, DirNode)>, name: Seq<char>) -> Option<DirNode>
    decreases children.len(),
{
    if children.len() == 0 {
        None
    } else if children[0].0@ == name {
        Some(children[0].1)
    } else {
        child_of(children.skip(1), name)
    }
}

/// The node at the end of a path.
pub open spec fn node_at(node: DirNode, path: Seq<Seq<char>>) -> Option<DirNode>
    decreases path.len(),
{
    if path.len() == 0 {
        Some(node)
    } else {
        match child_of(node.children@, path[0]) {
            Some(child) => node_at(child, path.skip(1)),
            None => None,
        }
    }
}

/// Whether at every node the names of the children are in order, none of them
/// twice.
pub open spec fn is_tidy(node: DirNode) -> bool {
    forall|path: Seq<Seq<char>>|
        match #[trigger] node_at(node, path) {
            Some(n) => text_map::strictly_sorted(child_names(n)),
            None => true,
        }
}

impl Default for DirNode {
    /// A node without children and snippets.
    fn default() -> (node: Self)
        ensures
            node.children@ == Seq::<(String, DirNode)>::empty(),
            node.snippets@ == Seq::<BrowseSnippet>::empty(),
            node.recursive_count == 0,
    {
        DirNode { children: Vec::new(), snippets: Vec::new(), recursive_count: 0 }
    }
}

impl DirNode {
    /// The child with a name.
    pub fn child(&self, name: &str) -> (child: Option<&DirNode>)
        ensures
            match child {
                Some(c) => child_of(self.children@, name@) == Some(*c),
                None => child_of(self.children@, name@) is None,
            },
    {
        let mut i: usize = 0;
        assert(self.children@.skip(0) =~= self.children@);
        while i < self.children.len()
            invariant
                i <= self.children@.len(),
                child_of(self.children@.skip(i as int), name@) == child_of(self.children@, name@),
            decreases self.children@.len() - i,
        {
            if text::same_text(self.children[i].0.as_str(), name) {
                return Some(&self.children[i].1);
            }
            assert(self.children@.skip(i as int).skip(1) =~= self.children@.skip(i + 1));
            i = i + 1;
        }
        None
    }

    /// Puts a child between those before and those behind it in the alphabet.
    pub fn insert_child(&mut self, name: String, child: DirNode)
        requires
            text_map::strictly_sorted(child_names(*old(self))),
            !child_names(*old(self)).contains(name@),
        ensures
            text_map::strictly_sorted(child_names(*final(self))),
            exists|at: int|
                0 <= at <= old(self).children@.len() && #[trigger] old(self).children@.insert(
                    at,
                    (name, child),
                ) == final(self).children@,
            final(self).snippets == old(self).snippets,
            final(self).recursive_count == old(self).recursive_count,
    {
        let mut at: usize = 0;
        let ghost keys = child_names(*self);
        while at < self.children.len() && text::less_text(
            self.children[at].0.as_str(),
            name.as_str(),
        )
            invariant
                at <= self.children@.len(),
                keys == child_names(*self),
                self == old(self),
                forall|i: int| 0 <= i < at ==> text::text_less(#[trigger] keys[i], name@),
            decreases self.children@.len() - at,
        {
            at = at + 1;
        }
        proof {
            if at < keys.len() {
                assert(keys.contains(keys[at as int]));
                text::lemma_text_less_total(name@, keys[at as int]);
            }
            text_map::lemma_sorted_insert(keys, at as int, name@);
        }
        self.children.insert(at, (name, child));
        assert(child_names(*self) =~= keys.insert(at as int, name@));
    }
}

/// A snippet together with the names on the way to it.
pub struct Item {
    pub dir: Vec<String>,
    pub snippet: BrowseSnippet,
}

/// What an [`Item`] holds.
pub struct ItemView {
    pub dir: Seq<Seq<char>>,
    pub snippet: BrowseSnippetView,
}

impl View for Item {
    type V = ItemView;

    open spec fn view(&self) -> ItemView {
        ItemView { dir: text::texts(self.dir@), snippet: self.snippet@ }
    }
}

/// What the items of a list hold.
pub open spec fn item_views(items: Seq<Item>) -> Seq<ItemView> {
    items.map_values(|i: Item| i@)
}

/// The items of an index: each snippet stands below the names of its file's
/// path.
pub open spec fn items_of(entries: Seq<index::EntryView>) -> Seq<ItemView> {
    entries.map_values(
        |e: index::EntryView|
            ItemView {
                dir: path::names_of(e.relative_path),
                snippet: BrowseSnippetView { name: e.snippet.name, id: e.snippet.id },
            },
    )
}

/// The items that lie below `name`, seen from there.
pub open spec fn below(items: Seq<ItemView>, name: Seq<char>) -> Seq<ItemView>
    decreases items.len(),
{
    if items.len() == 0 {
        Seq::empty()
    } else {
        let before = below(items.drop_last(), name);
        let last = items.last();
        if last.dir.len() > 0 && last.dir[0] == name {
            before.push(ItemView { dir: last.dir.skip(1), snippet: last.snippet })
        } else {
            before
        }
    }
}

/// The snippets that lie right here, in order.
pub open spec fn here(items: Seq<ItemView>) -> Seq<BrowseSnippetView>
    decreases items.len(),
{
    if items.len() == 0 {
        Seq::empty()
    } else if items.last().dir.len() == 0 {
        here(items.drop_last()).push(items.last().snippet)
    } else {
        here(items.drop_last())
    }
}

/// Whether some item lies below `name`.
pub open spec fn leads_to(items: Seq<ItemView>, name: Seq<char>) -> bool {
    exists|i: int| 0 <= i < items.len() && (#[trigger] items[i]).dir.len() > 0 && items[i].dir[0] == name
}

/// `list` with `s` put behind all snippets whose names do not come after its
/// own.
pub open spec fn insert_by_name(list: Seq<BrowseSnippetView>, s: BrowseSnippetView) -> Seq<
    BrowseSnippetView,
>
    decreases list.len(),
{
    if list.len() == 0 || !text::text_less(s.name, list.last().name) {
        list.push(s)
    } else {
        insert_by_name(list.drop_last(), s).push(list.last())
    }
}

/// The snippets in alphabetical order; those with the same name stay in order.
pub open spec fn by_name(list: Seq<BrowseSnippetView>) -> Seq<BrowseSnippetView>
    decreases list.len(),
{
    if list.len() == 0 {
        Seq::empty()
    } else {
        insert_by_name(by_name(list.drop_last()), list.last())
    }
}

/// Whether a node is that of `items`: a child for each name that items lie
/// below, in alphabetical order; the snippets that lie right here, ordered by
/// name; and the number of all items.
pub open spec fn node_of(node: DirNode, items: Seq<ItemView>) -> bool
    decreases node,
{
    &&& text_map::strictly_sorted(child_names(node))
    &&& forall|name: Seq<char>| #[trigger] child_names(node).contains(name) == leads_to(items, name)
    &&& snippet_views(node.snippets@) == by_name(here(items))
    &&& node.recursive_count == items.len()
    &&& forall|i: int|
        0 <= i < node.children@.len() ==> node_of(
            (#[trigger] node.children@[i]).1,
            below(items, node.children@[i].0@),
        )
}

/// All names on the ways to the items together.
spec fn total_depth(items: Seq<ItemView>) -> nat
    decreases items.len(),
{
    if items.len() == 0 {
        0
    } else {
        total_depth(items.drop_last()) + items.last().dir.len()
    }
}

proof fn lemma_below_is_shallower(items: Seq<ItemView>, name: Seq<char>)
    ensures
        total_depth(below(items, name)) + below(items, name).len() <= total_depth(items),
        leads_to(items, name) ==> below(items, name).len() > 0,
    decreases items.len(),
{
    if items.len() > 0 {
        let rest = items.drop_last();
        lemma_below_is_shallower(rest, name);
        let b = below(items, name);
        if items.last().dir.len() > 0 && items.last().dir[0] == name {
            assert(b.drop_last() =~= below(rest, name));
        } else if leads_to(items, name) {
            let i = choose|i: int|
                0 <= i < items.len() && (#[trigger] items[i]).dir.len() > 0 && items[i].dir[0] == name;
            assert(rest[i] == items[i]);
            assert(leads_to(rest, name));
        }
    }
}

proof fn lemma_insert_by_name(list: Seq<BrowseSnippetView>, s: BrowseSnippetView, at: int)
    requires
        0 <= at <= list.len(),
        at > 0 ==> !text::text_less(s.name, list[at - 1].name),
        forall|j: int| at <= j < list.len() ==> text::text_less(s.name, (#[trigger] list[j]).name),
    ensures
        insert_by_name(list, s) == list.insert(at, s),
    decreases list.len(),
{
    if at == list.len() {
        assert(list.insert(at, s) =~= list.push(s));
    } else {
        assert(text::text_less(s.name, list[list.len() - 1].name));
        lemma_insert_by_name(list.drop_last(), s, at);
        assert(list.drop_last().insert(at, s).push(list.last()) =~= list.insert(at, s));
    }
}

/// Puts `s` behind all snippets whose names do not come after its own.
fn insert_snippet(list: &mut Vec<BrowseSnippet>, s: BrowseSnippet)
    ensures
        snippet_views(final(list)@) == insert_by_name(snippet_views(old(list)@), s@),
{
    let mut at: usize = list.len();
    let ghost views = snippet_views(list@);
    while at > 0 && text::less_text(s.name.as_str(), list[at - 1].name.as_str())
        invariant
            at <= list@.len(),
            list == old(list),
            views == snippet_views(list@),
            forall|j: int| at <= j < views.len() ==> text::text_less(s@.name, (#[trigger] views[j]).name),
        decreases at,
    {
        assert(views[at - 1] == list@[at - 1]@);
        at = at - 1;
    }
    proof {
        if at > 0 {
            assert(views[at - 1] == list@[at - 1]@);
        }
        lemma_insert_by_name(views, s@, at as int);
    }
    list.insert(at, s);
    assert(snippet_views(list@) =~= views.insert(at as int, s@));
}

/// The items below `name`, seen from there.
fn items_below(items: &Vec<Item>, name: &str) -> (out: Vec<Item>)
    ensures
        item_views(out@) == below(item_views(items@), name@),
{
    let mut out: Vec<Item> = Vec::new();
    let ghost views = item_views(items@);
    let mut i: usize = 0;
    assert(views.take(0) =~= Seq::<ItemView>::empty());
    assert(item_views(out@) =~= Seq::<ItemView>::empty());
    while i < items.len()
        invariant
            i <= items@.len(),
            views == item_views(items@),
            item_views(out@) == below(views.take(i as int), name@),
        decreases items@.len() - i,
    {
        let item = &items[i];
        assert(views.take(i + 1).drop_last() =~= views.take(i as int));
        assert(views.take(i + 1).last() == item@);
        if item.dir.len() > 0 && text::same_text(item.dir[0].as_str(), name) {
            let dir = rest_of(&item.dir);
            let lower = Item { dir, snippet: item.snippet.clone() };
            let ghost old_out = out@;
            out.push(lower);
            assert(item_views(out@) =~= item_views(old_out).push(lower@));
        }
        i = i + 1;
    }
    assert(views.take(views.len() as int) =~= views);
    out
}

/// The names behind the first.
fn rest_of(names: &Vec<String>) -> (out: Vec<String>)
    requires
        names@.len() > 0,
    ensures
        text::texts(out@) == text::texts(names@).skip(1),
{
    let mut out: Vec<String> = Vec::new();
    let mut i: usize = 1;
    assert(text::texts(out@) =~= text::texts(names@).subrange(1, 1));
    while i < names.len()
        invariant
            1 <= i <= names@.len(),
            text::texts(out@) == text::texts(names@).subrange(1, i as int),
        decreases names@.len() - i,
    {
        proof {
            text::lemma_texts_push(out@, names@[i as int]);
            assert(text::texts(names@).subrange(1, i as int).push(names@[i as int]@)
                =~= text::texts(names@).subrange(1, i + 1));
        }
        out.push(names[i].clone());
        i = i + 1;
    }
    assert(text::texts(names@).subrange(1, names@.len() as int) =~= text::texts(names@).skip(1));
    out
}

/// The snippets that lie right here, ordered by name.
fn snippets_here(items: &Vec<Item>) -> (out: Vec<BrowseSnippet>)
    ensures
        snippet_views(out@) == by_name(here(item_views(items@))),
{
    let mut out: Vec<BrowseSnippet> = Vec::new();
    let ghost views = item_views(items@);
    let mut i: usize = 0;
    assert(views.take(0) =~= Seq::<ItemView>::empty());
    assert(snippet_views(out@) =~= Seq::<BrowseSnippetView>::empty());
    while i < items.len()
        invariant
            i <= items@.len(),
            views == item_views(items@),
            snippet_views(out@) == by_name(here(views.take(i as int))),
        decreases items@.len() - i,
    {
        let item = &items[i];
        let ghost done = here(views.take(i as int));
        assert(views.take(i + 1).drop_last() =~= views.take(i as int));
        assert(views.take(i + 1).last() == item@);
        if item.dir.len() == 0 {
            insert_snippet(&mut out, item.snippet.clone());
            assert(done.push(item@.snippet).drop_last() =~= done);
        }
        i = i + 1;
    }
    assert(views.take(views.len() as int) =~= views);
    out
}

/// The names that items lie below, in alphabetical order.
fn names_here(items: &Vec<Item>) -> (names: Vec<String>)
    ensures
        text_map::strictly_sorted(text::texts(names@)),
        forall|name: Seq<char>|
            #[trigger] text::texts(names@).contains(name) == leads_to(item_views(items@), name),
{
    let mut set = text_map::TextSet::new();
    let ghost views = item_views(items@);
    let mut i: usize = 0;
    while i < items.len()
        invariant
            i <= items@.len(),
            views == item_views(items@),
            forall|name: Seq<char>|
                #[trigger] set@.contains(name) == leads_to(views.take(i as int), name),
        decreases items@.len() - i,
    {
        let item = &items[i];
        let ghost before = views.take(i as int);
        let ghost after = views.take(i + 1);
        let ghost old_set = set@;
        if item.dir.len() > 0 {
            set.insert(item.dir[0].clone());
        }
        proof {
            assert forall|name: Seq<char>| #[trigger] set@.contains(name) == leads_to(after, name) by {
                assert(old_set.contains(name) == leads_to(before, name));
                if leads_to(before, name) {
                    let k = choose|k: int|
                        0 <= k < before.len() && (#[trigger] before[k]).dir.len() > 0 && before[k].dir[0]
                            == name;
                    assert(after[k] == before[k]);
                }
                assert(after[i as int] == item@);
                if leads_to(after, name) {
                    let k = choose|k: int|
                        0 <= k < after.len() && (#[trigger] after[k]).dir.len() > 0 && after[k].dir[0]
                            == name;
                    if k < i {
                        assert(before[k] == after[k]);
                    }
                }
            }
        }
        i = i + 1;
    }
    assert(views.take(views.len() as int) =~= views);
    let names = text::copy_texts(set.members());
    assert forall|name: Seq<char>| #[trigger] text::texts(names@).contains(name) == leads_to(
        views,
        name,
    ) by {
        assert(text::texts(names@).to_set().contains(name) == set@.contains(name));
    }
    names
}

/// The node of `items`.
fn build_node(items: &Vec<Item>) -> (node: DirNode)
    ensures
        node_of(node, item_views(items@)),
    decreases total_depth(item_views(items@)),
{
    let ghost views = item_views(items@);
    let names = names_here(items);
    let mut children: Vec<(String, DirNode)> = Vec::new();
    let mut i: usize = 0;
    while i < names.len()
        invariant
            i <= names@.len(),
            views == item_views(items@),
            children@.len() == i,
            forall|name: Seq<char>|
                #[trigger] text::texts(names@).contains(name) == leads_to(views, name),
            forall|j: int|
                0 <= j < i ==> (#[trigger] children@[j]).0@ == names@[j]@ && node_of(
                    children@[j].1,
                    below(views, names@[j]@),
                ),
        decreases names@.len() - i,
    {
        let lower = items_below(items, names[i].as_str());
        proof {
            assert(text::texts(names@)[i as int] == names@[i as int]@);
            assert(text::texts(names@).contains(names@[i as int]@));
            lemma_below_is_shallower(views, names@[i as int]@);
        }
        let child = build_node(&lower);
        children.push((names[i].clone(), child));
        i = i + 1;
    }
    let node = DirNode { children, snippets: snippets_here(items), recursive_count: items.len() };
    proof {
        assert(child_names(node) =~= text::texts(names@));
    }
    node
}

/// The whole tree. It mirrors the directories and files that snippets come
/// from; a snippet stands below its file.
#[derive(Debug)]
pub struct BrowseTree {
    root: DirNode,
}

impl BrowseTree {
    /// The root of the tree.
    pub closed spec fn root_node(&self) -> DirNode {
        self.root
    }

    /// The tree of the snippets of an index.
    pub fn from_index(index: &SnippetIndex) -> (tree: BrowseTree)
        ensures
            node_of(tree.root_node(), items_of(index@)),
    {
        let n: usize = index.len();
        let mut items: Vec<Item> = Vec::new();
        let mut i: usize = 0;
        assert(item_views(items@) =~= items_of(index@.take(0)));
        while i < n
            invariant
                i <= n == index@.len(),
                item_views(items@) == items_of(index@.take(i as int)),
            decreases n - i,
        {
            let entry = index.at(i);
            let ghost old_items = items@;
            let item = Item {
                dir: path::named_components(entry.relative_path.as_str()),
                snippet: BrowseSnippet { name: entry.name().to_owned(), id: entry.id().clone() },
            };
            items.push(item);
            assert(item_views(items@) =~= item_views(old_items).push(item@));
            assert(items_of(index@.take(i + 1)) =~= items_of(index@.take(i as int)).push(item@));
            i = i + 1;
        }
        assert(index@.take(n as int) =~= index@);
        BrowseTree { root: build_node(&items) }
    }

    /// The tree with a given root.
    pub fn from_root(root: DirNode) -> (tree: BrowseTree)
        requires
            is_tidy(root),
        ensures
            tree.root_node() == root,
    {
        BrowseTree { root }
    }

    /// The root of the tree.
    pub fn root(&self) -> (node: &DirNode)
        ensures
            *node == self.root_node(),
    {
        &self.root
    }

    /// The node at the end of a path.
    pub fn get(&self, path: &Vec<String>) -> (node: Option<&DirNode>)
        ensures
            match node {
                Some(n) => node_at(self.root_node(), text::texts(path@)) == Some(*n),
                None => node_at(self.root_node(), text::texts(path@)) is None,
            },
    {
        let ghost names = text::texts(path@);
        let mut cur = &self.root;
        let mut i: usize = 0;
        assert(names.skip(0) =~= names);
        while i < path.len()
            invariant
                i <= path@.len(),
                names == text::texts(path@),
                node_at(*cur, names.skip(i as int)) == node_at(self.root_node(), names),
            decreases path@.len() - i,
        {
            assert(names.skip(i as int)[0] == path@[i as int]@);
            assert(names.skip(i as int).skip(1) =~= names.skip(i + 1));
            match cur.child(path[i].as_str()) {
                Some(child) => {
                    cur = child;
                },
                None => {
                    return None;
                },
            }
            i = i + 1;
        }
        Some(cur)
    }
}

/// A row of the browse list.
#[derive(Debug, PartialEq, Eq)]
pub enum BrowseEntry {
    /// A child that can be entered.
    Directory(String),
    /// A snippet that can be chosen.
    Snippet(BrowseSnippet),
}

/// What a [`BrowseEntry`] holds.
pub enum BrowseEntryView {
    Directory(Seq<char>),
    Snippet(BrowseSnippetView),
}

impl View for BrowseEntry {
    type V = BrowseEntryView;

    open spec fn view(&self) -> BrowseEntryView {
        match self {
            BrowseEntry::Directory(name) => BrowseEntryView::Directory(name@),
            BrowseEntry::Snippet(s) => BrowseEntryView::Snippet(s@),
        }
    }
}

impl BrowseEntry {
    /// The name shown for the row.
    pub fn display_name(&self) -> (s: &str)
        ensures
            s@ == match self@ {
                BrowseEntryView::Directory(name) => name,
                BrowseEntryView::Snippet(s) => s.name,
            },
    {
        match self {
            BrowseEntry::Directory(name) => name.as_str(),
            BrowseEntry::Snippet(s) => s.name.as_str(),
        }
    }
}

/// What the rows of a list hold.
pub open spec fn row_views(rows: Seq<BrowseEntry>) -> Seq<BrowseEntryView> {
    rows.map_values(|e: BrowseEntry| e@)
}

/// The names that begin with `filter`, regardless of case; all of them where it
/// is empty.
pub open spec fn matching_names(names: Seq<Seq<char>>, filter: Seq<char>) -> Seq<Seq<char>>
    decreases names.len(),
{
    if names.len() == 0 {
        Seq::empty()
    } else if filter.len() == 0 || text::lowercase(filter).is_prefix_of(
        text::lowercase(names.last()),
    ) {
        matching_names(names.drop_last(), filter).push(names.last())
    } else {
        matching_names(names.drop_last(), filter)
    }
}

/// The snippets whose names hold `filter`, regardless of case; all of them where
/// it is empty.
pub open spec fn matching_snippets(list: Seq<BrowseSnippetView>, filter: Seq<char>) -> Seq<
    BrowseSnippetView,
>
    decreases list.len(),
{
    if list.len() == 0 {
        Seq::empty()
    } else if filter.len() == 0 || text::occurs(
        text::lowercase(list.last().name),
        text::lowercase(filter),
    ) {
        matching_snippets(list.drop_last(), filter).push(list.last())
    } else {
        matching_snippets(list.drop_last(), filter)
    }
}

/// The rows shown at a node: the children that match the filter, then the
/// snippets that do. Where there is no node there is no row.
pub open spec fn visible_of(node: Option<DirNode>, filter: Seq<char>) -> Seq<BrowseEntryView> {
    match node {
        None => Seq::empty(),
        Some(n) => matching_names(child_names(n), filter).map_values(
            |name: Seq<char>| BrowseEntryView::Directory(name),
        ) + matching_snippets(snippet_views(n.snippets@), filter).map_values(
            |s: BrowseSnippetView| BrowseEntryView::Snippet(s),
        ),
    }
}

/// Where nothing is typed, every child and every snippet of a node is shown.
pub proof fn law_nothing_typed_shows_everything(node: DirNode)
    ensures
        visible_of(Some(node), Seq::empty()) == child_names(node).map_values(
            |name: Seq<char>| BrowseEntryView::Directory(name),
        ) + snippet_views(node.snippets@).map_values(
            |s: BrowseSnippetView| BrowseEntryView::Snippet(s),
        ),
{
    lemma_all_names(child_names(node));
    lemma_all_snippets(snippet_views(node.snippets@));
}

proof fn lemma_all_names(names: Seq<Seq<char>>)
    ensures
        matching_names(names, Seq::empty()) == names,
    decreases names.len(),
{
    if names.len() > 0 {
        lemma_all_names(names.drop_last());
        assert(names =~= names.drop_last().push(names.last()));
    } else {
        assert(names =~= Seq::<Seq<char>>::empty());
    }
}

proof fn lemma_all_snippets(list: Seq<BrowseSnippetView>)
    ensures
        matching_snippets(list, Seq::empty()) == list,
    decreases list.len(),
{
    if list.len() > 0 {
        lemma_all_snippets(list.drop_last());
        assert(list =~= list.drop_last().push(list.last()));
    } else {
        assert(list =~= Seq::<BrowseSnippetView>::empty());
    }
}

/// The names of children that begin with `filter`, regardless of case.
pub fn matching_children(node: &DirNode, filter: &str) -> (names: Vec<String>)
    ensures
        text::texts(names@) == matching_names(child_names(*node), filter@),
{
    let lower = text::to_lowercase(filter);
    let ghost keys = child_names(*node);
    let mut out: Vec<String> = Vec::new();
    let mut i: usize = 0;
    assert(keys.take(0) =~= Seq::<Seq<char>>::empty());
    assert(text::texts(out@) =~= Seq::<Seq<char>>::empty());
    while i < node.children.len()
        invariant
            i <= node.children@.len(),
            keys == child_names(*node),
            lower@ == text::lowercase(filter@),
            text::texts(out@) == matching_names(keys.take(i as int), filter@),
        decreases node.children@.len() - i,
    {
        let name = &node.children[i].0;
        proof {
            assert(keys.take(i + 1).drop_last() =~= keys.take(i as int));
            assert(keys.take(i + 1).last() == name@);
            text::lemma_texts_push(out@, *name);
        }
        let name_lower = text::to_lowercase(name.as_str());
        if filter.is_empty() || text::starts_with_text(name_lower.as_str(), lower.as_str()) {
            out.push(name.clone());
        }
        i = i + 1;
    }
    assert(keys.take(keys.len() as int) =~= keys);
    out
}

/// The rows shown at a node.
pub fn visible_rows(node: Option<&DirNode>, filter: &str) -> (rows: Vec<BrowseEntry>)
    ensures
        row_views(rows@) == visible_of(
            match node {
                Some(n) => Some(*n),
                None => None,
            },
            filter@,
        ),
{
    let mut out: Vec<BrowseEntry> = Vec::new();
    match node {
        None => {
            assert(row_views(out@) =~= Seq::<BrowseEntryView>::empty());
        },
        Some(n) => {
            let names = matching_children(n, filter);
            let ghost dirs = text::texts(names@).map_values(
                |name: Seq<char>| BrowseEntryView::Directory(name),
            );
            let mut i: usize = 0;
            assert(row_views(out@) =~= dirs.take(0));
            while i < names.len()
                invariant
                    i <= names@.len(),
                    dirs == text::texts(names@).map_values(
                        |name: Seq<char>| BrowseEntryView::Directory(name),
                    ),
                    row_views(out@) == dirs.take(i as int),
                decreases names@.len() - i,
            {
                let ghost old_out = out@;
                let row = BrowseEntry::Directory(names[i].clone());
                out.push(row);
                assert(row_views(out@) =~= row_views(old_out).push(row@));
                assert(dirs.take(i + 1) =~= dirs.take(i as int).push(row@));
                i = i + 1;
            }
            assert(dirs.take(dirs.len() as int) =~= dirs);
            let lower = text::to_lowercase(filter);
            let ghost all = snippet_views(n.snippets@);
            let ghost as_row = |s: BrowseSnippetView| BrowseEntryView::Snippet(s);
            let mut k: usize = 0;
            assert(all.take(0) =~= Seq::<BrowseSnippetView>::empty());
            assert(matching_snippets(all.take(0), filter@).map_values(as_row)
                =~= Seq::<BrowseEntryView>::empty());
            assert(row_views(out@) =~= dirs + matching_snippets(all.take(0), filter@).map_values(
                as_row,
            ));
            while k < n.snippets.len()
                invariant
                    k <= n.snippets@.len(),
                    all == snippet_views(n.snippets@),
                    lower@ == text::lowercase(filter@),
                    as_row == (|s: BrowseSnippetView| BrowseEntryView::Snippet(s)),
                    row_views(out@) == dirs + matching_snippets(
                        all.take(k as int),
                        filter@,
                    ).map_values(as_row),
                decreases n.snippets@.len() - k,
            {
                let snippet = &n.snippets[k];
                assert(all.take(k + 1).drop_last() =~= all.take(k as int));
                assert(all.take(k + 1).last() == snippet@);
                let name_lower = text::to_lowercase(snippet.name.as_str());
                let ghost done = matching_snippets(all.take(k as int), filter@);
                if filter.is_empty() || text::contains_text(name_lower.as_str(), lower.as_str()) {
                    let ghost old_out = out@;
                    let row = BrowseEntry::Snippet(snippet.clone());
                    out.push(row);
                    assert(row_views(out@) =~= row_views(old_out).push(row@));
                    assert(done.push(snippet@).map_values(as_row) =~= done.map_values(as_row).push(
                        row@,
                    ));
                    assert((dirs + done.map_values(as_row)).push(row@) =~= dirs + done.map_values(
                        as_row,
                    ).push(row@));
                }
                k = k + 1;
            }
            assert(all.take(all.len() as int) =~= all);
        },
    }
    out
}

/// How many characters at the front of both texts are the same, regardless of
/// case.
pub open spec fn common_len(a: Seq<char>, b: Seq<char>) -> nat
    decreases a.len(),
{
    if a.len() > 0 && b.len() > 0 && text::char_lowercase(a[0]) == text::char_lowercase(b[0]) {
        1 + common_len(a.skip(1), b.skip(1))
    } else {
        0
    }
}

/// The longest front of the first name that all names share, regardless of
/// case.
pub open spec fn common_prefix(names: Seq<Seq<char>>) -> Seq<char>
    decreases names.len(),
{
    if names.len() == 0 {
        Seq::empty()
    } else if names.len() == 1 {
        names[0]
    } else {
        let before = common_prefix(names.drop_last());
        before.take(common_len(before, names.last()) as int)
    }
}

/// The front of `a` that `b` shares, regardless of case.
fn shared_front(a: &str, b: &str) -> (out: String)
    ensures
        out@ == a@.take(common_len(a@, b@) as int),
{
    let x = text::chars_of(a);
    let y = text::chars_of(b);
    let mut n: usize = 0;
    let mut more: bool = true;
    assert(x@.skip(0) =~= x@);
    assert(y@.skip(0) =~= y@);
    while more && n < x.len() && n < y.len()
        invariant
            n <= x@.len(),
            n <= y@.len(),
            more ==> common_len(x@, y@) == n + common_len(x@.skip(n as int), y@.skip(n as int)),
            !more ==> common_len(x@, y@) == n,
        decreases x@.len() - n + (if more {
            1int
        } else {
            0int
        }),
    {
        let lx = text::lower_char(x[n]);
        let ly = text::lower_char(y[n]);
        if text::same_text(lx.as_str(), ly.as_str()) {
            assert(x@.skip(n as int).skip(1) =~= x@.skip(n + 1));
            assert(y@.skip(n as int).skip(1) =~= y@.skip(n + 1));
            n = n + 1;
        } else {
            more = false;
        }
    }
    assert(x@.subrange(0, n as int) =~= x@.take(n as int));
    text::string_from(&x, 0, n)
}

/// The longest front of the first name that all names share, regardless of
/// case.
pub fn longest_common_prefix(names: &Vec<String>) -> (out: String)
    ensures
        out@ == common_prefix(text::texts(names@)),
{
    let ghost all = text::texts(names@);
    if names.len() == 0 {
        return String::new();
    }
    let mut prefix = names[0].clone();
    let mut i: usize = 1;
    assert(all.take(1) =~= seq![all[0]]);
    while i < names.len()
        invariant
            1 <= i <= names@.len(),
            all == text::texts(names@),
            prefix@ == common_prefix(all.take(i as int)),
        decreases names@.len() - i,
    {
        assert(all.take(i + 1).drop_last() =~= all.take(i as int));
        assert(all.take(i + 1).last() == names@[i as int]@);
        prefix = shared_front(prefix.as_str(), names[i].as_str());
        i = i + 1;
    }
    assert(all.take(all.len() as int) =~= all);
    prefix
}

/// A path as shown: the names between slashes, with one at each end.
pub open spec fn shown_path(names: Seq<Seq<char>>) -> Seq<char> {
    if names.len() == 0 {
        seq!['/']
    } else {
        seq!['/'] + text::join_of(names, seq!['/']) + seq!['/']
    }
}

/// A path as shown.
pub fn show_path(names: &Vec<String>) -> (out: String)
    ensures
        out@ == shown_path(text::texts(names@)),
{
    proof {
        reveal_strlit("/");
        assert("/"@ =~= seq!['/']);
    }
    let mut out = "/".to_owned();
    if names.len() > 0 {
        let joined = text::join_texts(names, "/");
        out.append(joined.as_str());
        out.append("/");
    }
    out
}

/// Browser with one path, one input and one highlighted row. Typing narrows
/// what is visible, completing enters the only match, deleting walks back.
pub struct BrowseState {
    pub path: Vec<String>,
    pub input: String,
    pub selection: Option<usize>,
}

/// What a [`BrowseState`] holds.
pub struct BrowseStateView {
    pub path: Seq<Seq<char>>,
    pub input: Seq<char>,
    pub selection: Option<usize>,
}

impl View for BrowseState {
    type V = BrowseStateView;

    open spec fn view(&self) -> BrowseStateView {
        BrowseStateView {
            path: text::texts(self.path@),
            input: self.input@,
            selection: self.selection,
        }
    }
}

impl BrowseStateView {
    /// The rows shown.
    pub open spec fn rows(self, tree: BrowseTree) -> Seq<BrowseEntryView> {
        visible_of(node_at(tree.root_node(), self.path), self.input)
    }

    /// The state after a child was entered.
    pub open spec fn entered(self, name: Seq<char>) -> BrowseStateView {
        BrowseStateView { path: self.path.push(name), input: Seq::empty(), selection: Some(0) }
    }

    /// The state after completion: the only matching child is entered; of
    /// several the common front is typed where it is longer than the input.
    pub open spec fn completed(self, tree: BrowseTree) -> BrowseStateView {
        match node_at(tree.root_node(), self.path) {
            None => self,
            Some(node) => {
                let names = matching_names(child_names(node), self.input);
                if names.len() == 0 {
                    self
                } else if names.len() == 1 {
                    self.entered(names[0])
                } else if line_edit::byte_len(common_prefix(names)) > line_edit::byte_len(
                    self.input,
                ) {
                    BrowseStateView {
                        path: self.path,
                        input: common_prefix(names),
                        selection: Some(0),
                    }
                } else {
                    self
                }
            },
        }
    }
}

/// The highlighted row; the first where none is.
pub open spec fn selected_row(selection: Option<usize>) -> usize {
    match selection {
        Some(row) => row,
        None => 0,
    }
}

impl BrowseState {
    /// At the root, with nothing typed.
    pub fn new() -> (state: Self)
        ensures
            state@ == (BrowseStateView {
                path: Seq::empty(),
                input: Seq::empty(),
                selection: Some(0),
            }),
    {
        let state = BrowseState { path: Vec::new(), input: String::new(), selection: Some(0) };
        assert(state@.path =~= Seq::<Seq<char>>::empty());
        state
    }

    /// The path as shown.
    pub fn path_display(&self) -> (out: String)
        ensures
            out@ == shown_path(self@.path),
    {
        show_path(&self.path)
    }

    /// Types `c`.
    pub fn type_char(&mut self, c: char)
        ensures
            final(self)@ == (BrowseStateView {
                path: old(self)@.path,
                input: old(self)@.input.push(c),
                selection: Some(0),
            }),
    {
        self.input.push(c);
        self.selection = Some(0);
    }

    /// Deletes the last character of the input, or leaves the current node
    /// where there is none. Says whether anything changed.
    pub fn backspace(&mut self) -> (changed: bool)
        ensures
            changed == (old(self)@.input.len() > 0 || old(self)@.path.len() > 0),
            !changed ==> final(self)@ == old(self)@,
            old(self)@.input.len() > 0 ==> final(self)@ == (BrowseStateView {
                path: old(self)@.path,
                input: old(self)@.input.drop_last(),
                selection: Some(0),
            }),
            old(self)@.input.len() == 0 && old(self)@.path.len() > 0 ==> final(self)@ == (
            BrowseStateView {
                path: old(self)@.path.drop_last(),
                input: Seq::empty(),
                selection: Some(0),
            }),
    {
        let chars = text::chars_of(self.input.as_str());
        if chars.len() > 0 {
            self.input = text::string_from(&chars, 0, chars.len() - 1);
            assert(self.input@ =~= old(self)@.input.drop_last());
            self.selection = Some(0);
            return true;
        }
        assert(self.input@ =~= Seq::<char>::empty());
        if self.path.len() > 0 {
            let _ = self.path.pop();
            assert(text::texts(self.path@) =~= old(self)@.path.drop_last());
            self.selection = Some(0);
            return true;
        }
        false
    }

    /// Goes back to the root with nothing typed.
    pub fn reset(&mut self)
        ensures
            final(self)@ == (BrowseStateView {
                path: Seq::empty(),
                input: Seq::empty(),
                selection: Some(0),
            }),
    {
        *self = BrowseState::new();
    }

    /// The rows shown at the current node.
    pub fn visible(&self, tree: &BrowseTree) -> (rows: Vec<BrowseEntry>)
        ensures
            row_views(rows@) == self@.rows(*tree),
    {
        visible_rows(tree.get(&self.path), self.input.as_str())
    }

    /// Completes the input against the children's names. Says whether
    /// anything changed.
    pub fn tab_complete(&mut self, tree: &BrowseTree) -> (changed: bool)
        ensures
            final(self)@ == old(self)@.completed(*tree),
            !changed ==> final(self)@ == old(self)@,
            changed == match node_at(tree.root_node(), old(self)@.path) {
                None => false,
                Some(node) => {
                    let names = matching_names(child_names(node), old(self)@.input);
                    names.len() == 1 || (names.len() > 1 && line_edit::byte_len(
                        common_prefix(names),
                    ) > line_edit::byte_len(old(self)@.input))
                },
            },
    {
        match tree.get(&self.path) {
            None => false,
            Some(node) => {
                let names = matching_children(node, self.input.as_str());
                if names.len() == 0 {
                    false
                } else if names.len() == 1 {
                    assert(text::texts(names@)[0] == names@[0]@);
                    let only = names[0].clone();
                    proof {
                        text::lemma_texts_push(self.path@, only);
                    }
                    self.path.push(only);
                    self.input = String::new();
                    self.selection = Some(0);
                    true
                } else {
                    let common = longest_common_prefix(&names);
                    if line_edit::byte_count(common.as_str()) > line_edit::byte_count(
                        self.input.as_str(),
                    ) {
                        self.input = common;
                        self.selection = Some(0);
                        true
                    } else {
                        false
                    }
                }
            },
        }
    }

    /// Enters the highlighted child, or gives the id of the highlighted
    /// snippet.
    pub fn activate(&mut self, tree: &BrowseTree) -> (chosen: Option<SnippetId>)
        ensures
            ({
                let rows = old(self)@.rows(*tree);
                let at = selected_row(old(self)@.selection);
                if at >= rows.len() {
                    chosen is None && final(self)@ == old(self)@
                } else {
                    match rows[at as int] {
                        BrowseEntryView::Directory(name) => chosen is None && final(self)@ == old(
                            self,
                        )@.entered(name),
                        BrowseEntryView::Snippet(s) => {
                            &&& chosen is Some
                            &&& chosen->0@ == s.id
                            &&& final(self)@ == old(self)@
                        },
                    }
                }
            }),
    {
        let rows = self.visible(tree);
        let at: usize = match self.selection {
            Some(row) => row,
            None => 0,
        };
        if at >= rows.len() {
            return None;
        }
        assert(row_views(rows@)[at as int] == rows@[at as int]@);
        match &rows[at] {
            BrowseEntry::Directory(name) => {
                let name = name.clone();
                proof {
                    text::lemma_texts_push(self.path@, name);
                }
                self.path.push(name);
                self.input = String::new();
                self.selection = Some(0);
                None
            },
            BrowseEntry::Snippet(s) => Some(s.id.clone()),
        }
    }

    /// Moves the highlighted row by `delta` within `visible_len` rows.
    pub fn move_cursor(&mut self, delta: i32, visible_len: usize)
        ensures
            final(self)@ == (BrowseStateView {
                selection: line_edit::moved_selection(
                    old(self)@.selection,
                    delta as int,
                    visible_len as int,
                ),
                ..old(self)@
            }),
    {
        self.selection = line_edit::move_selection(self.selection, delta, visible_len);
    }
}

proof fn lemma_insert_by_name_keeps(list: Seq<BrowseSnippetView>, s: BrowseSnippetView)
    ensures
        insert_by_name(list, s).to_multiset() == list.to_multiset().insert(s),
        insert_by_name(list, s).len() == list.len() + 1,
    decreases list.len(),
{
    broadcast use vstd::seq_lib::group_to_multiset_ensures;

    if !(list.len() == 0 || !text::text_less(s.name, list.last().name)) {
        lemma_insert_by_name_keeps(list.drop_last(), s);
        let inner = insert_by_name(list.drop_last(), s);
        assert(list =~= list.drop_last().push(list.last()));
        assert(inner.push(list.last()).to_multiset() =~= list.to_multiset().insert(s));
    }
}

/// No name comes before the name in front of it.
pub open spec fn ordered_by_name(list: Seq<BrowseSnippetView>) -> bool {
    forall|i: int, j: int|
        0 <= i < j < list.len() ==> !text::text_less((#[trigger] list[j]).name, (#[trigger] list[i]).name)
}

proof fn lemma_insert_by_name_ordered(list: Seq<BrowseSnippetView>, s: BrowseSnippetView)
    requires
        ordered_by_name(list),
    ensures
        ordered_by_name(insert_by_name(list, s)),
        forall|k: int|
            0 <= k < insert_by_name(list, s).len() ==> (#[trigger] insert_by_name(list, s)[k] == s
                || list.contains(insert_by_name(list, s)[k])),
    decreases list.len(),
{
    let out = insert_by_name(list, s);
    if list.len() == 0 || !text::text_less(s.name, list.last().name) {
        assert forall|i: int, j: int| 0 <= i < j < out.len() implies !text::text_less(
            (#[trigger] out[j]).name,
            (#[trigger] out[i]).name,
        ) by {
            if j == list.len() && i < list.len() - 1 {
                let last = list.last();
                assert(!text::text_less(last.name, list[i].name));
                if text::text_less(s.name, list[i].name) {
                    text::lemma_text_less_total(last.name, list[i].name);
                    if text::text_less(list[i].name, last.name) {
                        text::lemma_text_less_transitive(s.name, list[i].name, last.name);
                    }
                }
            }
        }
        assert forall|k: int| 0 <= k < out.len() implies (#[trigger] out[k] == s || list.contains(out[k])) by {
            if k < list.len() {
                assert(list[k] == out[k]);
            }
        }
    } else {
        let front = list.drop_last();
        lemma_insert_by_name_ordered(front, s);
        let inner = insert_by_name(front, s);
        assert forall|k: int| 0 <= k < out.len() implies (#[trigger] out[k] == s || list.contains(out[k])) by {
            if k < inner.len() {
                assert(out[k] == inner[k]);
                if inner[k] != s {
                    let m = front.index_of(inner[k]);
                    assert(list[m] == inner[k]);
                }
            } else {
                assert(list[list.len() - 1] == out[k]);
            }
        }
        assert forall|i: int, j: int| 0 <= i < j < out.len() implies !text::text_less(
            (#[trigger] out[j]).name,
            (#[trigger] out[i]).name,
        ) by {
            if j < inner.len() {
                assert(out[j] == inner[j] && out[i] == inner[i]);
            } else {
                assert(out[i] == inner[i]);
                assert(out[j] == list.last());
                text::lemma_text_less_total(s.name, list.last().name);
                if inner[i] != s {
                    let m = front.index_of(inner[i]);
                    assert(list[m] == inner[i]);
                    assert(!text::text_less(list[list.len() - 1].name, list[m].name));
                }
            }
        }
    }
}

/// Ordering by name gives the same snippets, in alphabetical order.
pub proof fn law_by_name_orders(list: Seq<BrowseSnippetView>)
    ensures
        ordered_by_name(by_name(list)),
        by_name(list).to_multiset() == list.to_multiset(),
        by_name(list).len() == list.len(),
    decreases list.len(),
{
    broadcast use vstd::seq_lib::group_to_multiset_ensures;

    if list.len() > 0 {
        law_by_name_orders(list.drop_last());
        lemma_insert_by_name_ordered(by_name(list.drop_last()), list.last());
        lemma_insert_by_name_keeps(by_name(list.drop_last()), list.last());
        assert(list =~= list.drop_last().push(list.last()));
    } else {
        assert(list =~= Seq::<BrowseSnippetView>::empty());
    }
}

proof fn lemma_here_contains(items: Seq<ItemView>, i: int)
    requires
        0 <= i < items.len(),
        items[i].dir.len() == 0,
    ensures
        here(items).contains(items[i].snippet),
    decreases items.len(),
{
    let rest = items.drop_last();
    if i == items.len() - 1 {
        assert(here(items).last() == items[i].snippet);
    } else {
        lemma_here_contains(rest, i);
        let k = here(rest).index_of(items[i].snippet);
        assert(here(items)[k] == items[i].snippet);
    }
}

proof fn lemma_below_contains(items: Seq<ItemView>, i: int) -> (k: int)
    requires
        0 <= i < items.len(),
        items[i].dir.len() > 0,
    ensures
        0 <= k < below(items, items[i].dir[0]).len(),
        below(items, items[i].dir[0])[k] == (ItemView {
            dir: items[i].dir.skip(1),
            snippet: items[i].snippet,
        }),
    decreases items.len(),
{
    let name = items[i].dir[0];
    let rest = items.drop_last();
    if i == items.len() - 1 {
        below(items, name).len() - 1
    } else {
        assert(rest[i] == items[i]);
        lemma_below_contains(rest, i)
    }
}

proof fn lemma_child_of(children: Seq<(String, DirNode)>, i: int)
    requires
        text_map::strictly_sorted(text_map::entry_keys(children)),
        0 <= i < children.len(),
    ensures
        child_of(children, children[i].0@) == Some(children[i].1),
    decreases children.len(),
{
    let keys = text_map::entry_keys(children);
    text_map::lemma_sorted_distinct(keys);
    assert(keys[0] == children[0].0@);
    assert(keys[i] == children[i].0@);
    if i > 0 {
        let rest = children.skip(1);
        assert(text_map::entry_keys(rest) =~= keys.skip(1));
        assert forall|a: int, b: int| 0 <= a < b < rest.len() implies text::text_less(
            #[trigger] text_map::entry_keys(rest)[a],
            #[trigger] text_map::entry_keys(rest)[b],
        ) by {
            assert(text::text_less(keys[a + 1], keys[b + 1]));
        }
        lemma_child_of(rest, i - 1);
        assert(rest[i - 1] == children[i]);
    }
}

/// Every snippet stands in the tree at the end of the names on the way to it.
pub proof fn law_every_snippet_is_reachable(node: DirNode, items: Seq<ItemView>, i: int)
    requires
        node_of(node, items),
        0 <= i < items.len(),
    ensures
        node_at(node, items[i].dir) matches Some(n) && snippet_views(n.snippets@).contains(
            items[i].snippet,
        ),
    decreases items[i].dir.len(),
{
    let dir = items[i].dir;
    if dir.len() == 0 {
        lemma_here_contains(items, i);
        law_by_name_orders(here(items));
        broadcast use vstd::seq_lib::group_to_multiset_ensures;

        assert(here(items).to_multiset().contains(items[i].snippet));
        assert(by_name(here(items)).contains(items[i].snippet));
    } else {
        assert(leads_to(items, dir[0]));
        assert(child_names(node).contains(dir[0]));
        let c = child_names(node).index_of(dir[0]);
        assert(child_names(node)[c] == node.children@[c].0@);
        lemma_child_of(node.children@, c);
        let k = lemma_below_contains(items, i);
        law_every_snippet_is_reachable(node.children@[c].1, below(items, dir[0]), k);
    }
}

/// In the tree of an index the children of every node are in order, none of them
/// twice.
pub proof fn law_tree_is_tidy(node: DirNode, items: Seq<ItemView>)
    requires
        node_of(node, items),
    ensures
        is_tidy(node),
{
    assert forall|path: Seq<Seq<char>>|
        match #[trigger] node_at(node, path) {
            Some(n) => text_map::strictly_sorted(child_names(n)),
            None => true,
        } by {
        lemma_node_is_tidy(node, items, path);
    }
}

proof fn lemma_node_is_tidy(node: DirNode, items: Seq<ItemView>, path: Seq<Seq<char>>)
    requires
        node_of(node, items),
    ensures
        node_at(node, path) matches Some(n) ==> text_map::strictly_sorted(child_names(n)),
    decreases path.len(),
{
    if path.len() > 0 {
        if let Some(child) = child_of(node.children@, path[0]) {
            let c = lemma_child_place(node.children@, path[0]);
            lemma_node_is_tidy(child, below(items, node.children@[c].0@), path.skip(1));
        }
    }
}

proof fn lemma_child_place(children: Seq<(String, DirNode)>, name: Seq<char>) -> (c: int)
    requires
        child_of(children, name) is Some,
    ensures
        0 <= c < children.len(),
        child_of(children, name) == Some(children[c].1),
    decreases children.len(),
{
    if children[0].0@ == name {
        0
    } else {
        lemma_child_place(children.skip(1), name) + 1
    }
}

/// The counts of children together.
pub open spec fn child_counts(children: Seq<(String, DirNode)>) -> nat
    decreases children.len(),
{
    if children.len() == 0 {
        0
    } else {
        child_counts(children.drop_last()) + children.last().1.recursive_count as nat
    }
}

spec fn below_counts(items: Seq<ItemView>, names: Seq<Seq<char>>) -> nat
    decreases names.len(),
{
    if names.len() == 0 {
        0
    } else {
        below_counts(items, names.drop_last()) + below(items, names.last()).len()
    }
}

proof fn lemma_below_counts_step(items: Seq<ItemView>, names: Seq<Seq<char>>)
    requires
        items.len() > 0,
        names.no_duplicates(),
    ensures
        below_counts(items, names) == below_counts(items.drop_last(), names) + (if items.last().dir.len()
            > 0 && names.contains(items.last().dir[0]) {
            1nat
        } else {
            0
        }),
    decreases names.len(),
{
    if names.len() > 0 {
        let front = names.drop_last();
        lemma_below_counts_step(items, front);
        if items.last().dir.len() > 0 {
            let name = items.last().dir[0];
            if names.last() == name {
                assert(!front.contains(name)) by {
                    if front.contains(name) {
                        let k = front.index_of(name);
                        assert(names[k] == names[names.len() - 1]);
                    }
                }
                assert(names.contains(name));
            } else if names.contains(name) {
                let k = names.index_of(name);
                assert(front[k] == name);
            } else if front.contains(name) {
                let k = front.index_of(name);
                assert(names[k] == name);
            }
        }
    }
}

proof fn lemma_items_split(items: Seq<ItemView>, names: Seq<Seq<char>>)
    requires
        names.no_duplicates(),
        forall|name: Seq<char>| leads_to(items, name) ==> names.contains(name),
    ensures
        items.len() == here(items).len() + below_counts(items, names),
    decreases items.len(),
{
    if items.len() == 0 {
        lemma_no_items_below(items, names);
    } else {
        let rest = items.drop_last();
        assert forall|name: Seq<char>| leads_to(rest, name) implies names.contains(name) by {
            let k = choose|k: int|
                0 <= k < rest.len() && (#[trigger] rest[k]).dir.len() > 0 && rest[k].dir[0] == name;
            assert(items[k] == rest[k]);
            assert(leads_to(items, name));
        }
        lemma_items_split(rest, names);
        lemma_below_counts_step(items, names);
        if items.last().dir.len() > 0 {
            assert(items[items.len() - 1] == items.last());
            assert(leads_to(items, items.last().dir[0]));
        }
    }
}

proof fn lemma_no_items_below(items: Seq<ItemView>, names: Seq<Seq<char>>)
    requires
        items.len() == 0,
    ensures
        below_counts(items, names) == 0,
    decreases names.len(),
{
    if names.len() > 0 {
        lemma_no_items_below(items, names.drop_last());
    }
}

proof fn lemma_child_counts(children: Seq<(String, DirNode)>, items: Seq<ItemView>)
    requires
        forall|i: int|
            0 <= i < children.len() ==> (#[trigger] children[i]).1.recursive_count == below(
                items,
                children[i].0@,
            ).len(),
    ensures
        child_counts(children) == below_counts(items, text_map::entry_keys(children)),
    decreases children.len(),
{
    if children.len() > 0 {
        let front = children.drop_last();
        assert forall|i: int| 0 <= i < front.len() implies (#[trigger] front[i]).1.recursive_count
            == below(items, front[i].0@).len() by {
            assert(children[i] == front[i]);
        }
        lemma_child_counts(front, items);
        assert(text_map::entry_keys(children).drop_last() =~= text_map::entry_keys(front));
        assert(children[children.len() - 1].1.recursive_count == below(
            items,
            children[children.len() - 1].0@,
        ).len());
    }
}

/// The count of a node is that of its own snippets and the counts of its
/// children together.
pub proof fn law_counts_sum_up(node: DirNode, items: Seq<ItemView>)
    requires
        node_of(node, items),
    ensures
        node.recursive_count == node.snippets@.len() + child_counts(node.children@),
{
    text_map::lemma_sorted_distinct(child_names(node));
    lemma_items_split(items, child_names(node));
    law_by_name_orders(here(items));
    assert forall|i: int| 0 <= i < node.children@.len() implies (
    #[trigger] node.children@[i]).1.recursive_count == below(items, node.children@[i].0@).len() by {
        assert(node_of(node.children@[i].1, below(items, node.children@[i].0@)));
    }
    lemma_child_counts(node.children@, items);
    assert(snippet_views(node.snippets@).len() == node.snippets@.len());
}

/// Whether a row is shown for what was typed: a directory whose name begins with
/// it, or a snippet whose name holds it, letter case aside.
pub open spec fn row_matches(row: BrowseEntryView, typed: Seq<char>) -> bool {
    let low = text::lowercase(typed);
    match row {
        BrowseEntryView::Directory(name) => {
            let whole = text::lowercase(name);
            low.len() <= whole.len() && whole.take(low.len() as int) == low
        },
        BrowseEntryView::Snippet(s) => {
            let whole = text::lowercase(s.name);
            exists|a: Seq<char>, b: Seq<char>| whole == #[trigger] (a + low + b)
        },
    }
}

proof fn lemma_names_filtered(names: Seq<Seq<char>>, typed: Seq<char>)
    requires
        typed.len() > 0,
    ensures
        matching_names(names, typed).map_values(
            |name: Seq<char>| BrowseEntryView::Directory(name),
        ) == names.map_values(|name: Seq<char>| BrowseEntryView::Directory(name)).filter(
            |row: BrowseEntryView| row_matches(row, typed),
        ),
    decreases names.len(),
{
    reveal(Seq::filter);
    let shown = |name: Seq<char>| BrowseEntryView::Directory(name);
    let keeps = |row: BrowseEntryView| row_matches(row, typed);
    let rows = names.map_values(shown);
    if names.len() == 0 {
        assert(matching_names(names, typed).map_values(shown) =~= rows.filter(keeps));
    } else {
        let front = names.drop_last();
        lemma_names_filtered(front, typed);
        assert(rows.drop_last() =~= front.map_values(shown));
        assert(rows.last() == BrowseEntryView::Directory(names.last()));
        let low = text::lowercase(typed);
        let whole = text::lowercase(names.last());
        if low.is_prefix_of(whole) {
            assert(whole.take(low.len() as int) =~= low);
        }
        if low.len() <= whole.len() && whole.take(low.len() as int) == low {
            assert(low =~= whole.subrange(0, low.len() as int));
        }
        assert(matching_names(front, typed).push(names.last()).map_values(shown)
            =~= matching_names(front, typed).map_values(shown).push(rows.last()));
    }
}

proof fn lemma_snippets_filtered(list: Seq<BrowseSnippetView>, typed: Seq<char>)
    requires
        typed.len() > 0,
    ensures
        matching_snippets(list, typed).map_values(
            |s: BrowseSnippetView| BrowseEntryView::Snippet(s),
        ) == list.map_values(|s: BrowseSnippetView| BrowseEntryView::Snippet(s)).filter(
            |row: BrowseEntryView| row_matches(row, typed),
        ),
    decreases list.len(),
{
    reveal(Seq::filter);
    let shown = |s: BrowseSnippetView| BrowseEntryView::Snippet(s);
    let keeps = |row: BrowseEntryView| row_matches(row, typed);
    let rows = list.map_values(shown);
    if list.len() == 0 {
        assert(matching_snippets(list, typed).map_values(shown) =~= rows.filter(keeps));
    } else {
        let front = list.drop_last();
        lemma_snippets_filtered(front, typed);
        assert(rows.drop_last() =~= front.map_values(shown));
        assert(rows.last() == BrowseEntryView::Snippet(list.last()));
        let low = text::lowercase(typed);
        let whole = text::lowercase(list.last().name);
        if text::occurs(whole, low) {
            let at = choose|at: int| text::stands_at(whole, low, at);
            assert(whole =~= whole.take(at) + low + whole.skip(at + low.len()));
        }
        if row_matches(rows.last(), typed) {
            let (a, b) = choose|a: Seq<char>, b: Seq<char>| whole == #[trigger] (a + low + b);
            assert(whole.subrange(a.len() as int, (a.len() + low.len()) as int) =~= low);
            assert(text::stands_at(whole, low, a.len() as int));
        }
        assert(matching_snippets(front, typed).push(list.last()).map_values(shown)
            =~= matching_snippets(front, typed).map_values(shown).push(rows.last()));
    }
}

/// What is typed narrows the rows: of all children and snippets of the node, in
/// their order, the children whose names begin with it and the snippets whose
/// names hold it are left, letter case aside.
pub proof fn law_typing_narrows_the_rows(node: DirNode, typed: Seq<char>)
    requires
        typed.len() > 0,
    ensures
        visible_of(Some(node), typed) == (child_names(node).map_values(
            |name: Seq<char>| BrowseEntryView::Directory(name),
        ) + snippet_views(node.snippets@).map_values(
            |s: BrowseSnippetView| BrowseEntryView::Snippet(s),
        )).filter(|row: BrowseEntryView| row_matches(row, typed)),
{
    lemma_names_filtered(child_names(node), typed);
    lemma_snippets_filtered(snippet_views(node.snippets@), typed);
    Seq::filter_distributes_over_add(
        child_names(node).map_values(|name: Seq<char>| BrowseEntryView::Directory(name)),
        snippet_views(node.snippets@).map_values(
            |s: BrowseSnippetView| BrowseEntryView::Snippet(s),
        ),
        |row: BrowseEntryView| row_matches(row, typed),
    );
}

/// A snippet is among the rows if and only if it lies at the node and its name
/// holds what was typed, letter case aside.
pub proof fn law_shown_snippets_hold_what_was_typed(
    node: DirNode,
    typed: Seq<char>,
    s: BrowseSnippetView,
)
    requires
        typed.len() > 0,
    ensures
        visible_of(Some(node), typed).contains(BrowseEntryView::Snippet(s)) <==> {
            &&& snippet_views(node.snippets@).contains(s)
            &&& exists|a: Seq<char>, b: Seq<char>|
                text::lowercase(s.name) == #[trigger] (a + text::lowercase(typed) + b)
        },
{
    let names = child_names(node).map_values(|name: Seq<char>| BrowseEntryView::Directory(name));
    let list = snippet_views(node.snippets@);
    let snippets = list.map_values(|s: BrowseSnippetView| BrowseEntryView::Snippet(s));
    let all = names + snippets;
    let keeps = |row: BrowseEntryView| row_matches(row, typed);
    let row = BrowseEntryView::Snippet(s);
    let shown = visible_of(Some(node), typed);
    law_typing_narrows_the_rows(node, typed);
    assert(shown == all.filter(keeps));
    if shown.contains(row) {
        let k = shown.index_of(row);
        all.lemma_filter_pred(keeps, k);
        lemma_filtered_was_there(all, keeps, k);
        let j = all.index_of(row);
        assert(all[j] == row);
        assert(j >= names.len());
        assert(list[j - names.len()] == s);
    }
    if list.contains(s) && row_matches(row, typed) {
        let j = list.index_of(s);
        assert(all[names.len() + j] == row);
        all.lemma_filter_contains(keeps, names.len() + j);
    }
}

proof fn lemma_filtered_was_there<A>(s: Seq<A>, keeps: spec_fn(A) -> bool, k: int)
    requires
        0 <= k < s.filter(keeps).len(),
    ensures
        s.contains(s.filter(keeps)[k]),
    decreases s.len(),
{
    reveal(Seq::filter);
    let front = s.drop_last();
    if k < front.filter(keeps).len() {
        lemma_filtered_was_there(front, keeps, k);
        let j = front.index_of(front.filter(keeps)[k]);
        assert(s[j] == s.filter(keeps)[k]);
    } else {
        assert(s[s.len() - 1] == s.filter(keeps)[k]);
    }
}

proof fn lemma_here_comes_from(items: Seq<ItemView>, k: int) -> (i: int)
    requires
        0 <= k < here(items).len(),
    ensures
        0 <= i < items.len(),
        items[i].dir.len() == 0,
        items[i].snippet == here(items)[k],
    decreases items.len(),
{
    let front = items.drop_last();
    if k < here(front).len() {
        let i = lemma_here_comes_from(front, k);
        assert(front[i] == items[i]);
        i
    } else {
        items.len() - 1
    }
}

proof fn lemma_below_comes_from(items: Seq<ItemView>, name: Seq<char>, k: int) -> (i: int)
    requires
        0 <= k < below(items, name).len(),
    ensures
        0 <= i < items.len(),
        items[i].dir == seq![name] + below(items, name)[k].dir,
        items[i].snippet == below(items, name)[k].snippet,
    decreases items.len(),
{
    let front = items.drop_last();
    if k < below(front, name).len() {
        let i = lemma_below_comes_from(front, name, k);
        assert(front[i] == items[i]);
        i
    } else {
        let dir = items.last().dir;
        assert(dir =~= seq![name] + dir.skip(1));
        items.len() - 1
    }
}

/// What stands in the tree at the end of some names is a snippet that these names
/// lead to, and nothing else.
pub proof fn law_nodes_hold_only_their_snippets(
    node: DirNode,
    items: Seq<ItemView>,
    path: Seq<Seq<char>>,
    s: BrowseSnippetView,
)
    requires
        node_of(node, items),
        node_at(node, path) is Some,
        snippet_views(node_at(node, path)->0.snippets@).contains(s),
    ensures
        exists|i: int|
            0 <= i < items.len() && (#[trigger] items[i]).dir == path && items[i].snippet == s,
    decreases path.len(),
{
    if path.len() == 0 {
        broadcast use vstd::seq_lib::group_to_multiset_ensures;

        law_by_name_orders(here(items));
        assert(by_name(here(items)).to_multiset().contains(s));
        assert(here(items).contains(s));
        let i = lemma_here_comes_from(items, here(items).index_of(s));
        assert(items[i].dir =~= path);
    } else {
        let child = child_of(node.children@, path[0])->0;
        let c = lemma_child_is_there(node.children@, path[0]);
        let lower = below(items, path[0]);
        law_nodes_hold_only_their_snippets(child, lower, path.skip(1), s);
        let k = choose|k: int|
            0 <= k < lower.len() && (#[trigger] lower[k]).dir == path.skip(1) && lower[k].snippet
                == s;
        let i = lemma_below_comes_from(items, path[0], k);
        assert(items[i].dir =~= path);
    }
}

proof fn lemma_child_is_there(children: Seq<(String, DirNode)>, name: Seq<char>) -> (i: int)
    requires
        child_of(children, name) is Some,
    ensures
        0 <= i < children.len(),
        children[i].0@ == name,
        child_of(children, name) == Some(children[i].1),
    decreases children.len(),
{
    if children[0].0@ == name {
        0
    } else {
        let i = lemma_child_is_there(children.skip(1), name);
        i + 1
    }
}

/// Whether two texts agree in their first `n` characters, letter case aside.
pub open spec fn agree(a: Seq<char>, b: Seq<char>, n: int) -> bool {
    &&& n <= a.len()
    &&& n <= b.len()
    &&& forall|i: int|
        0 <= i < n ==> text::char_lowercase(#[trigger] a[i]) == text::char_lowercase(b[i])
}

proof fn lemma_common_len(a: Seq<char>, b: Seq<char>)
    ensures
        agree(a, b, common_len(a, b) as int),
        !agree(a, b, common_len(a, b) as int + 1),
    decreases a.len(),
{
    if a.len() > 0 && b.len() > 0 && text::char_lowercase(a[0]) == text::char_lowercase(b[0]) {
        let x = a.skip(1);
        let y = b.skip(1);
        let n = common_len(x, y) as int;
        lemma_common_len(x, y);
        assert forall|i: int| 0 <= i < n + 1 implies text::char_lowercase(#[trigger] a[i])
            == text::char_lowercase(b[i]) by {
            if i > 0 {
                assert(text::char_lowercase(x[i - 1]) == text::char_lowercase(y[i - 1]));
            }
        }
        if agree(a, b, n + 2) {
            assert forall|i: int| 0 <= i < n + 1 implies text::char_lowercase(#[trigger] x[i])
                == text::char_lowercase(y[i]) by {
                assert(text::char_lowercase(a[i + 1]) == text::char_lowercase(b[i + 1]));
            }
            assert(agree(x, y, n + 1));
        }
    } else if agree(a, b, 1) {
        assert(text::char_lowercase(a[0]) == text::char_lowercase(b[0]));
    }
}

/// The common front of names is the front of the first one that all names agree
/// with, letter case aside, and the next character of it some name does not have.
pub proof fn law_common_front_is_the_longest(names: Seq<Seq<char>>)
    requires
        names.len() > 0,
    ensures
        common_prefix(names).is_prefix_of(names[0]),
        forall|i: int|
            0 <= i < names.len() ==> agree(
                names[0],
                #[trigger] names[i],
                common_prefix(names).len() as int,
            ),
        exists|i: int|
            0 <= i < names.len() && !agree(
                names[0],
                #[trigger] names[i],
                common_prefix(names).len() as int + 1,
            ),
    decreases names.len(),
{
    let out = common_prefix(names);
    if names.len() == 1 {
        assert(names[0].is_prefix_of(names[0]));
        assert(!agree(names[0], names[0], out.len() as int + 1));
    } else {
        let front = names.drop_last();
        let before = common_prefix(front);
        let last = names.last();
        law_common_front_is_the_longest(front);
        lemma_common_len(before, last);
        let n = common_len(before, last) as int;
        assert(out == before.take(n));
        assert(out.is_prefix_of(names[0])) by {
            assert(before =~= names[0].take(before.len() as int));
            assert(out =~= names[0].take(n));
        }
        assert forall|i: int| 0 <= i < names.len() implies agree(
            names[0],
            #[trigger] names[i],
            out.len() as int,
        ) by {
            if i < front.len() {
                assert(front[i] == names[i]);
                assert(agree(front[0], front[i], before.len() as int));
            } else {
                assert forall|k: int| 0 <= k < n implies text::char_lowercase(
                    #[trigger] names[0][k],
                ) == text::char_lowercase(last[k]) by {
                    assert(before[k] == names[0][k]);
                }
            }
        }
        if n < before.len() {
            assert(!agree(names[0], names[names.len() - 1], n + 1)) by {
                if agree(names[0], last, n + 1) {
                    assert forall|k: int| 0 <= k < n + 1 implies text::char_lowercase(
                        #[trigger] before[k],
                    ) == text::char_lowercase(last[k]) by {
                        assert(before[k] == names[0][k]);
                    }
                    assert(agree(before, last, n + 1));
                }
            }
        } else {
            let i = choose|i: int|
                0 <= i < front.len() && !agree(front[0], #[trigger] front[i], before.len() as int + 1);
            assert(names[i] == front[i]);
            assert(!agree(names[0], names[i], out.len() as int + 1));
        }
    }
}

/// A child is among the rows if and only if its name begins with what was typed,
/// letter case aside.
pub proof fn law_matching_names_begin_with_what_was_typed(
    names: Seq<Seq<char>>,
    typed: Seq<char>,
    name: Seq<char>,
)
    requires
        typed.len() > 0,
    ensures
        matching_names(names, typed).contains(name) <==> names.contains(name) && exists|
            rest: Seq<char>,
        |
            text::lowercase(name) == #[trigger] (text::lowercase(typed) + rest),
    decreases names.len(),
{
    let shown = matching_names(names, typed);
    if names.len() > 0 {
        let front = names.drop_last();
        let before = matching_names(front, typed);
        law_matching_names_begin_with_what_was_typed(front, typed, name);
        let low = text::lowercase(typed);
        let whole = text::lowercase(names.last());
        if low.is_prefix_of(whole) {
            assert(whole =~= low + whole.skip(low.len() as int));
        }
        if exists|rest: Seq<char>| whole == #[trigger] (low + rest) {
            let rest = choose|rest: Seq<char>| whole == #[trigger] (low + rest);
            assert(whole.subrange(0, low.len() as int) =~= low);
            assert(low.is_prefix_of(whole));
        }
        if before.contains(name) {
            let k = before.index_of(name);
            assert(shown[k] == name);
        }
        if front.contains(name) {
            let k = front.index_of(name);
            assert(names[k] == name);
        }
        if shown.contains(name) && !before.contains(name) {
            let k = shown.index_of(name);
            if k < before.len() {
                assert(before[k] == name);
            }
            assert(names[names.len() - 1] == name);
        }
        if names.contains(name) && !front.contains(name) {
            let k = names.index_of(name);
            if k < front.len() {
                assert(front[k] == name);
            }
            assert(names.last() == name);
            if low.is_prefix_of(whole) {
                assert(shown[shown.len() - 1] == name);
            }
        }
    }
}

/// Completion enters the only child whose name begins with what was typed. Of
/// several it types their common front where that is longer, and stays. Where
/// there is none nothing changes.
pub proof fn law_completion_goes_as_far_as_it_is_clear(
    state: BrowseStateView,
    tree: BrowseTree,
    node: DirNode,
)
    requires
        node_at(tree.root_node(), state.path) == Some(node),
    ensures
        ({
            let names = matching_names(child_names(node), state.input);
            let after = state.completed(tree);
            &&& names.len() == 0 ==> after == state
            &&& names.len() == 1 ==> after.path == state.path + seq![names[0]]
                && after.input.len() == 0 && after.selection == Some(0usize)
            &&& names.len() > 1 ==> after.path == state.path && (after == state || after.input
                == common_prefix(names))
            &&& names.len() > 1 && line_edit::byte_len(common_prefix(names)) > line_edit::byte_len(
                state.input,
            ) ==> after.input == common_prefix(names)
        }),
{
    let names = matching_names(child_names(node), state.input);
    if names.len() == 1 {
        assert(state.path.push(names[0]) =~= state.path + seq![names[0]]);
    }
}

} // verus!
