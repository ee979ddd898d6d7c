//! The index of all snippets, in file order, with lookup by id and by tag.

use vstd::prelude::*;
use crate::domain;
use crate::domain::{Frontmatter, Snippet, SnippetFile, SnippetId};
use crate::text;
use crate::text_map::TextMap;

verus! {

broadcast use vstd::string::group_string_axioms;

/// Key of a group of snippets in the tags picker. The group of snippets
/// without tags is a variant of its own, so no tag can collide with it.
#[derive(Debug, PartialEq, Eq, PartialOrd, Ord, Hash)]
pub enum TagKey {
    /// A tag from the frontmatter of snippet files.
    Tag(String),
    /// The snippets whose file has no tags.
    Untagged,
}

/// What a [`TagKey`] holds.
pub enum TagKeyView {
    Tag(Seq<char>),
    Untagged,
}

impl View for TagKey {
    type V = TagKeyView;

    open spec fn view(&self) -> TagKeyView {
        match self {
            TagKey::Tag(tag) => TagKeyView::Tag(tag@),
            TagKey::Untagged => TagKeyView::Untagged,
        }
    }
}

impl Clone for TagKey {
    fn clone(&self) -> (out: Self)
        ensures
            out@ == self@,
            out == *self,
    {
        match self {
            TagKey::Tag(tag) => TagKey::Tag(tag.clone()),
            TagKey::Untagged => TagKey::Untagged,
        }
    }
}

impl TagKey {
    /// Whether two keys are the same.
    pub fn same(&self, other: &TagKey) -> (yes: bool)
        ensures
            yes == (self@ == other@),
    {
        match (self, other) {
            (TagKey::Tag(a), TagKey::Tag(b)) => text::same_text(a.as_str(), b.as_str()),
            (TagKey::Untagged, TagKey::Untagged) => true,
            _ => false,
        }
    }
}

/// A snippet together with what its file says about it.
pub struct IndexedSnippet {
    /// Where the file is on disk.
    pub path: String,
    /// The parsed snippet.
    pub snippet: Snippet,
    /// Path below the snippet root.
    pub relative_path: String,
    /// Metadata shared by all snippets of the file.
    pub frontmatter: Frontmatter,
}

/// What an [`IndexedSnippet`] holds.
pub struct EntryView {
    pub path: Seq<char>,
    pub snippet: domain::SnippetView,
    pub relative_path: Seq<char>,
    pub frontmatter: domain::FrontmatterView,
}

impl View for IndexedSnippet {
    type V = EntryView;

    open spec fn view(&self) -> EntryView {
        EntryView {
            path: self.path@,
            snippet: self.snippet@,
            relative_path: self.relative_path@,
            frontmatter: self.frontmatter@,
        }
    }
}

impl IndexedSnippet {
    /// Where the file is on disk.
    pub fn path(&self) -> (s: &str)
        ensures
            s@ == self@.path,
    {
        self.path.as_str()
    }

    /// The snippet's id.
    pub fn id(&self) -> (id: &SnippetId)
        ensures
            id@ == self@.snippet.id,
            *id == self.snippet.id,
    {
        &self.snippet.id
    }

    /// The snippet's heading.
    pub fn name(&self) -> (s: &str)
        ensures
            s@ == self@.snippet.name,
    {
        self.snippet.name.as_str()
    }

    /// The snippet's command.
    pub fn body(&self) -> (s: &str)
        ensures
            s@ == self@.snippet.body,
    {
        self.snippet.body.as_str()
    }

    /// The prose above the snippet's command.
    pub fn description(&self) -> (s: &str)
        ensures
            s@ == self@.snippet.description,
    {
        self.snippet.description.as_str()
    }

    /// The tags of the snippet's file.
    pub fn tags(&self) -> (tags: &Vec<String>)
        ensures
            text::texts(tags@) == self@.frontmatter.tags,
    {
        &self.frontmatter.tags
    }

    /// The language tag of the snippet's code block.
    pub fn language(&self) -> (s: Option<&str>)
        ensures
            match s {
                Some(l) => self@.snippet.language == Some(l@),
                None => self@.snippet.language is None,
            },
    {
        match &self.snippet.language {
            Some(l) => Some(l.as_str()),
            None => None,
        }
    }

    /// The path below the root, written with slashes.
    pub fn relative_path_display(&self) -> (s: String)
        ensures
            s@ == display_path(self@.relative_path),
    {
        proof {
            reveal_strlit("/");
            assert("/"@ =~= seq!['/']);
        }
        text::replace_char(self.relative_path.as_str(), '\\', "/")
    }
}

/// A path with each backslash written as a slash.
pub open spec fn display_path(path: Seq<char>) -> Seq<char> {
    text::replace_char_of(path, '\\', seq!['/'])
}

/// What the entries of a list hold.
pub open spec fn entry_views(entries: Seq<IndexedSnippet>) -> Seq<EntryView> {
    entries.map_values(|e: IndexedSnippet| e@)
}

/// The ids of entries.
pub open spec fn entry_ids(entries: Seq<EntryView>) -> Seq<Seq<char>> {
    entries.map_values(|e: EntryView| e.snippet.id)
}

/// The entries after the first `n` snippets of a file were put in: each whose
/// id is not there yet goes behind the others.
pub open spec fn inserted(
    entries: Seq<EntryView>,
    path: Seq<char>,
    relative_path: Seq<char>,
    frontmatter: domain::FrontmatterView,
    snippets: Seq<domain::SnippetView>,
) -> Seq<EntryView>
    decreases snippets.len(),
{
    if snippets.len() == 0 {
        entries
    } else {
        let before = inserted(entries, path, relative_path, frontmatter, snippets.drop_last());
        if entry_ids(before).contains(snippets.last().id) {
            before
        } else {
            before.push(EntryView { path, snippet: snippets.last(), relative_path, frontmatter })
        }
    }
}

/// What the snippets of a list hold.
pub open spec fn snippet_views(snippets: Seq<Snippet>) -> Seq<domain::SnippetView> {
    snippets.map_values(|s: Snippet| s@)
}

/// The entries after a file was put in.
pub open spec fn with_file(entries: Seq<EntryView>, file: SnippetFile) -> Seq<EntryView> {
    inserted(
        entries,
        file.path@,
        file.relative_path@,
        file.frontmatter@,
        snippet_views(file.snippets@),
    )
}

/// The entries after the files were put in one behind the other.
pub open spec fn with_files(entries: Seq<EntryView>, files: Seq<SnippetFile>) -> Seq<EntryView>
    decreases files.len(),
{
    if files.len() == 0 {
        entries
    } else {
        with_file(with_files(entries, files.drop_last()), files.last())
    }
}

/// All snippets in the order in which they were put in. No id occurs twice:
/// the first snippet with an id wins.
pub struct SnippetIndex {
    entries: Vec<IndexedSnippet>,
}

impl View for SnippetIndex {
    type V = Seq<EntryView>;

    closed spec fn view(&self) -> Seq<EntryView> {
        entry_views(self.entries@)
    }
}

/// The first entry with an id.
pub open spec fn entry_of(entries: Seq<EntryView>, id: Seq<char>) -> Option<EntryView>
    decreases entries.len(),
{
    if entries.len() == 0 {
        None
    } else if entries[0].snippet.id == id {
        Some(entries[0])
    } else {
        entry_of(entries.skip(1), id)
    }
}

impl SnippetIndex {
    #[verifier::type_invariant]
    closed spec fn distinct(&self) -> bool {
        entry_ids(entry_views(self.entries@)).no_duplicates()
    }

    /// The index without snippets.
    pub fn new() -> (index: Self)
        ensures
            index@ == Seq::<EntryView>::empty(),
    {
        let index = SnippetIndex { entries: Vec::new() };
        assert(index@ =~= Seq::<EntryView>::empty());
        index
    }

    /// The index of the snippets of `files`.
    pub fn from_files(files: Vec<SnippetFile>) -> (index: Self)
        ensures
            index@ == with_files(Seq::empty(), files@),
            entry_ids(index@).no_duplicates(),
    {
        let mut index = SnippetIndex::new();
        let mut rest = files;
        let ghost all = files@;
        let n: usize = rest.len();
        let mut i: usize = 0;
        assert(all.skip(0) =~= all);
        assert(all.take(0) =~= Seq::<SnippetFile>::empty());
        while i < n
            invariant
                i <= n == all.len(),
                rest@ == all.skip(i as int),
                index@ == with_files(Seq::empty(), all.take(i as int)),
            decreases n - i,
        {
            let file = rest.remove(0);
            assert(all.skip(i as int).remove(0) =~= all.skip(i + 1));
            assert(all.take(i + 1).drop_last() =~= all.take(i as int));
            index.insert_file(file);
            i = i + 1;
        }
        assert(all.take(n as int) =~= all);
        proof {
            use_type_invariant(&index);
        }
        index
    }

    /// Puts in the snippets of `file` whose ids are not there yet.
    pub fn insert_file(&mut self, file: SnippetFile)
        ensures
            final(self)@ == with_file(old(self)@, file),
            entry_ids(final(self)@).no_duplicates(),
    {
        proof {
            use_type_invariant(&*self);
        }
        let ghost start = self@;
        let SnippetFile { path, relative_path, frontmatter, snippets } = file;
        let ghost all = snippet_views(snippets@);
        let mut rest = snippets;
        let n: usize = rest.len();
        let mut entries: Vec<IndexedSnippet> = Vec::new();
        std::mem::swap(&mut entries, &mut self.entries);
        let mut i: usize = 0;
        assert(snippets@.skip(0) =~= snippets@);
        assert(all.take(0) =~= Seq::<domain::SnippetView>::empty());
        while i < n
            invariant
                i <= n == snippets@.len(),
                all == snippet_views(snippets@),
                rest@ == snippets@.skip(i as int),
                entry_views(entries@) == inserted(
                    start,
                    path@,
                    relative_path@,
                    frontmatter@,
                    all.take(i as int),
                ),
                entry_ids(entry_views(entries@)).no_duplicates(),
            decreases n - i,
        {
            let ghost before = entry_views(entries@);
            let snippet = rest.remove(0);
            assert(snippets@.skip(i as int).remove(0) =~= snippets@.skip(i + 1));
            assert(all.take(i + 1).drop_last() =~= all.take(i as int));
            assert(all.take(i + 1).last() == snippet@);
            let known = position_of(&entries, &snippet.id);
            if known.is_none() {
                let entry = IndexedSnippet {
                    path: path.clone(),
                    snippet,
                    relative_path: relative_path.clone(),
                    frontmatter: frontmatter.clone(),
                };
                proof {
                    assert(entry_views(entries@.push(entry)) =~= before.push(entry@));
                    assert(entry_ids(before.push(entry@)) =~= entry_ids(before).push(
                        entry@.snippet.id,
                    ));
                    let ids = entry_ids(before);
                    assert forall|a: int, b: int|
                        0 <= a < ids.len() + 1 && 0 <= b < ids.len() + 1 && a != b implies ids.push(
                        entry@.snippet.id,
                    )[a] != ids.push(entry@.snippet.id)[b] by {
                        if a < ids.len() {
                            assert(ids.contains(ids[a]));
                        }
                        if b < ids.len() {
                            assert(ids.contains(ids[b]));
                        }
                    }
                }
                entries.push(entry);
            }
            i = i + 1;
        }
        assert(all.take(n as int) =~= all);
        self.entries = entries;
    }

    /// How many snippets there are.
    pub fn len(&self) -> (n: usize)
        ensures
            n == self@.len(),
    {
        self.entries.len()
    }

    /// Whether there is no snippet.
    pub fn is_empty(&self) -> (yes: bool)
        ensures
            yes == (self@.len() == 0),
    {
        self.entries.len() == 0
    }

    /// The snippets in order.
    pub fn as_slice(&self) -> (entries: &[IndexedSnippet])
        ensures
            entry_views(entries@) == self@,
    {
        self.entries.as_slice()
    }

    /// The snippets in order.
    pub fn iter(&self) -> (entries: std::slice::Iter<'_, IndexedSnippet>)
        ensures
            entry_views(vstd::std_specs::iter::IteratorSpec::remaining(&entries).unref()) == self@,
    {
        let entries = self.entries.as_slice().iter();
        assert(vstd::std_specs::iter::IteratorSpec::remaining(&entries).unref() =~= self.entries@);
        entries
    }

    /// The snippet at place `i`.
    pub fn at(&self, i: usize) -> (entry: &IndexedSnippet)
        requires
            i < self@.len(),
        ensures
            entry@ == self@[i as int],
    {
        &self.entries[i]
    }

    /// The snippet with an id.
    pub fn get(&self, id: &SnippetId) -> (entry: Option<&IndexedSnippet>)
        ensures
            match entry {
                Some(e) => entry_of(self@, id@) == Some(e@) && e@.snippet.id == id@,
                None => entry_of(self@, id@) is None,
            },
    {
        match position_of(&self.entries, id) {
            Some(i) => Some(&self.entries[i]),
            None => None,
        }
    }

    /// The snippets grouped by tag; those without tags have a group of their
    /// own. A snippet stands once in the group of each of its tags.
    pub fn tag_index(&self) -> (tags: TagIndex)
        ensures
            tags.groups(self@),
    {
        let mut out = TagIndex::new();
        let mut i: usize = 0;
        assert(self@.take(0) =~= Seq::<EntryView>::empty());
        proof {
            lemma_no_groups(out);
        }
        while i < self.entries.len()
            invariant
                i <= self.entries@.len(),
                self@.len() == self.entries@.len(),
                out.groups(self@.take(i as int)),
            decreases self.entries@.len() - i,
        {
            let entry = &self.entries[i];
            let ghost before = self@.take(i as int);
            let ghost after = self@.take(i + 1);
            assert(after.drop_last() =~= before);
            assert(after.last() == entry@);
            out.add_entry(entry, Ghost(before));
            assert(before.push(entry@) =~= after);
            i = i + 1;
        }
        assert(self@.take(self@.len() as int) =~= self@);
        out
    }
}

/// Where the first entry with an id stands.
fn position_of(entries: &Vec<IndexedSnippet>, id: &SnippetId) -> (found: Option<usize>)
    ensures
        match found {
            Some(i) => {
                &&& i < entries@.len()
                &&& entries@[i as int]@.snippet.id == id@
                &&& entry_of(entry_views(entries@), id@) == Some(entries@[i as int]@)
                &&& entry_ids(entry_views(entries@)).contains(id@)
            },
            None => entry_of(entry_views(entries@), id@) is None && !entry_ids(
                entry_views(entries@),
            ).contains(id@),
        },
{
    let ghost views = entry_views(entries@);
    let mut i: usize = 0;
    assert(views.skip(0) =~= views);
    while i < entries.len()
        invariant
            i <= entries@.len(),
            views == entry_views(entries@),
            entry_of(views.skip(i as int), id@) == entry_of(views, id@),
            forall|j: int| 0 <= j < i ==> #[trigger] views[j].snippet.id != id@,
        decreases entries@.len() - i,
    {
        assert(views[i as int] == entries@[i as int]@);
        if entries[i].snippet.id.same(id) {
            assert(entry_ids(views)[i as int] == id@);
            return Some(i);
        }
        assert(views.skip(i as int).skip(1) =~= views.skip(i + 1));
        i = i + 1;
    }
    assert forall|j: int| 0 <= j < entry_ids(views).len() implies entry_ids(views)[j] != id@ by {
        assert(views[j].snippet.id != id@);
    }
    None
}

/// What an entry that may be missing holds.
pub open spec fn optional_entry(entry: Option<&IndexedSnippet>) -> Option<EntryView> {
    match entry {
        Some(e) => Some(e@),
        None => None,
    }
}

/// The ids of the entries that carry a key, in order.
pub open spec fn tagged(entries: Seq<EntryView>, key: TagKeyView) -> Seq<Seq<char>>
    decreases entries.len(),
{
    if entries.len() == 0 {
        Seq::empty()
    } else if carries(entries.last(), key) {
        tagged(entries.drop_last(), key).push(entries.last().snippet.id)
    } else {
        tagged(entries.drop_last(), key)
    }
}

/// Whether an entry belongs to the group of a key.
pub open spec fn carries(entry: EntryView, key: TagKeyView) -> bool {
    match key {
        TagKeyView::Tag(tag) => entry.frontmatter.tags.contains(tag),
        TagKeyView::Untagged => entry.frontmatter.tags.len() == 0,
    }
}

/// The groups of snippet ids: one for each tag in alphabetical order, then
/// the one of snippets without tags.
pub struct TagIndex {
    tags: TextMap<Vec<SnippetId>>,
    untagged: Vec<SnippetId>,
}

impl TagIndex {
    /// The ids kept under a key; `None` where there is no such group.
    pub closed spec fn ids(&self, key: TagKeyView) -> Option<Seq<Seq<char>>> {
        match key {
            TagKeyView::Tag(tag) => if self.tags@.contains_key(tag) {
                Some(domain::id_texts(self.tags@[tag]@))
            } else {
                None
            },
            TagKeyView::Untagged => if self.untagged@.len() > 0 {
                Some(domain::id_texts(self.untagged@))
            } else {
                None
            },
        }
    }

    /// The keys in order.
    pub closed spec fn keys(&self) -> Seq<TagKeyView> {
        self.tags.keys().map_values(|tag: Seq<char>| TagKeyView::Tag(tag)) + if self.untagged@.len()
            > 0 {
            seq![TagKeyView::Untagged]
        } else {
            Seq::empty()
        }
    }

    /// Whether the groups are those of `entries`.
    pub open spec fn groups(&self, entries: Seq<EntryView>) -> bool {
        forall|key: TagKeyView|
            #[trigger] self.ids(key) == if tagged(entries, key).len() == 0 {
                None
            } else {
                Some(tagged(entries, key))
            }
    }

    /// Whether the keys are those of the groups, tags in alphabetical order and
    /// the group without tags last.
    pub open spec fn lists_groups(&self) -> bool {
        &&& tag_order(self.keys())
        &&& forall|key: TagKeyView| #[trigger] self.keys().contains(key) <==> self.ids(key) is Some
    }

    /// No groups.
    pub fn new() -> (index: TagIndex)
        ensures
            forall|key: TagKeyView| #[trigger] index.ids(key) is None,
            index.keys().len() == 0,
    {
        TagIndex { tags: TextMap::new(), untagged: Vec::new() }
    }

    /// The keys in order: tags alphabetically, then the group without tags.
    pub fn key_list(&self) -> (keys: Vec<TagKey>)
        ensures
            keys@.map_values(|k: TagKey| k@) == self.keys(),
            self.lists_groups(),
    {
        let n: usize = self.tags.len();
        proof {
            let names = self.tags.keys();
            let keys = self.keys();
            assert forall|key: TagKeyView| #[trigger] keys.contains(key) <==> self.ids(
                key,
            ) is Some by {
                match key {
                    TagKeyView::Tag(tag) => {
                        if names.contains(tag) {
                            assert(keys[names.index_of(tag)] == key);
                        }
                        if keys.contains(key) {
                            let i = keys.index_of(key);
                            assert(i < names.len());
                            assert(names[i] == tag);
                        }
                    },
                    TagKeyView::Untagged => {
                        if self.untagged@.len() > 0 {
                            assert(keys[names.len() as int] == key);
                        }
                    },
                }
            }
        }
        let mut out: Vec<TagKey> = Vec::new();
        let mut i: usize = 0;
        while i < n
            invariant
                i <= n == self.tags.keys().len(),
                out@.len() == i,
                forall|j: int|
                    0 <= j < i ==> #[trigger] out@[j]@ == TagKeyView::Tag(self.tags.keys()[j])
                        && self.tags@.contains_key(self.tags.keys()[j]),
            decreases n - i,
        {
            out.push(TagKey::Tag(self.tags.key_at(i).clone()));
            i = i + 1;
        }
        if self.untagged.len() > 0 {
            out.push(TagKey::Untagged);
        }
        assert(out@.map_values(|k: TagKey| k@) =~= self.keys());
        out
    }

    /// The ids kept under a key.
    pub fn get(&self, key: &TagKey) -> (ids: Option<&Vec<SnippetId>>)
        ensures
            match ids {
                Some(list) => self.ids(key@) == Some(domain::id_texts(list@)),
                None => self.ids(key@) is None,
            },
    {
        match key {
            TagKey::Tag(tag) => self.tags.get(tag.as_str()),
            TagKey::Untagged => if self.untagged.len() > 0 {
                Some(&self.untagged)
            } else {
                None
            },
        }
    }

    /// Whether there is a group of a key.
    pub fn contains_key(&self, key: &TagKey) -> (yes: bool)
        ensures
            yes == self.ids(key@) is Some,
    {
        self.get(key).is_some()
    }

    /// Keeps `ids` as the group of `tag`.
    pub fn insert(&mut self, tag: String, ids: Vec<SnippetId>)
        ensures
            forall|key: TagKeyView|
                #[trigger] final(self).ids(key) == if key == TagKeyView::Tag(tag@) {
                    Some(domain::id_texts(ids@))
                } else {
                    old(self).ids(key)
                },
    {
        self.tags.insert(tag, ids);
    }

    fn push(&mut self, tag: &str, id: &SnippetId)
        ensures
            forall|key: TagKeyView|
                #[trigger] final(self).ids(key) == if key == TagKeyView::Tag(tag@) {
                    Some(
                        (match old(self).ids(key) {
                            Some(ids) => ids,
                            None => Seq::empty(),
                        }).push(id@),
                    )
                } else {
                    old(self).ids(key)
                },
    {
        let mut ids: Vec<SnippetId> = match self.tags.get(tag) {
            Some(list) => domain::copy_ids(list),
            None => Vec::new(),
        };
        let ghost before = ids@;
        ids.push(id.clone());
        assert(domain::id_texts(ids@) =~= domain::id_texts(before).push(id@));
        assert(domain::id_texts(Seq::<SnippetId>::empty()) =~= Seq::<Seq<char>>::empty());
        self.tags.insert(tag.to_owned(), ids);
    }

    fn add_entry(&mut self, entry: &IndexedSnippet, Ghost(before): Ghost<Seq<EntryView>>)
        requires
            old(self).groups(before),
        ensures
            final(self).groups(before.push(entry@)),
    {
        let tags = entry.tags();
        let ghost after = before.push(entry@);
        assert(after.drop_last() =~= before);
        if tags.len() == 0 {
            let ghost old_untagged = self.untagged@;
            self.untagged.push(entry.id().clone());
            proof {
                assert(domain::id_texts(self.untagged@) =~= domain::id_texts(old_untagged).push(
                    entry@.snippet.id,
                ));
                assert forall|key: TagKeyView| #[trigger] self.ids(key) == if tagged(
                    after,
                    key,
                ).len() == 0 {
                    None
                } else {
                    Some(tagged(after, key))
                } by {
                    assert(old(self).ids(key) == if tagged(before, key).len() == 0 {
                        None
                    } else {
                        Some(tagged(before, key))
                    });
                    assert(domain::id_texts(Seq::<SnippetId>::empty()) =~= Seq::<Seq<char>>::empty());
                    if key is Untagged && old_untagged.len() == 0 {
                        assert(old_untagged =~= Seq::<SnippetId>::empty());
                        assert(tagged(before, key) =~= Seq::<Seq<char>>::empty());
                    }
                }
            }
            return ;
        }
        let ghost all = text::texts(tags@);
        let mut i: usize = 0;
        while i < tags.len()
            invariant
                i <= tags@.len(),
                tags@.len() > 0,
                all == text::texts(tags@),
                all == entry@.frontmatter.tags,
                after == before.push(entry@),
                after.drop_last() == before,
                forall|key: TagKeyView|
                    #[trigger] self.ids(key) == if key is Tag && all.take(i as int).contains(
                        key->Tag_0,
                    ) {
                        Some(tagged(before, key).push(entry@.snippet.id))
                    } else if tagged(before, key).len() == 0 {
                        None
                    } else {
                        Some(tagged(before, key))
                    },
            decreases tags@.len() - i,
        {
            let tag = &tags[i];
            let repeated = seen_before(tags, i);
            let ghost done = all.take(i as int);
            let ghost more = all.take(i + 1);
            assert(more =~= done.push(tag@));
            assert(more.last() == tag@);
            if !repeated {
                let ghost old_self = *self;
                self.push(tag.as_str(), entry.id());
                proof {
                    assert forall|key: TagKeyView| #[trigger] self.ids(key) == if key is Tag
                        && more.contains(key->Tag_0) {
                        Some(tagged(before, key).push(entry@.snippet.id))
                    } else if tagged(before, key).len() == 0 {
                        None
                    } else {
                        Some(tagged(before, key))
                    } by {
                        let _ = old_self.ids(key);
                        assert(tagged(before, key).len() == 0 ==> tagged(before, key) =~= Seq::<Seq<char>>::empty());
                        if key is Tag {
                            if more.contains(key->Tag_0) && key->Tag_0 != tag@ {
                                let k = more.index_of(key->Tag_0);
                                assert(done[k] == key->Tag_0);
                            }
                            if done.contains(key->Tag_0) {
                                let k = done.index_of(key->Tag_0);
                                assert(more[k] == key->Tag_0);
                            }
                            assert(more.contains(tag@)) by {
                                assert(more[i as int] == tag@);
                            }
                        }
                    }
                }
            } else {
                assert forall|t: Seq<char>| more.contains(t) == done.contains(t) by {
                    if more.contains(t) {
                        let k = more.index_of(t);
                        if k < i {
                            assert(done[k] == t);
                        }
                    }
                    if done.contains(t) {
                        let k = done.index_of(t);
                        assert(more[k] == t);
                    }
                }
            }
            i = i + 1;
        }
        assert(all.take(all.len() as int) =~= all);
        assert forall|key: TagKeyView| #[trigger] self.ids(key) == if tagged(after, key).len() == 0 {
            None
        } else {
            Some(tagged(after, key))
        } by {
            assert(after.last() == entry@);
            assert(carries(entry@, key) == (key is Tag && all.contains(key->Tag_0)));
        }
    }
}

/// Whether the tag at place `i` stands in the list before.
fn seen_before(tags: &Vec<String>, i: usize) -> (yes: bool)
    requires
        i < tags@.len(),
    ensures
        yes == text::texts(tags@).take(i as int).contains(tags@[i as int]@),
{
    let mut j: usize = 0;
    let ghost done = text::texts(tags@).take(i as int);
    while j < i
        invariant
            j <= i < tags@.len(),
            done == text::texts(tags@).take(i as int),
            forall|k: int| 0 <= k < j ==> #[trigger] done[k] != tags@[i as int]@,
        decreases i - j,
    {
        if text::same_text(tags[j].as_str(), tags[i].as_str()) {
            assert(done[j as int] == tags@[i as int]@);
            return true;
        }
        assert(done[j as int] == tags@[j as int]@);
        j = j + 1;
    }
    false
}

/// Tags come in alphabetical order, each once, and the group without tags last.
pub open spec fn tag_order(keys: Seq<TagKeyView>) -> bool {
    forall|i: int, j: int|
        0 <= i < j < keys.len() ==> match (#[trigger] keys[i], #[trigger] keys[j]) {
            (TagKeyView::Tag(a), TagKeyView::Tag(b)) => text::text_less(a, b),
            (TagKeyView::Tag(_), TagKeyView::Untagged) => true,
            (TagKeyView::Untagged, _) => false,
        }
}

proof fn lemma_no_groups(index: TagIndex)
    requires
        forall|key: TagKeyView| #[trigger] index.ids(key) is None,
    ensures
        index.groups(Seq::empty()),
{
}

/// In an index the entry with an id is the only one with it.
pub proof fn law_lookup_finds_the_only_entry(entries: Seq<EntryView>, i: int)
    requires
        entry_ids(entries).no_duplicates(),
        0 <= i < entries.len(),
    ensures
        entry_of(entries, entries[i].snippet.id) == Some(entries[i]),
    decreases entries.len(),
{
    assert(entry_ids(entries)[0] == entries[0].snippet.id);
    assert(entry_ids(entries)[i] == entries[i].snippet.id);
    if i > 0 {
        let rest = entries.skip(1);
        assert(entry_ids(rest) =~= entry_ids(entries).skip(1));
        assert forall|a: int, b: int|
            0 <= a < rest.len() && 0 <= b < rest.len() && a != b implies entry_ids(rest)[a]
            != entry_ids(rest)[b] by {
            assert(entry_ids(entries)[a + 1] != entry_ids(entries)[b + 1]);
        }
        law_lookup_finds_the_only_entry(rest, i - 1);
        assert(rest[i - 1] == entries[i]);
    }
}

/// What is in the index stays there, at its place, whatever files come later:
/// the first snippet with an id wins.
pub proof fn law_first_snippet_wins(
    entries: Seq<EntryView>,
    path: Seq<char>,
    relative_path: Seq<char>,
    frontmatter: domain::FrontmatterView,
    snippets: Seq<domain::SnippetView>,
)
    ensures
        entries.is_prefix_of(inserted(entries, path, relative_path, frontmatter, snippets)),
    decreases snippets.len(),
{
    if snippets.len() > 0 {
        law_first_snippet_wins(entries, path, relative_path, frontmatter, snippets.drop_last());
    }
}

/// Every snippet of a file can be found under its id after the file was put in.
pub proof fn law_every_snippet_is_found(
    entries: Seq<EntryView>,
    path: Seq<char>,
    relative_path: Seq<char>,
    frontmatter: domain::FrontmatterView,
    snippets: Seq<domain::SnippetView>,
    i: int,
)
    requires
        0 <= i < snippets.len(),
    ensures
        entry_ids(inserted(entries, path, relative_path, frontmatter, snippets)).contains(
            snippets[i].id,
        ),
    decreases snippets.len(),
{
    let before = inserted(entries, path, relative_path, frontmatter, snippets.drop_last());
    let after = inserted(entries, path, relative_path, frontmatter, snippets);
    if i < snippets.len() - 1 {
        law_every_snippet_is_found(
            entries,
            path,
            relative_path,
            frontmatter,
            snippets.drop_last(),
            i,
        );
        let k = entry_ids(before).index_of(snippets[i].id);
        assert(entry_ids(after)[k] == snippets[i].id);
    } else if !entry_ids(before).contains(snippets[i].id) {
        assert(entry_ids(after)[before.len() as int] == snippets[i].id);
    }
}

/// A snippet stands once under each of its tags, and nowhere else; one without
/// tags stands once in the group for those.
pub proof fn law_each_tag_lists_a_snippet_once(entries: Seq<EntryView>, key: TagKeyView, i: int)
    requires
        entry_ids(entries).no_duplicates(),
        0 <= i < entries.len(),
    ensures
        tagged(entries, key).no_duplicates(),
        tagged(entries, key).contains(entries[i].snippet.id) <==> carries(entries[i], key),
{
    lemma_tagged(entries, key);
    let ids = tagged(entries, key);
    let id = entries[i].snippet.id;
    assert(entry_ids(entries)[i] == id);
    if ids.contains(id) {
        let k = choose|k: int|
            0 <= k < entries.len() && carries(#[trigger] entries[k], key) && entries[k].snippet.id
                == id;
        assert(entry_ids(entries)[k] == id);
    }
}

/// The ids under a key are those of the entries that carry it, each once.
proof fn lemma_tagged(entries: Seq<EntryView>, key: TagKeyView)
    requires
        entry_ids(entries).no_duplicates(),
    ensures
        tagged(entries, key).no_duplicates(),
        forall|id: Seq<char>| #[trigger]
            tagged(entries, key).contains(id) ==> exists|k: int|
                0 <= k < entries.len() && carries(#[trigger] entries[k], key)
                    && entries[k].snippet.id == id,
        forall|k: int|
            0 <= k < entries.len() && carries(#[trigger] entries[k], key) ==> tagged(
                entries,
                key,
            ).contains(entries[k].snippet.id),
    decreases entries.len(),
{
    if entries.len() > 0 {
        let rest = entries.drop_last();
        let n = rest.len() as int;
        let before = tagged(rest, key);
        let after = tagged(entries, key);
        let last = entries.last().snippet.id;
        assert(entry_ids(rest) =~= entry_ids(entries).drop_last());
        assert(entry_ids(entries)[n] == last);
        lemma_tagged(rest, key);
        assert forall|id: Seq<char>| #[trigger] after.contains(id) implies exists|k: int|
            0 <= k < entries.len() && carries(#[trigger] entries[k], key) && entries[k].snippet.id
                == id by {
            let p = after.index_of(id);
            if p < before.len() {
                assert(before[p] == id);
                assert(before.contains(id));
                let k = choose|k: int|
                    0 <= k < rest.len() && carries(#[trigger] rest[k], key) && rest[k].snippet.id
                        == id;
                assert(entries[k] == rest[k]);
            } else {
                assert(carries(entries[n], key));
            }
        }
        assert forall|k: int|
            0 <= k < entries.len() && carries(#[trigger] entries[k], key) implies after.contains(
            entries[k].snippet.id,
        ) by {
            if k < n {
                assert(rest[k] == entries[k]);
                let p = before.index_of(entries[k].snippet.id);
                assert(after[p] == entries[k].snippet.id);
            } else {
                assert(after.last() == last);
            }
        }
        assert(!before.contains(last)) by {
            if before.contains(last) {
                let k = choose|k: int|
                    0 <= k < rest.len() && carries(#[trigger] rest[k], key) && rest[k].snippet.id
                        == last;
                assert(entry_ids(entries)[k] == last);
            }
        }
        assert forall|a: int, b: int|
            0 <= a < after.len() && 0 <= b < after.len() && a != b implies after[a]
            != after[b] by {
            if a < before.len() && b < before.len() {
                assert(before[a] != before[b]);
            } else if a < before.len() {
                assert(before.contains(before[a]));
            } else if b < before.len() {
                assert(before.contains(before[b]));
            }
        }
    }
}

/// The path that is shown is the path with slashes for backslashes.
pub proof fn law_paths_are_shown_with_slashes(path: Seq<char>)
    ensures
        display_path(path).len() == path.len(),
        forall|i: int|
            0 <= i < path.len() ==> #[trigger] display_path(path)[i] == (if path[i] == '\\' {
                '/'
            } else {
                path[i]
            }),
    decreases path.len(),
{
    if path.len() > 0 {
        law_paths_are_shown_with_slashes(path.drop_last());
    }
}

/// A file's first snippet with an id that no snippet had before is put in, with
/// the path and the frontmatter of its file.
pub proof fn law_new_snippets_are_put_in(
    entries: Seq<EntryView>,
    path: Seq<char>,
    relative_path: Seq<char>,
    frontmatter: domain::FrontmatterView,
    snippets: Seq<domain::SnippetView>,
    i: int,
)
    requires
        0 <= i < snippets.len(),
        !entry_ids(entries).contains(snippets[i].id),
        forall|j: int| 0 <= j < i ==> (#[trigger] snippets[j]).id != snippets[i].id,
    ensures
        inserted(entries, path, relative_path, frontmatter, snippets).contains(
            (EntryView { path, snippet: snippets[i], relative_path, frontmatter }),
        ),
    decreases snippets.len(),
{
    let front = snippets.drop_last();
    let before = inserted(entries, path, relative_path, frontmatter, front);
    let after = inserted(entries, path, relative_path, frontmatter, snippets);
    let entry = EntryView { path, snippet: snippets[i], relative_path, frontmatter };
    if i < front.len() {
        law_new_snippets_are_put_in(entries, path, relative_path, frontmatter, front, i);
        let k = before.index_of(entry);
        assert(after[k] == entry);
    } else {
        if entry_ids(before).contains(snippets[i].id) {
            let k = entry_ids(before).index_of(snippets[i].id);
            law_first_snippet_wins(entries, path, relative_path, frontmatter, front);
            if k < entries.len() {
                assert(entry_ids(entries)[k] == snippets[i].id);
            } else {
                law_nothing_else_is_put_in(entries, path, relative_path, frontmatter, front, k);
                let j = choose|j: int|
                    comes_from(before[k], path, relative_path, frontmatter, front, j);
                assert(snippets[j].id == snippets[i].id);
            }
        }
        assert(after[after.len() - 1] == entry);
    }
}

/// Whether an entry is the snippet of a file at a place.
pub open spec fn comes_from(
    entry: EntryView,
    path: Seq<char>,
    relative_path: Seq<char>,
    frontmatter: domain::FrontmatterView,
    snippets: Seq<domain::SnippetView>,
    at: int,
) -> bool {
    &&& 0 <= at < snippets.len()
    &&& entry.snippet == snippets[at]
    &&& entry.path == path
    &&& entry.relative_path == relative_path
    &&& entry.frontmatter == frontmatter
}

/// What a file adds to the index are snippets of the file.
pub proof fn law_nothing_else_is_put_in(
    entries: Seq<EntryView>,
    path: Seq<char>,
    relative_path: Seq<char>,
    frontmatter: domain::FrontmatterView,
    snippets: Seq<domain::SnippetView>,
    k: int,
)
    requires
        entries.len() <= k < inserted(entries, path, relative_path, frontmatter, snippets).len(),
    ensures
        exists|at: int|
            comes_from(
                inserted(entries, path, relative_path, frontmatter, snippets)[k],
                path,
                relative_path,
                frontmatter,
                snippets,
                at,
            ),
    decreases snippets.len(),
{
    if snippets.len() > 0 {
        let front = snippets.drop_last();
        let before = inserted(entries, path, relative_path, frontmatter, front);
        let after = inserted(entries, path, relative_path, frontmatter, snippets);
        if k < before.len() {
            law_nothing_else_is_put_in(entries, path, relative_path, frontmatter, front, k);
            let at = choose|at: int|
                comes_from(before[k], path, relative_path, frontmatter, front, at);
            assert(comes_from(after[k], path, relative_path, frontmatter, snippets, at));
        } else {
            let at = snippets.len() - 1;
            assert(comes_from(after[k], path, relative_path, frontmatter, snippets, at));
        }
    }
}

/// The snippets of a tag are those whose file names the tag, and those without
/// tags are those whose file names none, both in the order of the index.
pub proof fn law_tags_list_their_snippets_in_order(entries: Seq<EntryView>, tag: Seq<char>)
    ensures
        tagged(entries, TagKeyView::Tag(tag)) == entries.filter(
            |e: EntryView| e.frontmatter.tags.contains(tag),
        ).map_values(|e: EntryView| e.snippet.id),
        tagged(entries, TagKeyView::Untagged) == entries.filter(
            |e: EntryView| e.frontmatter.tags.len() == 0,
        ).map_values(|e: EntryView| e.snippet.id),
    decreases entries.len(),
{
    reveal(Seq::filter);
    let named = |e: EntryView| e.frontmatter.tags.contains(tag);
    let bare = |e: EntryView| e.frontmatter.tags.len() == 0;
    let id = |e: EntryView| e.snippet.id;
    if entries.len() > 0 {
        let front = entries.drop_last();
        law_tags_list_their_snippets_in_order(front, tag);
        assert(front.filter(named).push(entries.last()).map_values(id) =~= front.filter(
            named,
        ).map_values(id).push(entries.last().snippet.id));
        assert(front.filter(bare).push(entries.last()).map_values(id) =~= front.filter(
            bare,
        ).map_values(id).push(entries.last().snippet.id));
    } else {
        assert(tagged(entries, TagKeyView::Tag(tag)) =~= entries.filter(named).map_values(id));
        assert(tagged(entries, TagKeyView::Untagged) =~= entries.filter(bare).map_values(id));
    }
}

} // verus!
