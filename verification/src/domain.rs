//! The data of snippet files: ids, frontmatter, variables and snippets.

use vstd::prelude::*;
use crate::command_template;
use crate::command_template::Fragment;
use crate::text;
use crate::text_map::TextMap;

verus! {

broadcast use vstd::string::group_string_axioms;

/// Stable name of a snippet, of the form `relative/path.md#heading-slug`.
#[derive(Debug, PartialEq, Eq, Hash)]
pub struct SnippetId(String);

impl View for SnippetId {
    type V = Seq<char>;

    closed spec fn view(&self) -> Seq<char> {
        self.0@
    }
}

/// The text of an id: path and slug with one `#` between them.
pub open spec fn id_text(relative_path: Seq<char>, heading_slug: Seq<char>) -> Seq<char> {
    relative_path + seq!['#'] + heading_slug
}

/// The texts of a list of ids.
pub open spec fn id_texts(ids: Seq<SnippetId>) -> Seq<Seq<char>> {
    ids.map_values(|id: SnippetId| id@)
}

impl Clone for SnippetId {
    fn clone(&self) -> (id: Self)
        ensures
            id == *self,
            id@ == self@,
    {
        SnippetId(self.0.clone())
    }
}

impl SnippetId {
    /// The id of the section `heading_slug` of the file `relative_path`.
    /// Neither may hold a `#`, so that the `#` between them is the only one.
    pub fn new(relative_path: &str, heading_slug: &str) -> (id: SnippetId)
        requires
            !relative_path@.contains('#'),
            !heading_slug@.contains('#'),
        ensures
            id@ == id_text(relative_path@, heading_slug@),
    {
        let mut out = relative_path.to_owned();
        out.push('#');
        out.append(heading_slug);
        assert(out@ =~= id_text(relative_path@, heading_slug@));
        SnippetId(out)
    }

    /// The id that was written down as `text`.
    pub fn from_text(text: String) -> (id: SnippetId)
        ensures
            id@ == text@,
    {
        SnippetId(text)
    }

    /// The text of the id.
    pub fn as_str(&self) -> (s: &str)
        ensures
            s@ == self@,
    {
        self.0.as_str()
    }


    /// Whether two ids are the same.
    pub fn same(&self, other: &SnippetId) -> (yes: bool)
        ensures
            yes == (self@ == other@),
    {
        text::same_text(self.0.as_str(), other.0.as_str())
    }
}

/// A copy of a list of ids.
pub fn copy_ids(ids: &Vec<SnippetId>) -> (out: Vec<SnippetId>)
    ensures
        out@ == ids@,
{
    let mut out: Vec<SnippetId> = Vec::new();
    let mut i: usize = 0;
    while i < ids.len()
        invariant
            i <= ids@.len(),
            out@ == ids@.take(i as int),
        decreases ids@.len() - i,
    {
        out.push(ids[i].clone());
        assert(ids@.take(i as int).push(ids@[i as int]) =~= ids@.take(i + 1));
        i = i + 1;
    }
    assert(ids@.take(ids@.len() as int) =~= ids@);
    out
}

/// Reusable description of how a variable is filled, from a file's
/// frontmatter or from the configuration.
#[derive(Debug, PartialEq, Eq)]
pub struct VariableSpec {
    /// Text that the input starts with.
    pub default: Option<String>,
    /// Template of the value taken when nothing is typed.
    pub default_value: Option<String>,
    /// Fixed suggestions.
    pub suggestions: Vec<String>,
    /// Shell command that prints suggestions.
    pub command: Option<String>,
    /// Ghost text shown while the input is empty.
    pub hint: Option<String>,
}

/// What a [`VariableSpec`] holds.
pub struct VariableSpecView {
    pub default: Option<Seq<char>>,
    pub default_value: Option<Seq<char>>,
    pub suggestions: Seq<Seq<char>>,
    pub command: Option<Seq<char>>,
    pub hint: Option<Seq<char>>,
}

impl View for VariableSpec {
    type V = VariableSpecView;

    open spec fn view(&self) -> VariableSpecView {
        VariableSpecView {
            default: text::optional_text(self.default),
            default_value: text::optional_text(self.default_value),
            suggestions: text::texts(self.suggestions@),
            command: text::optional_text(self.command),
            hint: text::optional_text(self.hint),
        }
    }
}

impl Clone for VariableSpec {
    fn clone(&self) -> (out: Self)
        ensures
            out@ == self@,
    {
        VariableSpec {
            default: text::copy_optional(&self.default),
            default_value: text::copy_optional(&self.default_value),
            suggestions: text::copy_texts(&self.suggestions),
            command: text::copy_optional(&self.command),
            hint: text::copy_optional(&self.hint),
        }
    }
}

/// The descriptions kept under each variable name.
pub open spec fn spec_views(specs: Map<Seq<char>, VariableSpec>) -> Map<Seq<char>, VariableSpecView> {
    specs.map_values(|v: VariableSpec| v@)
}

/// A copy of a map of descriptions.
pub fn copy_specs(specs: &TextMap<VariableSpec>) -> (out: TextMap<VariableSpec>)
    ensures
        spec_views(out@) == spec_views(specs@),
{
    let mut out: TextMap<VariableSpec> = TextMap::new();
    let n: usize = specs.len();
    let mut i: usize = 0;
    while i < n
        invariant
            i <= n == specs.keys().len(),
            crate::text_map::strictly_sorted(specs.keys()),
            forall|k: Seq<char>| specs@.contains_key(k) == specs.keys().contains(k),
            forall|k: Seq<char>|
                #[trigger] out@.contains_key(k) <==> exists|j: int| 0 <= j < i && specs.keys()[j] == k,
            forall|k: Seq<char>| #[trigger] out@.contains_key(k) ==> out@[k]@ == specs@[k]@,
        decreases n - i,
    {
        let ghost before = out@;
        let key = specs.key_at(i);
        out.insert(key.clone(), specs.value_at(i).clone());
        proof {
            assert forall|k: Seq<char>| #[trigger] out@.contains_key(k) <==> exists|j: int|
                0 <= j < i + 1 && specs.keys()[j] == k by {
                if before.contains_key(k) {
                    let j = choose|j: int| 0 <= j < i && specs.keys()[j] == k;
                    assert(specs.keys()[j] == k);
                }
                if k == specs.keys()[i as int] {
                    assert(specs.keys()[i as int] == k);
                }
            }
        }
        i = i + 1;
    }
    assert forall|k: Seq<char>| #![auto] spec_views(out@).contains_key(k) == spec_views(specs@).contains_key(k) by {
        if specs.keys().contains(k) {
            let j = specs.keys().index_of(k);
            assert(specs.keys()[j] == k);
        }
        assert(out@.contains_key(k) <==> exists|j: int| 0 <= j < n && specs.keys()[j] == k);
    }
    assert(spec_views(out@) =~= spec_views(specs@));
    out
}

/// Optional metadata from the top of a snippet file.
pub struct Frontmatter {
    /// Title of the file.
    pub name: Option<String>,
    /// Short description of what the file holds.
    pub description: Option<String>,
    /// Tags that its snippets can be found by.
    pub tags: Vec<String>,
    /// Descriptions of variables used in the file.
    pub variables: TextMap<VariableSpec>,
}

/// What a [`Frontmatter`] holds.
pub struct FrontmatterView {
    pub name: Option<Seq<char>>,
    pub description: Option<Seq<char>>,
    pub tags: Seq<Seq<char>>,
    pub variables: Map<Seq<char>, VariableSpecView>,
}

impl View for Frontmatter {
    type V = FrontmatterView;

    open spec fn view(&self) -> FrontmatterView {
        FrontmatterView {
            name: text::optional_text(self.name),
            description: text::optional_text(self.description),
            tags: text::texts(self.tags@),
            variables: spec_views(self.variables@),
        }
    }
}

impl Default for Frontmatter {
    /// The frontmatter of a file without any.
    fn default() -> (out: Self)
        ensures
            out@ == (FrontmatterView {
                name: None,
                description: None,
                tags: Seq::empty(),
                variables: Map::empty(),
            }),
    {
        let out = Frontmatter {
            name: None,
            description: None,
            tags: Vec::new(),
            variables: TextMap::new(),
        };
        assert(text::texts(out.tags@) =~= Seq::<Seq<char>>::empty());
        assert(spec_views(out.variables@) =~= Map::<Seq<char>, VariableSpecView>::empty());
        out
    }
}

impl Clone for Frontmatter {
    fn clone(&self) -> (out: Self)
        ensures
            out@ == self@,
    {
        Frontmatter {
            name: text::copy_optional(&self.name),
            description: text::copy_optional(&self.description),
            tags: text::copy_texts(&self.tags),
            variables: copy_specs(&self.variables),
        }
    }
}

/// How a placeholder `<@name[:source]>` is filled.
#[derive(Debug, PartialEq, Eq)]
pub enum VariableSource {
    /// No inline source.
    Free,
    /// Shell command whose output lines are the suggestions.
    Command(String),
    /// Template of the text that the input starts with (`<@name:?default>`).
    Default(Vec<Fragment>),
    /// Ghost text shown while the input is empty (`<@name:@hint>`).
    Hint(String),
}

/// What a [`VariableSource`] holds.
pub enum VariableSourceView {
    Free,
    Command(Seq<char>),
    Default(Seq<command_template::FragmentView>),
    Hint(Seq<char>),
}

impl View for VariableSource {
    type V = VariableSourceView;

    open spec fn view(&self) -> VariableSourceView {
        match self {
            VariableSource::Free => VariableSourceView::Free,
            VariableSource::Command(c) => VariableSourceView::Command(c@),
            VariableSource::Default(t) => VariableSourceView::Default(
                command_template::fragments(t@),
            ),
            VariableSource::Hint(h) => VariableSourceView::Hint(h@),
        }
    }
}

/// One placeholder of a snippet body.
#[derive(Debug, PartialEq, Eq)]
pub struct Variable {
    /// Name under which the value is kept.
    pub name: String,
    /// Where suggestions or a default come from.
    pub source: VariableSource,
}

/// What a [`Variable`] holds.
pub struct VariableView {
    pub name: Seq<char>,
    pub source: VariableSourceView,
}

impl View for Variable {
    type V = VariableView;

    open spec fn view(&self) -> VariableView {
        VariableView { name: self.name@, source: self.source@ }
    }
}

/// What the variables of a list hold.
pub open spec fn variable_views(list: Seq<Variable>) -> Seq<VariableView> {
    list.map_values(|v: Variable| v@)
}

impl Clone for Variable {
    fn clone(&self) -> (out: Self)
        ensures
            out@ == self@,
    {
        let source = match &self.source {
            VariableSource::Free => VariableSource::Free,
            VariableSource::Command(c) => VariableSource::Command(c.clone()),
            VariableSource::Default(t) => {
                let copied = command_template::copy_template(t);
                VariableSource::Default(copied)
            },
            VariableSource::Hint(h) => VariableSource::Hint(h.clone()),
        };
        Variable { name: self.name.clone(), source }
    }
}

/// A named section with a fenced code block.
#[derive(Debug, PartialEq, Eq)]
pub struct Snippet {
    /// Name made of the file's relative path and the heading's slug.
    pub id: SnippetId,
    /// The heading's text.
    pub name: String,
    /// Prose between the heading and the code block.
    pub description: String,
    /// The body of the first code block under the heading.
    pub body: String,
    /// The placeholders of the body in order.
    pub variables: Vec<Variable>,
    /// Language tag of the code block.
    pub language: Option<String>,
}

/// What a [`Snippet`] holds.
pub struct SnippetView {
    pub id: Seq<char>,
    pub name: Seq<char>,
    pub description: Seq<char>,
    pub body: Seq<char>,
    pub variables: Seq<VariableView>,
    pub language: Option<Seq<char>>,
}

impl View for Snippet {
    type V = SnippetView;

    open spec fn view(&self) -> SnippetView {
        SnippetView {
            id: self.id@,
            name: self.name@,
            description: self.description@,
            body: self.body@,
            variables: variable_views(self.variables@),
            language: text::optional_text(self.language),
        }
    }
}

/// A parsed snippet file.
pub struct SnippetFile {
    /// Where the file is on disk.
    pub path: String,
    /// Path below the snippet root, from which ids are made.
    pub relative_path: String,
    /// Metadata from the top of the file.
    pub frontmatter: Frontmatter,
    /// The snippets in document order.
    pub snippets: Vec<Snippet>,
}

fn same_variable(a: &Variable, b: &Variable) -> (same: bool)
    ensures
        same == (a@ == b@),
{
    text::same_text(a.name.as_str(), b.name.as_str()) && match (&a.source, &b.source) {
        (VariableSource::Free, VariableSource::Free) => true,
        (VariableSource::Command(x), VariableSource::Command(y)) => text::same_text(
            x.as_str(),
            y.as_str(),
        ),
        (VariableSource::Default(x), VariableSource::Default(y)) => command_template::same_template(
            x,
            y,
        ),
        (VariableSource::Hint(x), VariableSource::Hint(y)) => text::same_text(
            x.as_str(),
            y.as_str(),
        ),
        _ => false,
    }
}

fn same_variables(a: &Vec<Variable>, b: &Vec<Variable>) -> (same: bool)
    ensures
        same == (variable_views(a@) == variable_views(b@)),
{
    let ghost x = variable_views(a@);
    let ghost y = variable_views(b@);
    assert(x.len() == a@.len() && y.len() == b@.len());
    if a.len() != b.len() {
        return false;
    }
    let mut i: usize = 0;
    while i < a.len()
        invariant
            i <= a@.len(),
            a@.len() == b@.len(),
            x == variable_views(a@),
            y == variable_views(b@),
            forall|k: int| 0 <= k < i ==> x[k] == y[k],
        decreases a@.len() - i,
    {
        assert(x[i as int] == a@[i as int]@);
        assert(y[i as int] == b@[i as int]@);
        if !same_variable(&a[i], &b[i]) {
            return false;
        }
        i = i + 1;
    }
    assert(x =~= y);
    true
}

/// Whether two snippets hold the same.
pub fn same_snippet(a: &Snippet, b: &Snippet) -> (same: bool)
    ensures
        same == (a@ == b@),
{
    let language = match (&a.language, &b.language) {
        (Some(x), Some(y)) => text::same_text(x.as_str(), y.as_str()),
        (None, None) => true,
        _ => false,
    };
    language && a.id.same(&b.id) && text::same_text(a.name.as_str(), b.name.as_str())
        && text::same_text(a.description.as_str(), b.description.as_str()) && text::same_text(
        a.body.as_str(),
        b.body.as_str(),
    ) && same_variables(&a.variables, &b.variables)
}

} // verus!
