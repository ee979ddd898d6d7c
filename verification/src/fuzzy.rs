//! Fuzzy search over snippets: a query's terms are matched against the fields
//! of a snippet, and what matches is scored.

use nucleo_matcher::pattern::{CaseMatching, Normalization};
use nucleo_matcher::{Config, Utf32Str};
use vstd::prelude::*;
use crate::config::FuzzyWeights;
use crate::domain;
use crate::index;
use crate::index::IndexedSnippet;
use crate::line_edit;
use crate::needle;
use crate::text;

verus! {

broadcast use vstd::string::group_string_axioms;

/// Scratch memory and settings of the matcher.
#[verifier::external_type_specification]
#[verifier::external_body]
pub struct ExMatcher(nucleo_matcher::Matcher);

/// For each term of a query, whether it excludes what it matches.
pub uninterp spec fn atom_signs(query: Seq<char>) -> Seq<bool>;

/// The score of a term of a query in a text, by the term's place.
pub uninterp spec fn atom_score(query: Seq<char>, at: nat, haystack: Seq<char>) -> Option<u16>;

/// The places of the characters of a text that the terms of a query matched,
/// term by term.
pub uninterp spec fn match_indices(query: Seq<char>, haystack: Seq<char>) -> Option<Seq<u32>>;

/// The scores of the first `n` terms together; none where one of them does not
/// match.
pub open spec fn score_sum(query: Seq<char>, n: nat, haystack: Seq<char>) -> Option<int>
    decreases n,
{
    if n == 0 {
        Some(0)
    } else {
        match (
            score_sum(query, (n - 1) as nat, haystack),
            atom_score(query, (n - 1) as nat, haystack),
        ) {
            (Some(before), Some(score)) => Some(before + score),
            _ => None,
        }
    }
}

/// `Matcher::new` with the default settings. Nothing is claimed of the result.
#[verifier::external_body]
fn new_matcher() -> (matcher: nucleo_matcher::Matcher) {
    nucleo_matcher::Matcher::new(Config::DEFAULT)
}

/// `Pattern::parse`, with letter case ignored and smart normalization: which
/// terms a query has, and which of them are negative. Claimed: this depends on
/// the query alone, and an empty query has no term.
#[verifier::external_body]
fn parse_signs(query: &str) -> (signs: Vec<bool>)
    ensures
        signs@ == atom_signs(query@),
        query@.len() == 0 ==> signs@.len() == 0,
{
    let pattern = nucleo_matcher::pattern::Pattern::parse(
        query,
        CaseMatching::Ignore,
        Normalization::Smart,
    );
    pattern.atoms.iter().map(|atom| atom.negative).collect()
}

/// `Atom::score` on a term of the parsed query, with the default settings.
/// Claimed: the score depends on the query, the term's place and the text
/// alone. The scores of the query must fit their numbers, and the matcher must
/// read each character of the text in one way.
#[verifier::external_body]
fn score_term(
    matcher: &mut nucleo_matcher::Matcher,
    query: &str,
    at: usize,
    haystack: &str,
) -> (score: Option<u16>)
    requires
        needle::fits(query@),
        at < atom_signs(query@).len(),
        needle::can_search(query@, haystack@),
    ensures
        score == atom_score(query@, at as nat, haystack@),
{
    let pattern = nucleo_matcher::pattern::Pattern::parse(
        query,
        CaseMatching::Ignore,
        Normalization::Smart,
    );
    let mut buf = Vec::new();
    matcher.config = Config::DEFAULT;
    pattern.atoms[at].score(Utf32Str::new(haystack, &mut buf), matcher)
}

/// `Pattern::score` on the parsed query, with the default settings. Claimed:
/// the scores of all terms together, and nothing where one does not match.
#[verifier::external_body]
fn score_query(matcher: &mut nucleo_matcher::Matcher, query: &str, haystack: &str) -> (score: Option<
    u32,
>)
    requires
        needle::fits(query@),
        needle::can_search(query@, haystack@),
    ensures
        match score {
            Some(s) => score_sum(query@, atom_signs(query@).len(), haystack@) == Some(s as int),
            None => score_sum(query@, atom_signs(query@).len(), haystack@) is None,
        },
{
    let pattern = nucleo_matcher::pattern::Pattern::parse(
        query,
        CaseMatching::Ignore,
        Normalization::Smart,
    );
    let mut buf = Vec::new();
    matcher.config = Config::DEFAULT;
    pattern.score(Utf32Str::new(haystack, &mut buf), matcher)
}

/// `Pattern::indices` on the parsed query, with the default settings. Claimed:
/// whether the query matches, and the places, depend on the query and the text
/// alone.
#[verifier::external_body]
fn query_indices(
    matcher: &mut nucleo_matcher::Matcher,
    query: &str,
    haystack: &str,
) -> (places: Option<Vec<u32>>)
    requires
        needle::fits(query@),
        needle::can_search(query@, haystack@),
    ensures
        match places {
            Some(p) => match_indices(query@, haystack@) == Some(p@),
            None => match_indices(query@, haystack@) is None,
        },
{
    let pattern = nucleo_matcher::pattern::Pattern::parse(
        query,
        CaseMatching::Ignore,
        Normalization::Smart,
    );
    let mut buf = Vec::new();
    let mut indices = Vec::new();
    matcher.config = Config::DEFAULT;
    pattern.indices(Utf32Str::new(haystack, &mut buf), matcher, &mut indices)?;
    Some(indices)
}

/// A query that was parsed.
pub struct Pattern {
    query: String,
    signs: Vec<bool>,
}

impl View for Pattern {
    type V = Seq<char>;

    /// The query.
    closed spec fn view(&self) -> Seq<char> {
        self.query@
    }
}

impl Pattern {
    #[verifier::type_invariant]
    closed spec fn parsed(&self) -> bool {
        self.signs@ == atom_signs(self.query@) && needle::fits(self.query@)
    }
}

/// Parses a query. Matching ignores letter case, and treats accented
/// characters as their base.
pub fn build_pattern(query: &str) -> (pattern: Pattern)
    requires
        needle::fits(query@),
    ensures
        pattern@ == query@,
        query@.len() == 0 ==> atom_signs(query@).len() == 0,
{
    Pattern { query: query.to_owned(), signs: parse_signs(query) }
}

/// Scores texts against patterns.
pub struct FuzzyScorer {
    matcher: nucleo_matcher::Matcher,
}

/// The score of a query in a text, as it is searched; none where it does not
/// match.
pub open spec fn whole_score(query: Seq<char>, haystack: Seq<char>) -> Option<int> {
    score_sum(query, atom_signs(query).len(), needle::prepared(query, haystack))
}

/// The places that a query matches in a text, as it is searched.
pub open spec fn places_in(query: Seq<char>, haystack: Seq<char>) -> Option<Seq<u32>> {
    match_indices(query, needle::prepared(query, haystack))
}

/// Whether the places are those in `all`, each once and in order.
pub open spec fn sorted_places(places: Seq<usize>, all: Seq<u32>) -> bool {
    &&& forall|i: int, j: int| 0 <= i < j < places.len() ==> places[i] < places[j]
    &&& forall|x: u32| #[trigger] all.contains(x) ==> places.contains(x as usize)
    &&& forall|i: int|
        0 <= i < places.len() ==> #[trigger] places[i] <= u32::MAX && all.contains(
            places[i] as u32,
        )
}

impl FuzzyScorer {
    /// A scorer.
    pub fn new() -> (scorer: Self) {
        FuzzyScorer { matcher: new_matcher() }
    }

    /// The score of a pattern in a text; none where it does not match.
    pub fn score(&mut self, pattern: &Pattern, haystack: &str) -> (score: Option<u32>)
        requires
            needle::short_enough(haystack@),
        ensures
            match score {
                Some(s) => whole_score(pattern@, haystack@) == Some(s as int),
                None => whole_score(pattern@, haystack@) is None,
            },
    {
        proof {
            use_type_invariant(pattern);
        }
        let searched = needle::prepare(pattern.query.as_str(), haystack);
        score_query(&mut self.matcher, pattern.query.as_str(), searched.as_str())
    }

    /// The score of one term of a pattern in a text. A negative term scores
    /// nothing where it passes, and has no score where it matches.
    pub fn score_atom(&mut self, pattern: &Pattern, at: usize, haystack: &str) -> (score: Option<u32>)
        requires
            at < atom_signs(pattern@).len(),
            needle::short_enough(haystack@),
        ensures
            score == raw_score(pattern@, at as nat, haystack@),
    {
        proof {
            use_type_invariant(pattern);
        }
        let searched = needle::prepare(pattern.query.as_str(), haystack);
        match score_term(&mut self.matcher, pattern.query.as_str(), at, searched.as_str()) {
            Some(score) => Some(score as u32),
            None => None,
        }
    }

    /// The places of the matched characters of a text, each once and in order.
    pub fn indices(&mut self, pattern: &Pattern, haystack: &str) -> (places: Option<Vec<usize>>)
        requires
            needle::short_enough(haystack@),
        ensures
            match places {
                Some(p) => places_in(pattern@, haystack@) is Some && sorted_places(
                    p@,
                    places_in(pattern@, haystack@)->0,
                ),
                None => places_in(pattern@, haystack@) is None,
            },
    {
        proof {
            use_type_invariant(pattern);
        }
        let searched = needle::prepare(pattern.query.as_str(), haystack);
        let found = query_indices(&mut self.matcher, pattern.query.as_str(), searched.as_str())?;
        Some(sort_places(&found))
    }
}

/// The places in order, each once.
pub fn sort_places(found: &Vec<u32>) -> (places: Vec<usize>)
    ensures
        sorted_places(places@, found@),
{
    let mut out: Vec<usize> = Vec::new();
    let mut i: usize = 0;
    assert(found@.take(0) =~= Seq::<u32>::empty());
    while i < found.len()
        invariant
            i <= found@.len(),
            sorted_places(out@, found@.take(i as int)),
        decreases found@.len() - i,
    {
        let place: usize = found[i] as usize;
        let ghost before = out@;
        let ghost seen = found@.take(i as int);
        let ghost more = found@.take(i + 1);
        assert(more =~= seen.push(found@[i as int]));
        assert(more[i as int] == found@[i as int]);
        let mut at: usize = 0;
        while at < out.len() && out[at] < place
            invariant
                at <= out@.len(),
                forall|j: int| 0 <= j < at ==> out@[j] < place,
            decreases out@.len() - at,
        {
            at = at + 1;
        }
        if at == out.len() || out[at] != place {
            out.insert(at, place);
            assert(out@ =~= before.insert(at as int, place));
            assert(out@[at as int] == place);
        }
        proof {
            assert forall|x: u32| #[trigger] more.contains(x) implies out@.contains(x as usize) by {
                let k = more.index_of(x);
                if k < i {
                    assert(seen[k] == x);
                    assert(seen.contains(x));
                    assert(before.contains(x as usize));
                    let j = before.index_of(x as usize);
                    if out@.len() == before.len() {
                        assert(out@[j] == x as usize);
                    } else if j < at {
                        assert(out@[j] == x as usize);
                    } else {
                        assert(out@[j + 1] == x as usize);
                    }
                } else {
                    assert(out@[at as int] == place);
                }
            }
            assert forall|j: int| 0 <= j < out@.len() implies #[trigger] out@[j] <= u32::MAX
                && more.contains(out@[j] as u32) by {
                if out@.len() == before.len() || j < at {
                    assert(before[j] == out@[j]);
                    let k = seen.index_of(before[j] as u32);
                    assert(more[k] == before[j] as u32);
                } else if j == at {
                    assert(out@[j] == place);
                } else {
                    assert(before[j - 1] == out@[j]);
                    let k = seen.index_of(before[j - 1] as u32);
                    assert(more[k] == before[j - 1] as u32);
                }
            }
        }
        i = i + 1;
    }
    assert(found@.take(found@.len() as int) =~= found@);
    out
}

/// A field of a snippet, and what a match in it counts.
pub struct Field {
    pub text: String,
    pub weight: u32,
}

/// What a [`Field`] holds.
pub struct FieldView {
    pub text: Seq<char>,
    pub weight: u32,
}

impl View for Field {
    type V = FieldView;

    open spec fn view(&self) -> FieldView {
        FieldView { text: self.text@, weight: self.weight }
    }
}

/// What the fields of a list hold.
pub open spec fn field_views(fields: Seq<Field>) -> Seq<FieldView> {
    fields.map_values(|f: Field| f@)
}

/// An optional field.
pub open spec fn optional_field(text: Option<Seq<char>>, weight: u32) -> Seq<FieldView> {
    match text {
        Some(t) => seq![FieldView { text: t, weight }],
        None => Seq::empty(),
    }
}

/// The fields that are searched: name, command, description, path, the
/// frontmatter's name and description, and each tag on its own.
pub open spec fn fields_of(entry: index::EntryView, weights: FuzzyWeights) -> Seq<FieldView> {
    seq![
        FieldView { text: entry.snippet.name, weight: weights.name },
        FieldView { text: entry.snippet.body, weight: weights.command },
        FieldView { text: entry.snippet.description, weight: weights.description },
        FieldView { text: index::display_path(entry.relative_path), weight: weights.path },
    ] + optional_field(entry.frontmatter.name, weights.frontmatter_name) + optional_field(
        entry.frontmatter.description,
        weights.description,
    ) + entry.frontmatter.tags.map_values(
        |tag: Seq<char>| FieldView { text: tag, weight: weights.tag },
    )
}

/// Whether every field is short enough for the matcher.
pub open spec fn all_short(fields: Seq<FieldView>) -> bool {
    forall|i: int| 0 <= i < fields.len() ==> needle::short_enough(#[trigger] fields[i].text)
}

/// A score times a weight, at most the largest number.
pub open spec fn weighted(raw: int, weight: u32) -> u32 {
    if raw * weight > u32::MAX {
        u32::MAX
    } else {
        (raw * weight) as u32
    }
}

/// A sum, at most the largest number.
pub open spec fn capped_sum(a: u32, b: u32) -> u32 {
    if a + b > u32::MAX {
        u32::MAX
    } else {
        (a + b) as u32
    }
}

/// The score of a term in a text, as it is searched.
pub open spec fn raw_score(query: Seq<char>, at: nat, haystack: Seq<char>) -> Option<u32> {
    match atom_score(query, at, needle::prepared(query, haystack)) {
        Some(score) => Some(score as u32),
        None => None,
    }
}

/// The weighted scores of a query in each field together; none where no field
/// matches.
pub open spec fn accumulated(query: Seq<char>, fields: Seq<FieldView>) -> Option<u32>
    decreases fields.len(),
{
    if fields.len() == 0 {
        None
    } else {
        let before = accumulated(query, fields.drop_last());
        match whole_score(query, fields.last().text) {
            None => before,
            Some(raw) => Some(
                capped_sum(
                    match before {
                        Some(total) => total,
                        None => 0,
                    },
                    weighted(raw, fields.last().weight),
                ),
            ),
        }
    }
}

/// The best weighted score of a term over the fields; none where no field
/// matches.
pub open spec fn best_field(query: Seq<char>, at: nat, fields: Seq<FieldView>) -> Option<u32>
    decreases fields.len(),
{
    if fields.len() == 0 {
        None
    } else {
        let before = best_field(query, at, fields.drop_last());
        match raw_score(query, at, fields.last().text) {
            None => before,
            Some(raw) => {
                let score = weighted(raw as int, fields.last().weight);
                match before {
                    Some(best) if best >= score => Some(best),
                    _ => Some(score),
                }
            },
        }
    }
}

/// Whether a negative term matches in one of the fields.
pub open spec fn excludes(query: Seq<char>, at: nat, fields: Seq<FieldView>) -> bool {
    exists|i: int|
        0 <= i < fields.len() && raw_score(query, at, #[trigger] fields[i].text) is None
}

/// What a term adds to a snippet's score: a negative one nothing, unless it
/// matches somewhere and so excludes the snippet; another its best field.
pub open spec fn term_score(query: Seq<char>, at: nat, fields: Seq<FieldView>) -> Option<u32> {
    if atom_signs(query)[at as int] {
        if excludes(query, at, fields) {
            None
        } else {
            Some(0)
        }
    } else {
        best_field(query, at, fields)
    }
}

/// What the first `n` terms add up to; none where one of them does not match,
/// or excludes the snippet.
pub open spec fn cross_sum(query: Seq<char>, n: nat, fields: Seq<FieldView>) -> Option<u32>
    decreases n,
{
    if n == 0 {
        Some(0)
    } else {
        match (
            cross_sum(query, (n - 1) as nat, fields),
            term_score(query, (n - 1) as nat, fields),
        ) {
            (Some(before), Some(score)) => Some(capped_sum(before, score)),
            _ => None,
        }
    }
}

/// What all terms add up to.
pub open spec fn cross_score(query: Seq<char>, fields: Seq<FieldView>) -> Option<u32> {
    cross_sum(query, atom_signs(query).len(), fields)
}

proof fn lemma_fields_push(fields: Seq<Field>, f: Field)
    ensures
        field_views(fields.push(f)) == field_views(fields).push(f@),
{
    assert(field_views(fields.push(f)) =~= field_views(fields).push(f@));
}

/// The fields of a snippet that are searched.
fn visit_fields(entry: &IndexedSnippet, weights: &FuzzyWeights) -> (fields: Vec<Field>)
    ensures
        field_views(fields@) == fields_of(entry@, *weights),
{
    let mut out: Vec<Field> = Vec::new();
    out.push(Field { text: entry.name().to_owned(), weight: weights.name });
    out.push(Field { text: entry.body().to_owned(), weight: weights.command });
    out.push(Field { text: entry.description().to_owned(), weight: weights.description });
    out.push(Field { text: entry.relative_path_display(), weight: weights.path });
    let ghost four = field_views(out@);
    match &entry.frontmatter.name {
        Some(name) => {
            let field = Field { text: name.clone(), weight: weights.frontmatter_name };
            proof {
                lemma_fields_push(out@, field);
            }
            out.push(field);
        },
        None => {},
    }
    let ghost five = field_views(out@);
    assert(five =~= four + optional_field(entry@.frontmatter.name, weights.frontmatter_name));
    match &entry.frontmatter.description {
        Some(description) => {
            let field = Field { text: description.clone(), weight: weights.description };
            proof {
                lemma_fields_push(out@, field);
            }
            out.push(field);
        },
        None => {},
    }
    let ghost six = field_views(out@);
    assert(six =~= five + optional_field(entry@.frontmatter.description, weights.description));
    let tags = entry.tags();
    let ghost tag_fields = entry@.frontmatter.tags.map_values(
        |tag: Seq<char>| FieldView { text: tag, weight: weights.tag },
    );
    let mut i: usize = 0;
    assert(field_views(out@) =~= six + tag_fields.take(0));
    while i < tags.len()
        invariant
            i <= tags@.len(),
            text::texts(tags@) == entry@.frontmatter.tags,
            tag_fields == entry@.frontmatter.tags.map_values(
                |tag: Seq<char>| FieldView { text: tag, weight: weights.tag },
            ),
            field_views(out@) == six + tag_fields.take(i as int),
        decreases tags@.len() - i,
    {
        let field = Field { text: tags[i].clone(), weight: weights.tag };
        proof {
            lemma_fields_push(out@, field);
            assert(text::texts(tags@)[i as int] == tags@[i as int]@);
            assert(tag_fields.take(i + 1) =~= tag_fields.take(i as int).push(field@));
            assert((six + tag_fields.take(i as int)).push(field@) =~= six + tag_fields.take(i + 1));
        }
        out.push(field);
        i = i + 1;
    }
    assert(tag_fields.take(tag_fields.len() as int) =~= tag_fields);
    assert(field_views(out@) =~= fields_of(entry@, *weights));
    out
}

/// A score times a weight, at most the largest number.
fn weigh(raw: u32, weight: u32) -> (score: u32)
    ensures
        score == weighted(raw as int, weight),
{
    assert(raw * weight <= 0xffff_ffff * 0xffff_ffff) by (nonlinear_arith)
        requires
            raw <= 0xffff_ffff,
            weight <= 0xffff_ffff,
    ;
    let product: u64 = raw as u64 * weight as u64;
    if product > u32::MAX as u64 {
        u32::MAX
    } else {
        product as u32
    }
}

/// Scores a snippet: the weighted scores of the whole query in each field,
/// added up. None where the query is not empty and no field matches.
pub fn score_snippet(
    scorer: &mut FuzzyScorer,
    pattern: &Pattern,
    query_is_empty: bool,
    entry: &IndexedSnippet,
    weights: &FuzzyWeights,
) -> (score: Option<u32>)
    requires
        all_short(fields_of(entry@, *weights)),
    ensures
        score == (if query_is_empty {
            Some(0u32)
        } else {
            accumulated(pattern@, fields_of(entry@, *weights))
        }),
{
    if query_is_empty {
        return Some(0);
    }
    let fields = visit_fields(entry, weights);
    let ghost all = field_views(fields@);
    let mut total: u32 = 0;
    let mut matched = false;
    let mut i: usize = 0;
    assert(all.take(0) =~= Seq::<FieldView>::empty());
    while i < fields.len()
        invariant
            i <= fields@.len(),
            all == field_views(fields@),
            all_short(all),
            accumulated(pattern@, all.take(i as int)) == (if matched {
                Some(total)
            } else {
                None::<u32>
            }),
            !matched ==> total == 0,
        decreases fields@.len() - i,
    {
        assert(all[i as int] == fields@[i as int]@);
        assert(needle::short_enough(all[i as int].text));
        assert(all.take(i + 1).drop_last() =~= all.take(i as int));
        assert(all.take(i + 1).last() == all[i as int]);
        match scorer.score(pattern, fields[i].text.as_str()) {
            Some(raw) => {
                total = total.saturating_add(weigh(raw, fields[i].weight));
                matched = true;
            },
            None => {},
        }
        i = i + 1;
    }
    assert(all.take(all.len() as int) =~= all);
    if matched {
        Some(total)
    } else {
        None
    }
}

/// What a term adds to a snippet's score.
fn score_one(scorer: &mut FuzzyScorer, pattern: &Pattern, at: usize, fields: &Vec<Field>) -> (score:
    Option<u32>)
    requires
        at < atom_signs(pattern@).len(),
        all_short(field_views(fields@)),
    ensures
        score == term_score(pattern@, at as nat, field_views(fields@)),
{
    proof {
        use_type_invariant(pattern);
    }
    let ghost all = field_views(fields@);
    let negative = pattern.signs[at];
    let mut best: Option<u32> = None;
    let mut excluded = false;
    let mut i: usize = 0;
    assert(all.take(0) =~= Seq::<FieldView>::empty());
    while i < fields.len()
        invariant
            i <= fields@.len(),
            at < atom_signs(pattern@).len(),
            all == field_views(fields@),
            all_short(all),
            best == best_field(pattern@, at as nat, all.take(i as int)),
            excluded == excludes(pattern@, at as nat, all.take(i as int)),
        decreases fields@.len() - i,
    {
        assert(all[i as int] == fields@[i as int]@);
        assert(needle::short_enough(all[i as int].text));
        assert(all.take(i + 1).drop_last() =~= all.take(i as int));
        assert(all.take(i + 1).last() == all[i as int]);
        let ghost was = excluded;
        match scorer.score_atom(pattern, at, fields[i].text.as_str()) {
            None => {
                excluded = true;
                assert(raw_score(pattern@, at as nat, all.take(i + 1)[i as int].text) is None);
                assert(excludes(pattern@, at as nat, all.take(i + 1)));
            },
            Some(raw) => {
                let score: u32 = weigh(raw, fields[i].weight);
                best = match best {
                    Some(b) => if b >= score {
                        Some(b)
                    } else {
                        Some(score)
                    },
                    None => Some(score),
                };
                proof {
                    if was {
                        let k = choose|k: int|
                            0 <= k < all.take(i as int).len() && raw_score(
                                pattern@,
                                at as nat,
                                #[trigger] all.take(i as int)[k].text,
                            ) is None;
                        assert(all.take(i + 1)[k] == all.take(i as int)[k]);
                    }
                    if excludes(pattern@, at as nat, all.take(i + 1)) {
                        let k = choose|k: int|
                            0 <= k < all.take(i + 1).len() && raw_score(
                                pattern@,
                                at as nat,
                                #[trigger] all.take(i + 1)[k].text,
                            ) is None;
                        assert(all.take(i as int)[k] == all.take(i + 1)[k]);
                    }
                }
            },
        }
        i = i + 1;
    }
    assert(all.take(all.len() as int) =~= all);
    if negative {
        if excluded {
            None
        } else {
            Some(0)
        }
    } else {
        best
    }
}

/// Scores a snippet: the best weighted field of each term, added up. A negative
/// term has to pass in every field. Weights do not decide what matches.
pub fn score_snippet_cross_field(
    scorer: &mut FuzzyScorer,
    pattern: &Pattern,
    entry: &IndexedSnippet,
    weights: &FuzzyWeights,
) -> (score: Option<u32>)
    requires
        all_short(fields_of(entry@, *weights)),
    ensures
        score == cross_score(pattern@, fields_of(entry@, *weights)),
{
    proof {
        use_type_invariant(pattern);
    }
    let fields = visit_fields(entry, weights);
    let ghost all = field_views(fields@);
    let ghost n = atom_signs(pattern@).len();
    let mut total: u32 = 0;
    let mut at: usize = 0;
    while at < pattern.signs.len()
        invariant
            at <= pattern.signs@.len(),
            pattern.signs@ == atom_signs(pattern@),
            all == field_views(fields@),
            all == fields_of(entry@, *weights),
            all_short(all),
            n == atom_signs(pattern@).len(),
            cross_sum(pattern@, at as nat, all) == Some(total),
        decreases pattern.signs@.len() - at,
    {
        match score_one(scorer, pattern, at, &fields) {
            None => {
                proof {
                    lemma_cross_none(pattern@, (at + 1) as nat, n, all);
                }
                return None;
            },
            Some(score) => {
                total = total.saturating_add(score);
            },
        }
        at = at + 1;
    }
    Some(total)
}

proof fn lemma_cross_none(query: Seq<char>, m: nat, n: nat, fields: Seq<FieldView>)
    requires
        m <= n,
        cross_sum(query, m, fields) is None,
    ensures
        cross_sum(query, n, fields) is None,
    decreases n,
{
    if m < n {
        lemma_cross_none(query, m, (n - 1) as nat, fields);
    }
}

/// The same fields with other weights.
pub open spec fn same_texts(a: Seq<FieldView>, b: Seq<FieldView>) -> bool {
    &&& a.len() == b.len()
    &&& forall|i: int| 0 <= i < a.len() ==> (#[trigger] a[i]).text == b[i].text
}

proof fn lemma_best_matches(query: Seq<char>, at: nat, a: Seq<FieldView>, b: Seq<FieldView>)
    requires
        same_texts(a, b),
    ensures
        best_field(query, at, a) is Some == best_field(query, at, b) is Some,
    decreases a.len(),
{
    if a.len() > 0 {
        assert(a[a.len() - 1].text == b[a.len() - 1].text);
        assert forall|i: int| 0 <= i < a.drop_last().len() implies (#[trigger] a.drop_last()[i]).text
            == b.drop_last()[i].text by {
            assert(a.drop_last()[i] == a[i]);
        }
        lemma_best_matches(query, at, a.drop_last(), b.drop_last());
    }
}

proof fn lemma_cross_matches(query: Seq<char>, n: nat, a: Seq<FieldView>, b: Seq<FieldView>)
    requires
        same_texts(a, b),
    ensures
        cross_sum(query, n, a) is Some == cross_sum(query, n, b) is Some,
    decreases n,
{
    if n > 0 {
        let at = (n - 1) as nat;
        lemma_cross_matches(query, at, a, b);
        lemma_best_matches(query, at, a, b);
        if excludes(query, at, a) {
            let k = choose|k: int|
                0 <= k < a.len() && raw_score(query, at, #[trigger] a[k].text) is None;
            assert(raw_score(query, at, b[k].text) is None);
        }
        if excludes(query, at, b) {
            let k = choose|k: int|
                0 <= k < b.len() && raw_score(query, at, #[trigger] b[k].text) is None;
            assert(a[k].text == b[k].text);
        }
    }
}

/// Which snippets match does not depend on the weights: fields of weight zero
/// admit and exclude as the others do.
pub proof fn law_matching_ignores_weights(
    query: Seq<char>,
    entry: index::EntryView,
    a: FuzzyWeights,
    b: FuzzyWeights,
)
    ensures
        cross_score(query, fields_of(entry, a)) is Some == cross_score(
            query,
            fields_of(entry, b),
        ) is Some,
{
    let x = fields_of(entry, a);
    let y = fields_of(entry, b);
    assert(x.len() == y.len());
    assert forall|i: int| 0 <= i < x.len() implies (#[trigger] x[i]).text == y[i].text by {}
    lemma_cross_matches(query, atom_signs(query).len(), x, y);
}

proof fn lemma_best_covers(query: Seq<char>, at: nat, fields: Seq<FieldView>, k: int)
    requires
        0 <= k < fields.len(),
    ensures
        raw_score(query, at, fields[k].text) matches Some(raw) ==> best_field(query, at, fields)
            is Some && best_field(query, at, fields)->0 >= weighted(raw as int, fields[k].weight),
    decreases fields.len(),
{
    if k < fields.len() - 1 {
        lemma_best_covers(query, at, fields.drop_last(), k);
        assert(fields.drop_last()[k] == fields[k]);
    }
}

proof fn lemma_cross_repeats(query: Seq<char>, n: nat, fields: Seq<FieldView>, k: int)
    requires
        0 <= k < fields.len(),
    ensures
        cross_sum(query, n, fields.push(fields[k])) == cross_sum(query, n, fields),
    decreases n,
{
    if n > 0 {
        let at = (n - 1) as nat;
        let more = fields.push(fields[k]);
        lemma_cross_repeats(query, at, fields, k);
        lemma_best_covers(query, at, fields, k);
        assert(more.drop_last() =~= fields);
        assert(best_field(query, at, more) == best_field(query, at, fields));
        if excludes(query, at, more) {
            let i = choose|i: int|
                0 <= i < more.len() && raw_score(query, at, #[trigger] more[i].text) is None;
            if i < fields.len() {
                assert(fields[i] == more[i]);
            } else {
                assert(fields[k] == more[i]);
            }
        }
        if excludes(query, at, fields) {
            let i = choose|i: int|
                0 <= i < fields.len() && raw_score(query, at, #[trigger] fields[i].text) is None;
            assert(more[i] == fields[i]);
        }
    }
}

/// A field that occurs again does not change the score.
pub proof fn law_repeated_fields_do_not_count(query: Seq<char>, fields: Seq<FieldView>, k: int)
    requires
        0 <= k < fields.len(),
    ensures
        cross_score(query, fields.push(fields[k])) == cross_score(query, fields),
{
    lemma_cross_repeats(query, atom_signs(query).len(), fields, k);
}

/// A snippet whose file names one of its tags once more.
pub open spec fn with_tag_again(entry: index::EntryView, k: int) -> index::EntryView {
    index::EntryView {
        frontmatter: domain::FrontmatterView {
            tags: entry.frontmatter.tags.push(entry.frontmatter.tags[k]),
            ..entry.frontmatter
        },
        ..entry
    }
}

/// A tag that is named twice does not change the score.
pub proof fn law_repeated_tags_do_not_count(
    query: Seq<char>,
    entry: index::EntryView,
    k: int,
    weights: FuzzyWeights,
)
    requires
        0 <= k < entry.frontmatter.tags.len(),
    ensures
        cross_score(query, fields_of(with_tag_again(entry, k), weights)) == cross_score(
            query,
            fields_of(entry, weights),
        ),
{
    let fields = fields_of(entry, weights);
    let at = fields.len() - entry.frontmatter.tags.len() + k;
    assert(fields_of(with_tag_again(entry, k), weights) =~= fields.push(fields[at]));
    law_repeated_fields_do_not_count(query, fields, at);
}

/// The text of the search and the highlighted result. It outlives a visit to
/// the prompt.
#[derive(Debug, PartialEq, Eq)]
pub struct FuzzyState {
    pub query: String,
    /// Byte offset of the insertion cursor within the query.
    pub cursor: usize,
    /// Highlighted row of the results.
    pub selection: Option<usize>,
}

/// What a [`FuzzyState`] holds.
#[verifier::ext_equal]
pub struct FuzzyView {
    pub query: Seq<char>,
    pub cursor: int,
    pub selection: Option<usize>,
}

impl View for FuzzyState {
    type V = FuzzyView;

    open spec fn view(&self) -> FuzzyView {
        FuzzyView {
            query: self.query@,
            cursor: self.cursor as int,
            selection: self.selection,
        }
    }
}

impl FuzzyView {
    /// Whether the cursor stands between characters of the query.
    pub open spec fn wf(self) -> bool {
        line_edit::is_boundary(self.query, self.cursor)
    }

    /// How many characters stand before the cursor.
    pub open spec fn column(self) -> int {
        line_edit::column_of(self.query, self.cursor)
    }

    /// The state after `c` was typed.
    pub open spec fn typed(self, c: char) -> FuzzyView {
        FuzzyView {
            query: self.query.insert(self.column(), c),
            cursor: self.cursor + line_edit::utf8_len(c),
            selection: Some(0),
        }
    }

    /// The state with the cursor one character to the left.
    pub open spec fn left(self) -> FuzzyView {
        FuzzyView { cursor: line_edit::left_cursor(self.query, self.cursor), ..self }
    }

    /// The state with the cursor one character to the right.
    pub open spec fn right(self) -> FuzzyView {
        FuzzyView { cursor: line_edit::right_cursor(self.query, self.cursor), ..self }
    }

    /// The state with another result highlighted.
    pub open spec fn selecting(self, selection: Option<usize>) -> FuzzyView {
        FuzzyView { selection, ..self }
    }

    /// The state with the highlight moved among `len` results.
    pub open spec fn moved(self, delta: int, len: int) -> FuzzyView {
        self.selecting(line_edit::moved_selection(self.selection, delta, len))
    }

    /// The state after the character before the cursor was deleted.
    pub open spec fn erased(self) -> FuzzyView {
        if self.cursor == 0 {
            self
        } else {
            FuzzyView {
                query: self.query.remove(self.column() - 1),
                cursor: self.cursor - line_edit::utf8_len(self.query[self.column() - 1]),
                selection: Some(0),
            }
        }
    }
}

impl Default for FuzzyState {
    /// No query, and nothing highlighted.
    fn default() -> (state: Self)
        ensures
            state@ == (FuzzyView { query: Seq::empty(), cursor: 0, selection: None }),
            state@.wf(),
    {
        proof {
            line_edit::lemma_start_is_boundary(Seq::empty());
        }
        let state = FuzzyState { query: String::new(), cursor: 0, selection: None };
        assert(state@.query =~= Seq::<char>::empty());
        state
    }
}

impl FuzzyState {
    /// No query, and the first result highlighted.
    pub fn new() -> (state: Self)
        ensures
            state@ == (FuzzyView { query: Seq::empty(), cursor: 0, selection: Some(0) }),
            state@.wf(),
    {
        proof {
            line_edit::lemma_start_is_boundary(Seq::empty());
        }
        let state = FuzzyState { query: String::new(), cursor: 0, selection: Some(0) };
        assert(state@.query =~= Seq::<char>::empty());
        state
    }

    /// Sets the query, with the cursor at its end and the first result
    /// highlighted.
    pub fn set_query(&mut self, query: String)
        ensures
            final(self)@ == (FuzzyView {
                query: query@,
                cursor: line_edit::byte_len(query@) as int,
                selection: Some(0),
            }),
            final(self)@.wf(),
    {
        self.cursor = line_edit::end_of(query.as_str());
        self.query = query;
        self.selection = Some(0);
    }

    /// Types `c` at the cursor.
    pub fn type_char(&mut self, c: char)
        requires
            old(self)@.wf(),
        ensures
            final(self)@ == old(self)@.typed(c),
            final(self)@.wf(),
    {
        let new = line_edit::insert_char(self.query.as_str(), self.cursor, c);
        self.query = new.0;
        self.cursor = new.1;
        self.selection = Some(0);
    }

    /// Deletes the character before the cursor; whether there was one.
    pub fn backspace(&mut self) -> (changed: bool)
        requires
            old(self)@.wf(),
        ensures
            final(self)@ == old(self)@.erased(),
            final(self)@.wf(),
            changed == (old(self)@.cursor > 0),
    {
        match line_edit::remove_before(self.query.as_str(), self.cursor) {
            None => false,
            Some(new) => {
                self.query = new.0;
                self.cursor = new.1;
                self.selection = Some(0);
                true
            },
        }
    }

    /// Moves the cursor one character to the left, where there is one.
    pub fn cursor_left(&mut self)
        requires
            old(self)@.wf(),
        ensures
            final(self)@ == old(self)@.left(),
            final(self)@.wf(),
            final(self)@.column() == (if old(self)@.column() == 0 {
                0
            } else {
                old(self)@.column() - 1
            }),
    {
        self.cursor = line_edit::left_of(self.query.as_str(), self.cursor);
    }

    /// Moves the cursor one character to the right, where there is one.
    pub fn cursor_right(&mut self)
        requires
            old(self)@.wf(),
        ensures
            final(self)@ == old(self)@.right(),
            final(self)@.wf(),
            final(self)@.column() == (if old(self)@.column() == old(self)@.query.len() {
                old(self)@.column()
            } else {
                old(self)@.column() + 1
            }),
    {
        self.cursor = line_edit::right_of(self.query.as_str(), self.cursor);
    }

    /// Moves the highlight among `result_len` results.
    pub fn move_cursor(&mut self, delta: i32, result_len: usize)
        ensures
            final(self)@ == old(self)@.moved(delta as int, result_len as int),
    {
        self.selection = line_edit::move_selection(self.selection, delta, result_len);
    }

    /// The highlighted row.
    pub fn selected(&self) -> (row: Option<usize>)
        ensures
            row == self@.selection,
    {
        self.selection
    }

    /// How many characters stand before the cursor.
    pub fn cursor_col(&self) -> (col: usize)
        requires
            self@.wf(),
        ensures
            col == self@.column(),
    {
        line_edit::column(self.query.as_str(), self.cursor)
    }
}

/// Deleting a character just typed restores query and cursor.
pub proof fn law_backspace_undoes_typing(state: FuzzyView, c: char)
    requires
        state.wf(),
    ensures
        state.typed(c).wf(),
        state.typed(c).erased() == (FuzzyView { selection: Some(0), ..state }),
{
    line_edit::law_delete_undoes_typing(state.query, state.cursor, c);
}

/// Typing puts the character between the text before the cursor and the text
/// behind it, with the cursor behind it; deleting takes the last character of the
/// text before the cursor. Either way the first result is highlighted.
pub proof fn law_query_is_edited_at_the_cursor(state: FuzzyView, c: char, a: Seq<char>, b: Seq<char>)
    requires
        state.query == a + b,
        state.cursor == line_edit::byte_len(a),
    ensures
        state.typed(c).query == a + seq![c] + b,
        state.typed(c).cursor == line_edit::byte_len(a + seq![c]),
        state.typed(c).selection == Some(0usize),
        a.len() > 0 ==> state.erased().query == a.drop_last() + b,
        a.len() > 0 ==> state.erased().cursor == line_edit::byte_len(a.drop_last()),
        a.len() > 0 ==> state.erased().selection == Some(0usize),
        a.len() == 0 ==> state.erased() == state,
        state.left().query == state.query,
        state.right().query == state.query,
        a.len() > 0 ==> state.left().cursor == line_edit::byte_len(a.drop_last()),
        b.len() > 0 ==> state.right().cursor == line_edit::byte_len(a + seq![b[0]]),
{
    let s = state.query;
    let col = a.len() as int;
    assert(s.take(col) =~= a);
    assert(line_edit::stands_behind(s, state.cursor, col));
    line_edit::lemma_one_column(s, state.cursor, col);
    line_edit::law_cursor_goes_by_characters(s, state.cursor);
    assert(s.insert(col, c) =~= a + seq![c] + b);
    assert((a + seq![c]).drop_last() =~= a);
    if a.len() > 0 {
        assert(s.remove(col - 1) =~= a.drop_last() + b);
        assert(s[col - 1] == a.last());
    }
    if b.len() > 0 {
        assert(s[col] == b[0]);
        assert((a + seq![b[0]]).drop_last() =~= a);
    }
}

/// A weighted score is the score times the weight, and a sum the two numbers
/// together, as far as the numbers reach.
pub proof fn law_weights_multiply(raw: int, weight: u32, a: u32, b: u32)
    requires
        raw >= 0,
    ensures
        raw * weight <= u32::MAX ==> weighted(raw, weight) == raw * weight,
        raw * weight > u32::MAX ==> weighted(raw, weight) == u32::MAX,
        a + b <= u32::MAX ==> capped_sum(a, b) == a + b,
        a + b > u32::MAX ==> capped_sum(a, b) == u32::MAX,
{
    assert(raw * weight >= 0) by (nonlinear_arith)
        requires
            raw >= 0,
            weight >= 0,
    ;
}

/// Whether a field has a weighted score for a term.
pub open spec fn scores(query: Seq<char>, at: nat, field: FieldView, score: u32) -> bool {
    raw_score(query, at, field.text) matches Some(raw) && weighted(raw as int, field.weight)
        == score
}

/// A term's score is that of the field in which it scores best, by the field's own
/// weight. It has none where it matches in no field.
pub proof fn law_best_field_counts(query: Seq<char>, at: nat, fields: Seq<FieldView>)
    ensures
        best_field(query, at, fields) is None <==> forall|i: int|
            0 <= i < fields.len() ==> raw_score(query, at, (#[trigger] fields[i]).text) is None,
        best_field(query, at, fields) matches Some(best) ==> {
            &&& exists|i: int| 0 <= i < fields.len() && scores(query, at, #[trigger] fields[i], best)
            &&& forall|i: int, score: u32|
                0 <= i < fields.len() && #[trigger] scores(query, at, fields[i], score) ==> score
                    <= best
        },
    decreases fields.len(),
{
    if fields.len() > 0 {
        let front = fields.drop_last();
        law_best_field_counts(query, at, front);
        let last = fields.len() - 1;
        assert(fields[last] == fields.last());
        assert(forall|i: int| 0 <= i < front.len() ==> #[trigger] front[i] == fields[i]);
        match best_field(query, at, front) {
            None => {
                assert forall|i: int| 0 <= i < last implies raw_score(
                    query,
                    at,
                    (#[trigger] fields[i]).text,
                ) is None by {
                    assert(front[i] == fields[i]);
                }
            },
            Some(best) => {
                let i = choose|i: int|
                    0 <= i < front.len() && scores(query, at, #[trigger] front[i], best);
                assert(scores(query, at, fields[i], best));
                assert(raw_score(query, at, fields[i].text) is Some);
            },
        }
        if best_field(query, at, fields) is Some {
            let best = best_field(query, at, fields)->0;
            if raw_score(query, at, fields[last].text) is Some {
                let raw = raw_score(query, at, fields[last].text)->0;
                assert(scores(query, at, fields[last], weighted(raw as int, fields[last].weight)));
            }
            assert forall|i: int, score: u32|
                0 <= i < fields.len() && #[trigger] scores(
                    query,
                    at,
                    fields[i],
                    score,
                ) implies score <= best by {
                if i < last {
                    assert(scores(query, at, front[i], score));
                }
            }
        }
    }
}

/// Whether a term lets a snippet through: one that excludes must hold of every
/// field, another must match in one.
pub open spec fn lets_through(query: Seq<char>, at: nat, fields: Seq<FieldView>) -> bool {
    if atom_signs(query)[at as int] {
        forall|i: int|
            0 <= i < fields.len() ==> raw_score(query, at, (#[trigger] fields[i]).text) is Some
    } else {
        exists|i: int|
            0 <= i < fields.len() && raw_score(query, at, (#[trigger] fields[i]).text) is Some
    }
}

proof fn lemma_terms_have_to_match(query: Seq<char>, n: nat, fields: Seq<FieldView>)
    requires
        n <= atom_signs(query).len(),
    ensures
        cross_sum(query, n, fields) is Some <==> forall|at: nat|
            at < n ==> #[trigger] lets_through(query, at, fields),
    decreases n,
{
    if n > 0 {
        let last = (n - 1) as nat;
        lemma_terms_have_to_match(query, last, fields);
        law_best_field_counts(query, last, fields);
        if !atom_signs(query)[last as int] {
            if best_field(query, last, fields) is Some {
                let best = best_field(query, last, fields)->0;
                let i = choose|i: int|
                    0 <= i < fields.len() && scores(query, last, #[trigger] fields[i], best);
                assert(raw_score(query, last, fields[i].text) is Some);
            }
        }
        assert(term_score(query, last, fields) is Some <==> lets_through(query, last, fields));
    }
}

/// A snippet is found if and only if every term of the query lets it through.
pub proof fn law_every_term_has_to_match(query: Seq<char>, fields: Seq<FieldView>)
    ensures
        cross_score(query, fields) is Some <==> forall|at: nat|
            at < atom_signs(query).len() ==> #[trigger] lets_through(query, at, fields),
{
    lemma_terms_have_to_match(query, atom_signs(query).len(), fields);
}

/// What a term adds: its best field, or nothing where it excludes.
pub open spec fn added(query: Seq<char>, at: nat, fields: Seq<FieldView>) -> int {
    if atom_signs(query)[at as int] {
        0
    } else {
        match best_field(query, at, fields) {
            Some(best) => best as int,
            None => 0,
        }
    }
}

proof fn lemma_terms_add_up(query: Seq<char>, n: nat, fields: Seq<FieldView>)
    ensures
        ({
            let total = Seq::new(n, |at: int| added(query, at as nat, fields)).fold_left(
                0int,
                |a: int, b: int| a + b,
            );
            total >= 0 && (cross_sum(query, n, fields) matches Some(score) ==> score == (
            if total <= u32::MAX {
                total
            } else {
                u32::MAX as int
            }))
        }),
    decreases n,
{
    let each = |at: int| added(query, at as nat, fields);
    let sum = |a: int, b: int| a + b;
    let all = Seq::new(n, each);
    if n > 0 {
        lemma_terms_add_up(query, (n - 1) as nat, fields);
        assert(all.drop_last() =~= Seq::new((n - 1) as nat, each));
        assert(all.fold_left(0int, sum) == all.drop_last().fold_left(0int, sum) + all.last());
    } else {
        assert(all.fold_left(0int, sum) == 0);
    }
}

/// The score of a snippet is what its terms add together, as far as the numbers
/// reach.
pub proof fn law_terms_add_up(query: Seq<char>, fields: Seq<FieldView>)
    ensures
        ({
            let total = Seq::new(
                atom_signs(query).len(),
                |at: int| added(query, at as nat, fields),
            ).fold_left(0int, |a: int, b: int| a + b);
            cross_score(query, fields) matches Some(score) ==> score == (if total <= u32::MAX {
                total
            } else {
                u32::MAX as int
            })
        }),
{
    lemma_terms_add_up(query, atom_signs(query).len(), fields);
}

/// A query that is searched for as a whole is found where it matches in a field,
/// and scores no less than in any of them.
pub proof fn law_matching_fields_count(query: Seq<char>, fields: Seq<FieldView>)
    ensures
        accumulated(query, fields) is None <==> forall|i: int|
            0 <= i < fields.len() ==> whole_score(query, (#[trigger] fields[i]).text) is None,
        forall|i: int|
            0 <= i < fields.len() && whole_score(query, (#[trigger] fields[i]).text) is Some ==> {
                &&& accumulated(query, fields) is Some
                &&& accumulated(query, fields)->0 >= weighted(
                    whole_score(query, fields[i].text)->0,
                    fields[i].weight,
                )
            },
        fields.len() == 1 && whole_score(query, fields[0].text) is Some ==> accumulated(
            query,
            fields,
        ) == Some(weighted(whole_score(query, fields[0].text)->0, fields[0].weight)),
    decreases fields.len(),
{
    if fields.len() > 0 {
        let front = fields.drop_last();
        law_matching_fields_count(query, front);
        assert(forall|i: int| 0 <= i < front.len() ==> #[trigger] front[i] == fields[i]);
        let last = fields.len() - 1;
        assert(fields[last] == fields.last());
        if accumulated(query, front) is Some {
            let i = choose|i: int|
                0 <= i < front.len() && whole_score(query, (#[trigger] front[i]).text) is Some;
            assert(whole_score(query, fields[i].text) is Some);
        } else {
            assert forall|i: int| 0 <= i < last implies whole_score(
                query,
                (#[trigger] fields[i]).text,
            ) is None by {
                assert(front[i] == fields[i]);
            }
        }
        assert forall|i: int|
            0 <= i < fields.len() && whole_score(query, (#[trigger] fields[i]).text) is Some implies ({
            &&& accumulated(query, fields) is Some
            &&& accumulated(query, fields)->0 >= weighted(
                whole_score(query, fields[i].text)->0,
                fields[i].weight,
            )
        }) by {
            if i < last {
                assert(front[i] == fields[i]);
            }
        }
    }
}

/// The name, the command, the description and the path of a snippet are searched,
/// each by its own weight, and so are the name, the description and each tag of
/// its file, and nothing else.
pub proof fn law_fields_that_are_searched(entry: index::EntryView, weights: FuzzyWeights)
    ensures
        ({
            let fields = fields_of(entry, weights);
            let titled: int = if entry.frontmatter.name is Some {
                1
            } else {
                0
            };
            let described: int = if entry.frontmatter.description is Some {
                1
            } else {
                0
            };
            &&& fields.len() == 4 + titled + described + entry.frontmatter.tags.len()
            &&& fields[0].text == entry.snippet.name && fields[0].weight == weights.name
            &&& fields[1].text == entry.snippet.body && fields[1].weight == weights.command
            &&& fields[2].text == entry.snippet.description && fields[2].weight
                == weights.description
            &&& fields[3].text == index::display_path(entry.relative_path) && fields[3].weight
                == weights.path
            &&& entry.frontmatter.name matches Some(name) ==> fields[4].text == name
                && fields[4].weight == weights.frontmatter_name
            &&& entry.frontmatter.description matches Some(description) ==> fields[4 + titled].text
                == description && fields[4 + titled].weight == weights.description
            &&& forall|i: int|
                0 <= i < entry.frontmatter.tags.len() ==> fields[4 + titled + described + i].text
                    == #[trigger] entry.frontmatter.tags[i] && fields[4 + titled + described
                    + i].weight == weights.tag
        }),
{
}

proof fn lemma_score_sum(query: Seq<char>, n: nat, haystack: Seq<char>)
    ensures
        score_sum(query, n, haystack) is Some <==> forall|at: nat|
            at < n ==> (#[trigger] atom_score(query, at, haystack)) is Some,
        score_sum(query, n, haystack) matches Some(total) ==> forall|at: nat|
            at < n ==> (#[trigger] atom_score(query, at, haystack))->0 <= total,
    decreases n,
{
    if n > 0 {
        lemma_score_sum(query, (n - 1) as nat, haystack);
        assert(atom_score(query, (n - 1) as nat, haystack) is Some || score_sum(
            query,
            n,
            haystack,
        ) is None);
    }
}

/// A query matches in a text as a whole if and only if each of its terms does, and
/// scores no less than any of them.
pub proof fn law_whole_query_matches(query: Seq<char>, haystack: Seq<char>)
    ensures
        ({
            let seen = needle::prepared(query, haystack);
            let n = atom_signs(query).len();
            &&& whole_score(query, haystack) is Some <==> forall|at: nat|
                at < n ==> (#[trigger] atom_score(query, at, seen)) is Some
            &&& whole_score(query, haystack) matches Some(total) ==> forall|at: nat|
                at < n ==> (#[trigger] atom_score(query, at, seen))->0 <= total
        }),
{
    lemma_score_sum(query, atom_signs(query).len(), needle::prepared(query, haystack));
}

} // verus!
