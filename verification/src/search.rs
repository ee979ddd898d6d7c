//! Queries: ordinary fuzzy text, mixed with operators that search one field.

use vstd::prelude::*;
use crate::config::FuzzyWeights;
use crate::fuzzy;
use crate::fuzzy::FuzzyScorer;
use crate::index;
use crate::index::IndexedSnippet;
use crate::needle;
use crate::text;

verus! {

broadcast use vstd::string::group_string_axioms;

/// A field that an operator searches.
#[derive(Debug, Clone, Copy, PartialEq, Eq, Structural)]
pub enum QueryField {
    Name,
    Path,
    Tag,
    Body,
}

/// A part of a query: a text, and the field it is looked for in where it is
/// not looked for everywhere.
#[derive(Debug, PartialEq, Eq)]
pub struct QueryTerm {
    pub field: Option<QueryField>,
    pub value: String,
}

/// What a [`QueryTerm`] holds.
pub struct TermView {
    pub field: Option<QueryField>,
    pub value: Seq<char>,
}

impl View for QueryTerm {
    type V = TermView;

    open spec fn view(&self) -> TermView {
        TermView { field: self.field, value: self.value@ }
    }
}

/// What the parts of a query hold.
pub open spec fn term_views(terms: Seq<QueryTerm>) -> Seq<TermView> {
    terms.map_values(|t: QueryTerm| t@)
}

/// The operators, and the field that each searches. `body:` is the older name
/// of `snippet:`.
pub open spec fn operators() -> Seq<(Seq<char>, QueryField)> {
    seq![
        ("name:"@, QueryField::Name),
        ("path:"@, QueryField::Path),
        ("tag:"@, QueryField::Tag),
        ("snippet:"@, QueryField::Body),
        ("body:"@, QueryField::Body),
    ]
}

/// The field and text of a word that begins with an operator.
pub open spec fn scoped(word: Seq<char>, ops: Seq<(Seq<char>, QueryField)>) -> Option<
    (QueryField, Seq<char>),
>
    decreases ops.len(),
{
    if ops.len() == 0 {
        None
    } else if ops[0].0.is_prefix_of(word) {
        Some((ops[0].1, word.skip(ops[0].0.len() as int)))
    } else {
        scoped(word, ops.skip(1))
    }
}

/// The operators with their texts. One without a text is dropped.
pub open spec fn scoped_terms(words: Seq<Seq<char>>) -> Seq<TermView>
    decreases words.len(),
{
    if words.len() == 0 {
        Seq::empty()
    } else {
        let before = scoped_terms(words.drop_last());
        match scoped(words.last(), operators()) {
            Some((field, value)) if value.len() > 0 => before.push(
                TermView { field: Some(field), value },
            ),
            _ => before,
        }
    }
}

/// The words that are no operators.
pub open spec fn free_words(words: Seq<Seq<char>>) -> Seq<Seq<char>>
    decreases words.len(),
{
    if words.len() == 0 {
        Seq::empty()
    } else {
        let before = free_words(words.drop_last());
        if scoped(words.last(), operators()) is None {
            before.push(words.last())
        } else {
            before
        }
    }
}

/// The ordinary text of a query.
pub open spec fn free_text(query: Seq<char>) -> Seq<char> {
    text::join_of(free_words(text::words_of(query)), seq![' '])
}

/// The parts of a query: its operators, and then its ordinary text where there
/// is any.
pub open spec fn terms_of(query: Seq<char>) -> Seq<TermView> {
    let ops = scoped_terms(text::words_of(query));
    if free_text(query).len() == 0 {
        ops
    } else {
        ops.push(TermView { field: None, value: free_text(query) })
    }
}

proof fn lemma_scoped_fits(word: Seq<char>, ops: Seq<(Seq<char>, QueryField)>)
    ensures
        scoped(word, ops) matches Some((_, value)) ==> value.len() <= word.len(),
    decreases ops.len(),
{
    if ops.len() > 0 && !ops[0].0.is_prefix_of(word) {
        lemma_scoped_fits(word, ops.skip(1));
    }
}

proof fn lemma_terms_fit(words: Seq<Seq<char>>)
    ensures
        text::spread_len(free_words(words)) <= text::spread_len(words),
        forall|i: int|
            0 <= i < scoped_terms(words).len() ==> (#[trigger] scoped_terms(words)[i]).value.len() + 1
                <= text::spread_len(words),
    decreases words.len(),
{
    if words.len() > 0 {
        lemma_terms_fit(words.drop_last());
        lemma_scoped_fits(words.last(), operators());
        let before = scoped_terms(words.drop_last());
        let now = scoped_terms(words);
        assert forall|i: int| 0 <= i < now.len() implies (#[trigger] now[i]).value.len() + 1
            <= text::spread_len(words) by {
            if i < before.len() {
                assert(now[i] == before[i]);
            }
        }
        let free = free_words(words.drop_last());
        assert(free.push(words.last()).drop_last() =~= free);
    }
}

/// No part of a query is longer than the query.
pub proof fn law_parts_are_no_longer(query: Seq<char>, i: int)
    requires
        0 <= i < terms_of(query).len(),
    ensures
        terms_of(query)[i].value.len() <= query.len(),
{
    let words = text::words_of(query);
    text::lemma_words_fit(query, Seq::empty());
    lemma_terms_fit(words);
    if i < scoped_terms(words).len() {
        assert(terms_of(query)[i] == scoped_terms(words)[i]);
    } else {
        lemma_free_text_fits(query);
    }
}

proof fn lemma_free_text_fits(query: Seq<char>)
    ensures
        free_text(query).len() <= query.len(),
{
    let words = text::words_of(query);
    text::lemma_words_fit(query, Seq::empty());
    lemma_terms_fit(words);
    if free_words(words).len() > 0 {
        text::lemma_join_fits(free_words(words), seq![' ']);
    }
}

/// The field and text of a word that begins with an operator.
fn operator(word: &str) -> (found: Option<(QueryField, String)>)
    ensures
        match found {
            Some((field, value)) => scoped(word@, operators()) == Some((field, value@)),
            None => scoped(word@, operators()) is None,
        },
{
    proof {
        reveal_with_fuel(scoped, 6);
        let ops = operators();
        assert(ops.skip(1)[0] == ops[1]);
        assert(ops.skip(1).skip(1)[0] == ops[2]);
        assert(ops.skip(1).skip(1).skip(1)[0] == ops[3]);
        assert(ops.skip(1).skip(1).skip(1).skip(1)[0] == ops[4]);
        assert(ops.skip(1).skip(1).skip(1).skip(1).skip(1).len() == 0);
    }
    match text::strip_prefix_text(word, "name:") {
        Some(value) => {
            return Some((QueryField::Name, value));
        },
        None => {},
    }
    match text::strip_prefix_text(word, "path:") {
        Some(value) => {
            return Some((QueryField::Path, value));
        },
        None => {},
    }
    match text::strip_prefix_text(word, "tag:") {
        Some(value) => {
            return Some((QueryField::Tag, value));
        },
        None => {},
    }
    match text::strip_prefix_text(word, "snippet:") {
        Some(value) => {
            return Some((QueryField::Body, value));
        },
        None => {},
    }
    match text::strip_prefix_text(word, "body:") {
        Some(value) => Some((QueryField::Body, value)),
        None => None,
    }
}

/// The parts of a query.
pub fn highlight_terms(query: &str) -> (terms: Vec<QueryTerm>)
    ensures
        term_views(terms@) == terms_of(query@),
{
    let words = text::words(query);
    let ghost all = text::texts(words@);
    let mut out: Vec<QueryTerm> = Vec::new();
    let mut free: Vec<String> = Vec::new();
    let mut i: usize = 0;
    assert(all.take(0) =~= Seq::<Seq<char>>::empty());
    assert(term_views(out@) =~= Seq::<TermView>::empty());
    assert(text::texts(free@) =~= Seq::<Seq<char>>::empty());
    while i < words.len()
        invariant
            i <= words@.len(),
            all == text::texts(words@),
            term_views(out@) == scoped_terms(all.take(i as int)),
            text::texts(free@) == free_words(all.take(i as int)),
        decreases words@.len() - i,
    {
        assert(all.take(i + 1).drop_last() =~= all.take(i as int));
        assert(all.take(i + 1).last() == words@[i as int]@);
        match operator(words[i].as_str()) {
            Some((field, value)) => {
                if !value.as_str().is_empty() {
                    let term = QueryTerm { field: Some(field), value };
                    let ghost before = out@;
                    out.push(term);
                    assert(term_views(out@) =~= term_views(before).push(term@));
                }
            },
            None => {
                let word = words[i].clone();
                proof {
                    text::lemma_texts_push(free@, word);
                }
                free.push(word);
            },
        }
        i = i + 1;
    }
    assert(all.take(all.len() as int) =~= all);
    let space = " ";
    proof {
        reveal_strlit(" ");
        assert(space@ =~= seq![' ']);
    }
    let value = text::join_texts(&free, space);
    if !value.as_str().is_empty() {
        let term = QueryTerm { field: None, value };
        let ghost before = out@;
        out.push(term);
        assert(term_views(out@) =~= term_views(before).push(term@));
    }
    out
}

/// The texts of a field.
pub open spec fn field_texts(entry: index::EntryView, field: QueryField) -> Seq<Seq<char>> {
    match field {
        QueryField::Name => seq![entry.snippet.name],
        QueryField::Path => seq![index::display_path(entry.relative_path)],
        QueryField::Tag => entry.frontmatter.tags,
        QueryField::Body => seq![entry.snippet.body],
    }
}

/// Whether a query matches in a text.
pub open spec fn found_in(query: Seq<char>, haystack: Seq<char>) -> bool {
    fuzzy::whole_score(query, haystack) is Some
}

/// Whether a query matches in one of the texts.
pub open spec fn found_in_any(query: Seq<char>, texts: Seq<Seq<char>>) -> bool {
    exists|i: int| 0 <= i < texts.len() && found_in(query, #[trigger] texts[i])
}

/// Whether every operator matches in its field.
pub open spec fn operators_match(entry: index::EntryView, terms: Seq<TermView>) -> bool {
    forall|i: int|
        0 <= i < terms.len() && (#[trigger] terms[i]).field is Some ==> found_in_any(
            terms[i].value,
            field_texts(entry, terms[i].field->0),
        )
}

/// The score of a snippet for a query: none where an operator does not match in
/// its field or the ordinary text does not match, else that of the text.
pub open spec fn snippet_score(
    query: Seq<char>,
    entry: index::EntryView,
    weights: FuzzyWeights,
) -> Option<u32> {
    if operators_match(entry, terms_of(query)) {
        if free_text(query).len() == 0 {
            Some(0)
        } else {
            fuzzy::cross_score(free_text(query), fuzzy::fields_of(entry, weights))
        }
    } else {
        None
    }
}

/// Whether a query matches in one of the texts of a field.
fn field_matches(scorer: &mut FuzzyScorer, entry: &IndexedSnippet, field: QueryField, value: &str) -> (yes:
    bool)
    requires
        needle::fits(value@),
        forall|i: int|
            0 <= i < field_texts(entry@, field).len() ==> needle::short_enough(
                #[trigger] field_texts(entry@, field)[i],
            ),
    ensures
        yes == found_in_any(value@, field_texts(entry@, field)),
{
    let pattern = fuzzy::build_pattern(value);
    let ghost all = field_texts(entry@, field);
    match field {
        QueryField::Tag => {
            let tags = entry.tags();
            let mut i: usize = 0;
            while i < tags.len()
                invariant
                    i <= tags@.len(),
                    pattern@ == value@,
                    all == text::texts(tags@),
                    all == field_texts(entry@, field),
                    forall|j: int| 0 <= j < all.len() ==> needle::short_enough(#[trigger] all[j]),
                    forall|j: int| 0 <= j < i ==> !found_in(value@, #[trigger] all[j]),
                decreases tags@.len() - i,
            {
                assert(all[i as int] == tags@[i as int]@);
                if scorer.score(&pattern, tags[i].as_str()).is_some() {
                    assert(found_in(value@, all[i as int]));
                    return true;
                }
                i = i + 1;
            }
            false
        },
        QueryField::Name => {
            assert(all[0] == entry@.snippet.name);
            scorer.score(&pattern, entry.name()).is_some()
        },
        QueryField::Path => {
            let path = entry.relative_path_display();
            assert(all[0] == path@);
            scorer.score(&pattern, path.as_str()).is_some()
        },
        QueryField::Body => {
            assert(all[0] == entry@.snippet.body);
            scorer.score(&pattern, entry.body()).is_some()
        },
    }
}

/// Whether the matcher has room for the scores of each part of a query.
pub open spec fn fits(query: Seq<char>) -> bool {
    forall|i: int|
        0 <= i < terms_of(query).len() ==> needle::fits((#[trigger] terms_of(query)[i]).value)
}

/// Whether the matcher has room for the scores of each part of a query.
pub fn query_fits(query: &str) -> (yes: bool)
    ensures
        yes == fits(query@),
{
    let terms = highlight_terms(query);
    let ghost all = terms_of(query@);
    let mut i: usize = 0;
    while i < terms.len()
        invariant
            i <= terms@.len(),
            term_views(terms@) == all,
            all == terms_of(query@),
            forall|j: int| 0 <= j < i ==> needle::fits((#[trigger] all[j]).value),
        decreases terms@.len() - i,
    {
        assert(all[i as int] == terms@[i as int]@);
        if !needle::query_fits(terms[i].value.as_str()) {
            return false;
        }
        i = i + 1;
    }
    true
}

/// The score of a snippet for a query.
pub fn score(scorer: &mut FuzzyScorer, query: &str, entry: &IndexedSnippet, weights: &FuzzyWeights) -> (score:
    Option<u32>)
    requires
        fits(query@),
        fuzzy::all_short(fuzzy::fields_of(entry@, *weights)),
    ensures
        score == snippet_score(query@, entry@, *weights),
{
    let terms = highlight_terms(query);
    let ghost all = terms_of(query@);
    let ghost fields = fuzzy::fields_of(entry@, *weights);
    proof {
        lemma_field_texts_are_short(entry@, *weights);
    }
    let mut i: usize = 0;
    while i < terms.len()
        invariant
            i <= terms@.len(),
            fits(query@),
            term_views(terms@) == all,
            all == terms_of(query@),
            forall|field: QueryField, k: int|
                0 <= k < field_texts(entry@, field).len() ==> needle::short_enough(
                    #[trigger] field_texts(entry@, field)[k],
                ),
            forall|j: int|
                0 <= j < i && (#[trigger] all[j]).field is Some ==> found_in_any(
                    all[j].value,
                    field_texts(entry@, all[j].field->0),
                ),
        decreases terms@.len() - i,
    {
        assert(all[i as int] == terms@[i as int]@);
        match terms[i].field {
            Some(field) => {
                if !field_matches(scorer, entry, field, terms[i].value.as_str()) {
                    assert(all[i as int].field is Some);
                    return None;
                }
            },
            None => {},
        }
        i = i + 1;
    }
    proof {
        lemma_only_last_is_free(query@);
    }
    let n: usize = terms.len();
    if n > 0 {
        assert(all[n - 1] == terms@[n - 1]@);
    }
    if n == 0 || terms[n - 1].field.is_some() {
        return Some(0);
    }
    let pattern = fuzzy::build_pattern(terms[n - 1].value.as_str());
    fuzzy::score_snippet_cross_field(scorer, &pattern, entry, weights)
}

proof fn lemma_scoped_are_scoped(words: Seq<Seq<char>>)
    ensures
        forall|i: int|
            0 <= i < scoped_terms(words).len() ==> (#[trigger] scoped_terms(words)[i]).field is Some,
    decreases words.len(),
{
    if words.len() > 0 {
        let before = scoped_terms(words.drop_last());
        lemma_scoped_are_scoped(words.drop_last());
        assert forall|i: int| 0 <= i < scoped_terms(words).len() implies (
        #[trigger] scoped_terms(words)[i]).field is Some by {
            if i < before.len() {
                assert(scoped_terms(words)[i] == before[i]);
            }
        }
    }
}

proof fn lemma_only_last_is_free(query: Seq<char>)
    ensures
        ({
            let all = terms_of(query);
            if all.len() > 0 && all.last().field is None {
                all.last().value == free_text(query) && free_text(query).len() > 0
            } else {
                free_text(query).len() == 0
            }
        }),
{
    lemma_scoped_are_scoped(text::words_of(query));
}

proof fn lemma_field_texts_are_short(entry: index::EntryView, weights: FuzzyWeights)
    requires
        fuzzy::all_short(fuzzy::fields_of(entry, weights)),
    ensures
        forall|field: QueryField, k: int|
            0 <= k < field_texts(entry, field).len() ==> needle::short_enough(
                #[trigger] field_texts(entry, field)[k],
            ),
{
    let fields = fuzzy::fields_of(entry, weights);
    let named = fuzzy::optional_field(entry.frontmatter.name, weights.frontmatter_name);
    let described = fuzzy::optional_field(entry.frontmatter.description, weights.description);
    assert forall|field: QueryField, k: int|
        0 <= k < field_texts(entry, field).len() implies needle::short_enough(
        #[trigger] field_texts(entry, field)[k],
    ) by {
        match field {
            QueryField::Name => {
                assert(fields[0].text == entry.snippet.name);
            },
            QueryField::Body => {
                assert(fields[1].text == entry.snippet.body);
            },
            QueryField::Path => {
                assert(fields[3].text == index::display_path(entry.relative_path));
            },
            QueryField::Tag => {
                let at = 4 + named.len() + described.len() + k;
                assert(fields[at].text == entry.frontmatter.tags[k]);
            },
        }
    }
}

/// A query without operators searches every field.
pub proof fn law_plain_query_searches_everything(
    query: Seq<char>,
    entry: index::EntryView,
    weights: FuzzyWeights,
)
    requires
        scoped_terms(text::words_of(query)).len() == 0,
        free_text(query).len() > 0,
    ensures
        snippet_score(query, entry, weights) == fuzzy::cross_score(
            free_text(query),
            fuzzy::fields_of(entry, weights),
        ),
{
    assert(terms_of(query).len() == 1);
    assert(terms_of(query)[0].field is None);
}

/// Whether a word of a query searches one field.
pub open spec fn is_operator(word: Seq<char>) -> bool {
    ||| "name:"@.is_prefix_of(word)
    ||| "path:"@.is_prefix_of(word)
    ||| "tag:"@.is_prefix_of(word)
    ||| "snippet:"@.is_prefix_of(word)
    ||| "body:"@.is_prefix_of(word)
}

proof fn lemma_operators_differ(word: Seq<char>)
    ensures
        "name:"@.len() == 5,
        "path:"@.len() == 5,
        "tag:"@.len() == 4,
        "snippet:"@.len() == 8,
        "body:"@.len() == 5,
        scoped(word, operators()) is Some <==> is_operator(word),
        "name:"@.is_prefix_of(word) ==> scoped(word, operators()) == Some(
            (QueryField::Name, word.skip(5)),
        ),
        "path:"@.is_prefix_of(word) ==> scoped(word, operators()) == Some(
            (QueryField::Path, word.skip(5)),
        ),
        "tag:"@.is_prefix_of(word) ==> scoped(word, operators()) == Some(
            (QueryField::Tag, word.skip(4)),
        ),
        "snippet:"@.is_prefix_of(word) ==> scoped(word, operators()) == Some(
            (QueryField::Body, word.skip(8)),
        ),
        "body:"@.is_prefix_of(word) ==> scoped(word, operators()) == Some(
            (QueryField::Body, word.skip(5)),
        ),
{
    reveal_strlit("name:");
    reveal_strlit("path:");
    reveal_strlit("tag:");
    reveal_strlit("snippet:");
    reveal_strlit("body:");
    reveal_with_fuel(scoped, 6);
    let ops = operators();
    assert(ops.skip(1)[0] == ops[1]);
    assert(ops.skip(1).skip(1)[0] == ops[2]);
    assert(ops.skip(1).skip(1).skip(1)[0] == ops[3]);
    assert(ops.skip(1).skip(1).skip(1).skip(1)[0] == ops[4]);
    assert(ops.skip(1).skip(1).skip(1).skip(1).skip(1).len() == 0);
    assert(forall|s: Seq<char>| #[trigger] s.is_prefix_of(word) && s.len() > 0 ==> s[0] == word[0]);
    assert("name:"@[0] == 'n' && "path:"@[0] == 'p' && "tag:"@[0] == 't' && "snippet:"@[0] == 's'
        && "body:"@[0] == 'b');
}

/// The field and text of a word that begins with an operator.
spec fn scope_of(word: Seq<char>) -> (QueryField, Seq<char>) {
    scoped(word, operators())->0
}

proof fn lemma_operator_terms(words: Seq<Seq<char>>, i: int)
    requires
        0 <= i < words.len(),
        scoped(words[i], operators()) is Some,
        scope_of(words[i]).1.len() > 0,
    ensures
        exists|k: int|
            0 <= k < scoped_terms(words).len() && #[trigger] scoped_terms(words)[k] == (TermView {
                field: Some(scope_of(words[i]).0),
                value: scope_of(words[i]).1,
            }),
    decreases words.len(),
{
    let all = scoped_terms(words);
    let term = TermView {
        field: Some(scope_of(words[i]).0),
        value: scope_of(words[i]).1,
    };
    if i == words.len() - 1 {
        assert(all[all.len() - 1] == term);
    } else {
        let front = words.drop_last();
        assert(front[i] == words[i]);
        lemma_operator_terms(front, i);
        let k = choose|k: int|
            0 <= k < scoped_terms(front).len() && #[trigger] scoped_terms(front)[k] == term;
        assert(all[k] == term);
    }
}

proof fn lemma_terms_are_words(words: Seq<Seq<char>>, k: int) -> (i: int)
    requires
        0 <= k < scoped_terms(words).len(),
    ensures
        0 <= i < words.len(),
        scoped(words[i], operators()) is Some,
        scope_of(words[i]).1.len() > 0,
        scoped_terms(words)[k] == (TermView {
            field: Some(scope_of(words[i]).0),
            value: scope_of(words[i]).1,
        }),
    decreases words.len(),
{
    let front = words.drop_last();
    if k < scoped_terms(front).len() {
        let i = lemma_terms_are_words(front, k);
        assert(front[i] == words[i]);
        i
    } else {
        words.len() - 1
    }
}

proof fn lemma_free_words_are_the_others(words: Seq<Seq<char>>)
    ensures
        free_words(words) == words.filter(|w: Seq<char>| !is_operator(w)),
    decreases words.len(),
{
    reveal(Seq::filter);
    if words.len() > 0 {
        lemma_free_words_are_the_others(words.drop_last());
        lemma_operators_differ(words.last());
    }
}

/// A snippet is a hit only where every operator of the query finds its text in
/// its own field, whether or not there is ordinary text beside it. An operator
/// without a text asks for nothing.
pub proof fn law_every_operator_has_to_match(
    query: Seq<char>,
    entry: index::EntryView,
    weights: FuzzyWeights,
    word: Seq<char>,
    value: Seq<char>,
)
    requires
        text::words_of(query).contains(word),
        value.len() > 0,
        snippet_score(query, entry, weights) is Some,
    ensures
        word == "name:"@ + value ==> fuzzy::whole_score(value, entry.snippet.name) is Some,
        word == "path:"@ + value ==> fuzzy::whole_score(
            value,
            index::display_path(entry.relative_path),
        ) is Some,
        word == "snippet:"@ + value || word == "body:"@ + value ==> fuzzy::whole_score(
            value,
            entry.snippet.body,
        ) is Some,
        word == "tag:"@ + value ==> exists|k: int|
            0 <= k < entry.frontmatter.tags.len() && fuzzy::whole_score(
                value,
                #[trigger] entry.frontmatter.tags[k],
            ) is Some,
{
    let words = text::words_of(query);
    let i = words.index_of(word);
    let all = terms_of(query);
    let ops = scoped_terms(words);
    let starts = seq!["name:"@, "path:"@, "tag:"@, "snippet:"@, "body:"@];
    assert forall|p: int| 0 <= p < 5 && word == starts[p] + value implies (
    #[trigger] starts[p]).is_prefix_of(word) && word.skip(starts[p].len() as int) == value by {
        assert(word.take(starts[p].len() as int) =~= starts[p]);
        assert(word.skip(starts[p].len() as int) =~= value);
    }
    assert(starts[0] == "name:"@ && starts[1] == "path:"@ && starts[2] == "tag:"@ && starts[3]
        == "snippet:"@ && starts[4] == "body:"@);
    lemma_operators_differ(word);
    if exists|p: int| 0 <= p < 5 && word == #[trigger] starts[p] + value {
        let p = choose|p: int| 0 <= p < 5 && word == #[trigger] starts[p] + value;
        assert(scope_of(word).1 == value);
        lemma_operator_terms(words, i);
        let term = TermView { field: Some(scope_of(word).0), value };
        let k = choose|k: int| 0 <= k < ops.len() && #[trigger] ops[k] == term;
        assert(all[k] == term);
        assert(found_in_any(value, field_texts(entry, term.field->0)));
        let t = choose|t: int|
            0 <= t < field_texts(entry, term.field->0).len() && found_in(
                value,
                #[trigger] field_texts(entry, term.field->0)[t],
            );
        if p == 2 {
            assert(entry.frontmatter.tags[t] == field_texts(entry, term.field->0)[t]);
        }
    }
}

/// A snippet is a hit where every operator finds its text in its own field, and
/// the other words, joined by blanks, match; its score is theirs, and nothing
/// where there are none.
pub proof fn law_ordinary_words_give_the_score(
    query: Seq<char>,
    entry: index::EntryView,
    weights: FuzzyWeights,
)
    requires
        forall|i: int, value: Seq<char>|
            #![trigger text::words_of(query)[i], value.len()]
            0 <= i < text::words_of(query).len() && value.len() > 0 ==> {
                let word = text::words_of(query)[i];
                &&& word == "name:"@ + value ==> fuzzy::whole_score(
                    value,
                    entry.snippet.name,
                ) is Some
                &&& word == "path:"@ + value ==> fuzzy::whole_score(
                    value,
                    index::display_path(entry.relative_path),
                ) is Some
                &&& word == "snippet:"@ + value || word == "body:"@ + value ==> fuzzy::whole_score(
                    value,
                    entry.snippet.body,
                ) is Some
                &&& word == "tag:"@ + value ==> exists|k: int|
                    0 <= k < entry.frontmatter.tags.len() && fuzzy::whole_score(
                        value,
                        #[trigger] entry.frontmatter.tags[k],
                    ) is Some
            },
    ensures
        ({
            let others = text::words_of(query).filter(|w: Seq<char>| !is_operator(w));
            let ordinary = text::join_of(others, seq![' ']);
            snippet_score(query, entry, weights) == (if ordinary.len() == 0 {
                Some(0u32)
            } else {
                fuzzy::cross_score(ordinary, fuzzy::fields_of(entry, weights))
            })
        }),
{
    let words = text::words_of(query);
    let all = terms_of(query);
    lemma_free_words_are_the_others(words);
    assert forall|i: int| 0 <= i < all.len() && (#[trigger] all[i]).field is Some implies found_in_any(
        all[i].value,
        field_texts(entry, all[i].field->0),
    ) by {
        assert(all[i] == scoped_terms(words)[i]);
        let w = lemma_terms_are_words(words, i);
        let word = words[w];
        let value = all[i].value;
        lemma_operators_differ(word);
        let texts = field_texts(entry, all[i].field->0);
        assert(value.len() > 0);
        let starts = seq!["name:"@, "path:"@, "tag:"@, "snippet:"@, "body:"@];
        assert forall|p: int| 0 <= p < 5 && (#[trigger] starts[p]).is_prefix_of(word) implies word
            == starts[p] + word.skip(starts[p].len() as int) by {
            assert(word =~= starts[p] + word.skip(starts[p].len() as int));
        }
        assert(starts[0] == "name:"@ && starts[1] == "path:"@ && starts[2] == "tag:"@ && starts[3]
            == "snippet:"@ && starts[4] == "body:"@);
        if "tag:"@.is_prefix_of(word) {
            let k = choose|k: int|
                0 <= k < entry.frontmatter.tags.len() && fuzzy::whole_score(
                    value,
                    #[trigger] entry.frontmatter.tags[k],
                ) is Some;
            assert(found_in(value, texts[k]));
        } else {
            assert(found_in(value, texts[0]));
        }
    }
}

/// The score is there only where the ordinary words match, too.
pub proof fn law_ordinary_words_have_to_match(
    query: Seq<char>,
    entry: index::EntryView,
    weights: FuzzyWeights,
)
    requires
        snippet_score(query, entry, weights) is Some,
    ensures
        ({
            let others = text::words_of(query).filter(|w: Seq<char>| !is_operator(w));
            let ordinary = text::join_of(others, seq![' ']);
            ordinary.len() > 0 ==> snippet_score(query, entry, weights) == fuzzy::cross_score(
                ordinary,
                fuzzy::fields_of(entry, weights),
            )
        }),
{
    lemma_free_words_are_the_others(text::words_of(query));
}

} // verus!
