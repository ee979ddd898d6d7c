//! Fuzzy search through the shell's history.

use vstd::prelude::*;
use crate::config::Theme;
use crate::execute::render::layout;
use crate::execute::render::layout::Rect;
use crate::execute::template;
use crate::fuzzy;
use crate::fuzzy::FuzzyScorer;
use crate::keybinds::{KeyCode, KeyEvent};
use crate::needle;
use crate::style;
use crate::style::{Span, Style, Text};
use crate::text;

verus! {

broadcast use vstd::string::group_string_axioms;

/// How the search was left.
#[derive(Debug, PartialEq, Eq)]
pub enum HistoryOutcome {
    /// Without a result.
    Cancelled,
    /// With a command that was run before.
    Picked(String),
    /// To look for a snippet instead.
    Snippets,
}

/// What a [`HistoryOutcome`] holds.
pub enum OutcomeView {
    Cancelled,
    Picked(Seq<char>),
    Snippets,
}

impl View for HistoryOutcome {
    type V = OutcomeView;

    open spec fn view(&self) -> OutcomeView {
        match self {
            HistoryOutcome::Cancelled => OutcomeView::Cancelled,
            HistoryOutcome::Picked(s) => OutcomeView::Picked(s@),
            HistoryOutcome::Snippets => OutcomeView::Snippets,
        }
    }
}

/// The pieces without white space around them, each once at its first place.
/// Pieces of nothing else are left out.
pub open spec fn distinct_pieces(pieces: Seq<Seq<char>>) -> Seq<Seq<char>>
    decreases pieces.len(),
{
    if pieces.len() == 0 {
        Seq::empty()
    } else {
        let before = distinct_pieces(pieces.drop_last());
        let piece = text::trim_of(pieces.last());
        if piece.len() == 0 || before.contains(piece) {
            before
        } else {
            before.push(piece)
        }
    }
}

/// The commands of a history, newest first. They stand between unit separators
/// or newlines.
pub open spec fn history_of(raw: Seq<char>) -> Seq<Seq<char>> {
    distinct_pieces(text::split_of(text::replace_char_of(raw, '\u{1F}', "\n"@), '\n'))
}

/// The commands of a history, newest first.
pub fn parse_history_payload(raw: &str) -> (entries: Vec<String>)
    ensures
        text::texts(entries@) == history_of(raw@),
{
    let lines = text::replace_char(raw, '\u{1F}', "\n");
    let pieces = text::split_text(lines.as_str(), '\n');
    let ghost all = text::texts(pieces@);
    let mut out: Vec<String> = Vec::new();
    let mut i: usize = 0;
    assert(all.take(0) =~= Seq::<Seq<char>>::empty());
    assert(text::texts(out@) =~= Seq::<Seq<char>>::empty());
    while i < pieces.len()
        invariant
            i <= pieces@.len(),
            all == text::texts(pieces@),
            text::texts(out@) == distinct_pieces(all.take(i as int)),
        decreases pieces@.len() - i,
    {
        assert(all.take(i + 1).drop_last() =~= all.take(i as int));
        assert(all.take(i + 1).last() == pieces@[i as int]@);
        let piece = text::trim(pieces[i].as_str());
        if !piece.as_str().is_empty() && !text::has_text(&out, piece.as_str()) {
            proof {
                text::lemma_texts_push(out@, piece);
            }
            out.push(piece);
        }
        i = i + 1;
    }
    assert(all.take(all.len() as int) =~= all);
    out
}

/// No command of a history comes twice, and none is empty.
pub proof fn law_history_is_distinct(pieces: Seq<Seq<char>>)
    ensures
        distinct_pieces(pieces).no_duplicates(),
        forall|i: int|
            0 <= i < distinct_pieces(pieces).len() ==> (#[trigger] distinct_pieces(
                pieces,
            )[i]).len() > 0,
    decreases pieces.len(),
{
    if pieces.len() > 0 {
        let before = distinct_pieces(pieces.drop_last());
        law_history_is_distinct(pieces.drop_last());
        let after = distinct_pieces(pieces);
        assert forall|i: int, j: int| 0 <= i < after.len() && 0 <= j < after.len() && i
            != j implies after[i] != after[j] by {
            if i < before.len() {
                assert(before.contains(before[i]));
            }
            if j < before.len() {
                assert(before.contains(before[j]));
            }
        }
    }
}

/// Whether a text can be a command of a history: it is not empty, and holds no
/// white space at its ends and no separator.
pub open spec fn is_command(s: Seq<char>) -> bool {
    &&& s.len() > 0
    &&& text::is_trimmed(s)
    &&& !s.contains('\n')
    &&& !s.contains('\u{1F}')
}

proof fn lemma_pieces_are_commands(pieces: Seq<Seq<char>>, i: int)
    requires
        forall|k: int|
            0 <= k < pieces.len() ==> !(#[trigger] pieces[k]).contains('\n')
                && !pieces[k].contains('\u{1F}'),
        0 <= i < distinct_pieces(pieces).len(),
    ensures
        is_command(distinct_pieces(pieces)[i]),
    decreases pieces.len(),
{
    let front = pieces.drop_last();
    assert forall|k: int| 0 <= k < front.len() implies !(#[trigger] front[k]).contains('\n')
        && !front[k].contains('\u{1F}') by {
        assert(front[k] == pieces[k]);
    }
    if i < distinct_pieces(front).len() {
        lemma_pieces_are_commands(front, i);
    } else {
        text::law_trimming(pieces.last());
        assert(pieces[pieces.len() - 1] == pieces.last());
    }
}

proof fn lemma_history_is_commands(raw: Seq<char>)
    ensures
        forall|i: int| 0 <= i < history_of(raw).len() ==> is_command(#[trigger] history_of(raw)[i]),
{
    reveal_strlit("\n");
    let lines = text::replace_char_of(raw, '\u{1F}', "\n"@);
    let pieces = text::split_of(lines, '\n');
    assert(!"\n"@.contains('\u{1F}'));
    text::lemma_replace_removes(raw, '\u{1F}', "\n"@);
    assert forall|k: int| 0 <= k < pieces.len() implies !(#[trigger] pieces[k]).contains('\n')
        && !pieces[k].contains('\u{1F}') by {
        text::law_pieces_hold_no_separator(lines, '\n', k);
    }
    assert forall|i: int| 0 <= i < history_of(raw).len() implies is_command(
        #[trigger] history_of(raw)[i],
    ) by {
        lemma_pieces_are_commands(pieces, i);
    }
}

proof fn lemma_commands_stay(commands: Seq<Seq<char>>)
    requires
        commands.no_duplicates(),
        forall|i: int| 0 <= i < commands.len() ==> is_command(#[trigger] commands[i]),
    ensures
        distinct_pieces(commands) == commands,
    decreases commands.len(),
{
    if commands.len() == 0 {
        assert(distinct_pieces(commands) =~= commands);
    } else {
        let front = commands.drop_last();
        assert forall|i: int| 0 <= i < front.len() implies is_command(#[trigger] front[i]) by {
            assert(front[i] == commands[i]);
        }
        lemma_commands_stay(front);
        assert(is_command(commands[commands.len() - 1]));
        assert(text::trim_of(commands.last()) == commands.last());
        assert(!front.contains(commands.last())) by {
            if front.contains(commands.last()) {
                let k = front.index_of(commands.last());
                assert(commands[k] == commands[commands.len() - 1]);
            }
        }
        assert(front.push(commands.last()) =~= commands);
    }
}

proof fn lemma_separators_become_lines(commands: Seq<Seq<char>>)
    requires
        forall|i: int| 0 <= i < commands.len() ==> is_command(#[trigger] commands[i]),
    ensures
        text::replace_char_of(text::join_of(commands, seq!['\u{1F}']), '\u{1F}', seq!['\n'])
            == text::join_of(commands, seq!['\n']),
        text::replace_char_of(text::join_of(commands, seq!['\n']), '\u{1F}', seq!['\n'])
            == text::join_of(commands, seq!['\n']),
    decreases commands.len(),
{
    let unit = '\u{1F}';
    let line = seq!['\n'];
    if commands.len() == 0 {
        text::lemma_replace_nothing(Seq::empty(), unit, line);
    } else {
        let last = commands.last();
        assert(is_command(commands[commands.len() - 1]));
        text::lemma_replace_nothing(last, unit, line);
        if commands.len() > 1 {
            let front = commands.drop_last();
            assert forall|i: int| 0 <= i < front.len() implies is_command(#[trigger] front[i]) by {
                assert(front[i] == commands[i]);
            }
            lemma_separators_become_lines(front);
            text::lemma_replace_nothing(line, unit, line);
            assert(text::replace_char_of(seq![unit], unit, line) =~= line) by {
                assert(seq![unit].drop_last() =~= Seq::<char>::empty());
                text::lemma_replace_nothing(Seq::empty(), unit, line);
            }
            text::lemma_replace_concat(text::join_of(front, seq![unit]), seq![unit], unit, line);
            text::lemma_replace_concat(
                text::join_of(front, seq![unit]) + seq![unit],
                last,
                unit,
                line,
            );
            text::lemma_replace_concat(text::join_of(front, line), line, unit, line);
            text::lemma_replace_concat(text::join_of(front, line) + line, last, unit, line);
        }
    }
}

/// The commands of a history, joined by either separator, are read back.
pub proof fn law_history_reads_back(raw: Seq<char>)
    ensures
        history_of(text::join_of(history_of(raw), seq!['\n'])) == history_of(raw),
        history_of(text::join_of(history_of(raw), seq!['\u{1F}'])) == history_of(raw),
{
    reveal_strlit("\n");
    assert("\n"@ =~= seq!['\n']);
    let commands = history_of(raw);
    lemma_history_is_commands(raw);
    law_history_is_distinct(
        text::split_of(text::replace_char_of(raw, '\u{1F}', "\n"@), '\n'),
    );
    lemma_separators_become_lines(commands);
    lemma_commands_stay(commands);
    if commands.len() > 0 {
        text::law_split_undoes_join(commands, '\n');
    } else {
        let pieces = text::split_of(Seq::empty(), '\n');
        assert(pieces.drop_last() =~= Seq::<Seq<char>>::empty());
        assert(text::trim_of(pieces.last()).len() == 0);
        assert(distinct_pieces(pieces) =~= commands);
    }
}

/// The score of a query in a command; none where it does not match.
pub open spec fn score_of(filter: Seq<char>, entry: Seq<char>) -> Option<int> {
    fuzzy::whole_score(filter, entry)
}

/// A list of places, with another one behind everything that does not score
/// less.
pub open spec fn put_ranked(
    list: Seq<int>,
    entries: Seq<Seq<char>>,
    filter: Seq<char>,
    i: int,
) -> Seq<int>
    decreases list.len(),
{
    if list.len() > 0 && score_of(filter, entries[list.last()])->0 < score_of(
        filter,
        entries[i],
    )->0 {
        put_ranked(list.drop_last(), entries, filter, i).push(list.last())
    } else {
        list.push(i)
    }
}

/// The places of the first `n` commands that match: the best score first, and
/// among equals the newest.
pub open spec fn ranked(entries: Seq<Seq<char>>, filter: Seq<char>, n: int) -> Seq<int>
    decreases n,
{
    if n <= 0 {
        Seq::empty()
    } else {
        let before = ranked(entries, filter, n - 1);
        if score_of(filter, entries[n - 1]) is Some {
            put_ranked(before, entries, filter, n - 1)
        } else {
            before
        }
    }
}

/// The places of the commands that are shown: those that match, or all of them
/// in order where nothing was typed.
pub open spec fn shown_places(entries: Seq<Seq<char>>, filter: Seq<char>) -> Seq<int> {
    if filter.len() == 0 {
        Seq::new(entries.len(), |i: int| i)
    } else {
        ranked(entries, filter, entries.len() as int)
    }
}

/// Whether the place `a` comes before the place `b`.
pub open spec fn comes_first(entries: Seq<Seq<char>>, filter: Seq<char>, a: int, b: int) -> bool {
    let x = score_of(filter, entries[a])->0;
    let y = score_of(filter, entries[b])->0;
    x > y || (x == y && a < b)
}

proof fn lemma_put_ranked(
    list: Seq<int>,
    entries: Seq<Seq<char>>,
    filter: Seq<char>,
    i: int,
)
    requires
        forall|a: int, b: int|
            0 <= a < b < list.len() ==> comes_first(
                entries,
                filter,
                #[trigger] list[a],
                #[trigger] list[b],
            ),
        forall|a: int| 0 <= a < list.len() ==> 0 <= #[trigger] list[a] < i,
    ensures
        forall|a: int, b: int|
            0 <= a < b < list.len() + 1 ==> comes_first(
                entries,
                filter,
                #[trigger] put_ranked(list, entries, filter, i)[a],
                #[trigger] put_ranked(list, entries, filter, i)[b],
            ),
        put_ranked(list, entries, filter, i).len() == list.len() + 1,
        forall|x: int| #[trigger]
            put_ranked(list, entries, filter, i).contains(x) <==> list.contains(x) || x == i,
    decreases list.len(),
{
    let out = put_ranked(list, entries, filter, i);
    if list.len() > 0 && score_of(filter, entries[list.last()])->0 < score_of(
        filter,
        entries[i],
    )->0 {
        let front = list.drop_last();
        assert forall|a: int, b: int| 0 <= a < b < front.len() implies comes_first(
            entries,
            filter,
            #[trigger] front[a],
            #[trigger] front[b],
        ) by {
            assert(comes_first(entries, filter, list[a], list[b]));
        }
        assert forall|a: int| 0 <= a < front.len() implies 0 <= #[trigger] front[a] < i by {
            assert(0 <= list[a] < i);
        }
        lemma_put_ranked(front, entries, filter, i);
        let inner = put_ranked(front, entries, filter, i);
        assert forall|a: int, b: int| 0 <= a < b < out.len() implies comes_first(
            entries,
            filter,
            #[trigger] out[a],
            #[trigger] out[b],
        ) by {
            if b < inner.len() {
                assert(comes_first(entries, filter, inner[a], inner[b]));
            } else {
                assert(inner.contains(inner[a]));
                if inner[a] != i {
                    let k = front.index_of(inner[a]);
                    assert(front.contains(inner[a]));
                    assert(comes_first(entries, filter, list[k], list[list.len() - 1]));
                }
            }
        }
        assert forall|x: int| out.contains(x) <==> list.contains(x) || x == i by {
            if out.contains(x) {
                let k = out.index_of(x);
                if k < inner.len() {
                    assert(inner[k] == x);
                    assert(inner.contains(x));
                    if x != i {
                        assert(front.contains(x));
                        let m = front.index_of(x);
                        assert(front[m] == x);
                        assert(list[m] == x);
                    }
                } else {
                    assert(list[list.len() - 1] == x);
                }
            }
            if list.contains(x) || x == i {
                if x == i {
                    assert(inner.contains(x));
                    let k = inner.index_of(x);
                    assert(out[k] == x);
                } else {
                    let m = list.index_of(x);
                    if m < front.len() {
                        assert(front[m] == x);
                        assert(front.contains(x));
                        assert(inner.contains(x));
                        let k = inner.index_of(x);
                        assert(out[k] == x);
                    } else {
                        assert(out[out.len() - 1] == x);
                    }
                }
            }
        }
    } else {
        assert forall|a: int, b: int| 0 <= a < b < out.len() implies comes_first(
            entries,
            filter,
            #[trigger] out[a],
            #[trigger] out[b],
        ) by {
            if b < list.len() {
                assert(comes_first(entries, filter, list[a], list[b]));
            } else {
                assert(out[a] == list[a]);
                if a < list.len() - 1 {
                    assert(comes_first(entries, filter, list[a], list[list.len() - 1]));
                }
                assert(0 <= list[a] < i);
            }
        }
        assert forall|x: int| out.contains(x) <==> list.contains(x) || x == i by {
            if list.contains(x) {
                let m = list.index_of(x);
                assert(out[m] == x);
            }
            if x == i {
                assert(out[list.len() as int] == x);
            }
            if out.contains(x) {
                let k = out.index_of(x);
                if k < list.len() {
                    assert(list[k] == x);
                }
            }
        }
    }
}

/// What is shown is every command that matches, once, and in order: the best
/// score first, and among equals the newest.
pub proof fn law_ranking_is_by_score(entries: Seq<Seq<char>>, filter: Seq<char>, n: int)
    requires
        0 <= n <= entries.len(),
    ensures
        forall|a: int, b: int|
            0 <= a < b < ranked(entries, filter, n).len() ==> comes_first(
                entries,
                filter,
                #[trigger] ranked(entries, filter, n)[a],
                #[trigger] ranked(entries, filter, n)[b],
            ),
        forall|i: int|
            ranked(entries, filter, n).contains(i) <==> 0 <= i < n && score_of(
                filter,
                #[trigger] entries[i],
            ) is Some,
        forall|a: int|
            0 <= a < ranked(entries, filter, n).len() ==> 0 <= #[trigger] ranked(
                entries,
                filter,
                n,
            )[a] < n,
    decreases n,
{
    if n > 0 {
        law_ranking_is_by_score(entries, filter, n - 1);
        let before = ranked(entries, filter, n - 1);
        lemma_put_ranked(before, entries, filter, n - 1);
        let after = ranked(entries, filter, n);
        assert forall|a: int| 0 <= a < after.len() implies 0 <= #[trigger] after[a] < n by {
            assert(after.contains(after[a]));
            if score_of(filter, entries[n - 1]) is Some {
                if after[a] != n - 1 {
                    let k = before.index_of(after[a]);
                    assert(before.contains(after[a]));
                    assert(0 <= before[k] < n - 1);
                }
            }
        }
    }
}

/// What a [`HistoryTrialState`] holds.
#[verifier::ext_equal]
pub struct HistoryView {
    pub entries: Seq<Seq<char>>,
    pub filter: Seq<char>,
    pub cursor: int,
}

impl HistoryView {
    /// The places of the commands that are shown.
    pub open spec fn places(self) -> Seq<int> {
        shown_places(self.entries, self.filter)
    }

    /// The commands that are shown.
    pub open spec fn visible(self) -> Seq<Seq<char>> {
        self.places().map_values(|i: int| self.entries[i])
    }

    /// The highlighted command.
    pub open spec fn highlighted(self) -> Option<Seq<char>> {
        if self.cursor < self.places().len() {
            Some(self.entries[self.places()[self.cursor]])
        } else {
            None
        }
    }

    /// With another text typed.
    pub open spec fn filtered(self, filter: Seq<char>) -> HistoryView {
        HistoryView { filter, cursor: 0, ..self }
    }

    /// With the highlight moved, around the ends of the list.
    pub open spec fn moved(self, delta: int) -> HistoryView {
        let len = self.places().len() as int;
        HistoryView {
            cursor: if len == 0 {
                0
            } else {
                (self.cursor + delta) % len
            },
            ..self
        }
    }

    /// Whether the matcher can take the commands and what was typed, and the
    /// highlight is in the list.
    pub open spec fn wf(self) -> bool {
        &&& needle::fits(self.filter)
        &&& all_short(self.entries)
        &&& 0 <= self.cursor
        &&& self.cursor < self.places().len() || self.cursor == 0
    }
}

/// Whether the matcher can take each command.
pub open spec fn all_short(entries: Seq<Seq<char>>) -> bool {
    forall|i: int| 0 <= i < entries.len() ==> needle::short_enough(#[trigger] entries[i])
}

/// The state of the search.
pub struct HistoryTrialState {
    entries: Vec<String>,
    filter: String,
    filtered: Vec<usize>,
    cursor: usize,
    scorer: FuzzyScorer,
}

/// Places as integers.
pub open spec fn place_ints(places: Seq<usize>) -> Seq<int> {
    places.map_values(|p: usize| p as int)
}

impl View for HistoryTrialState {
    type V = HistoryView;

    closed spec fn view(&self) -> HistoryView {
        HistoryView {
            entries: text::texts(self.entries@),
            filter: self.filter@,
            cursor: self.cursor as int,
        }
    }
}

impl HistoryTrialState {
    #[verifier::type_invariant]
    closed spec fn fresh(&self) -> bool {
        &&& place_ints(self.filtered@) == shown_places(text::texts(self.entries@), self.filter@)
        &&& forall|k: int|
            0 <= k < self.filtered@.len() ==> #[trigger] self.filtered@[k] < self.entries@.len()
    }

    /// The search at its start, with a text typed already. Where nothing
    /// matches it, it is dropped.
    pub fn new(entries: Vec<String>, seed_query: &str) -> (state: Self)
        requires
            all_short(text::texts(entries@)),
            needle::fits(seed_query@),
        ensures
            state@ == (HistoryView {
                entries: text::texts(entries@),
                filter: if shown_places(text::texts(entries@), seed_query@).len() == 0 {
                    Seq::empty()
                } else {
                    seed_query@
                },
                cursor: 0,
            }),
            state@.wf(),
    {
        let mut scorer = FuzzyScorer::new();
        let filtered = rank(&entries, seed_query, &mut scorer);
        assert(place_ints(filtered@).len() == filtered@.len());
        if filtered.len() == 0 {
            let filter = String::new();
            assert(filter@ =~= Seq::<char>::empty());
            let all = rank(&entries, filter.as_str(), &mut scorer);
            return HistoryTrialState { entries, filter, filtered: all, cursor: 0, scorer };
        }
        HistoryTrialState { entries, filter: seed_query.to_owned(), filtered, cursor: 0, scorer }
    }

    /// What was typed.
    pub fn filter(&self) -> (s: &str)
        ensures
            s@ == self@.filter,
    {
        self.filter.as_str()
    }

    /// The commands that are shown.
    pub fn visible(&self) -> (list: Vec<&str>)
        ensures
            list@.map_values(|s: &str| s@) == self@.visible(),
    {
        proof {
            use_type_invariant(self);
        }
        let ghost places = self@.places();
        let ghost whole = self@.visible();
        assert(places == place_ints(self.filtered@));
        let mut out: Vec<&str> = Vec::new();
        let mut i: usize = 0;
        assert(out@.map_values(|s: &str| s@) =~= whole.take(0));
        while i < self.filtered.len()
            invariant
                i <= self.filtered@.len(),
                places == place_ints(self.filtered@),
                whole == places.map_values(|i: int| self@.entries[i]),
                self@.entries == text::texts(self.entries@),
                forall|k: int|
                    0 <= k < self.filtered@.len() ==> #[trigger] self.filtered@[k]
                        < self.entries@.len(),
                out@.map_values(|s: &str| s@) == whole.take(i as int),
            decreases self.filtered@.len() - i,
        {
            let place = self.filtered[i];
            assert(places[i as int] == place);
            let ghost before = out@;
            out.push(self.entries[place].as_str());
            assert(whole[i as int] == self.entries@[place as int]@);
            assert(out@.map_values(|s: &str| s@) =~= before.map_values(|s: &str| s@).push(
                whole[i as int],
            ));
            assert(whole.take(i + 1) =~= whole.take(i as int).push(whole[i as int]));
            i = i + 1;
        }
        assert(whole.take(whole.len() as int) =~= whole);
        out
    }

    /// The highlighted row.
    pub fn cursor(&self) -> (row: usize)
        ensures
            row == self@.cursor,
    {
        self.cursor
    }

    /// The highlighted command.
    pub fn selected(&self) -> (command: Option<&str>)
        ensures
            crate::config::str_view(command) == self@.highlighted(),
    {
        proof {
            use_type_invariant(self);
        }
        assert(self@.places() == place_ints(self.filtered@));
        if self.cursor < self.filtered.len() {
            let place = self.filtered[self.cursor];
            assert(self@.places()[self.cursor as int] == place);
            Some(self.entries[place].as_str())
        } else {
            None
        }
    }

    /// Moves the highlight, around the ends of the list.
    pub fn move_cursor(&mut self, delta: i32)
        requires
            old(self)@.wf(),
        ensures
            final(self)@ == old(self)@.moved(delta as int),
            final(self)@.wf(),
    {
        proof {
            use_type_invariant(&*self);
        }
        let ghost before = self@;
        assert(before.places() == place_ints(self.filtered@));
        let len: usize = self.filtered.len();
        if len == 0 {
            self.cursor = 0;
            assert(self@ =~= before.moved(delta as int));
            return;
        }
        self.cursor = wrapped(self.cursor, delta, len);
        assert(self@ =~= before.moved(delta as int));
        assert(self@.places() == before.places());
    }

    /// Types a character.
    pub fn type_char(&mut self, c: char)
        requires
            old(self)@.wf(),
            needle::fits(old(self)@.filter.push(c)),
        ensures
            final(self)@ == old(self)@.filtered(old(self)@.filter.push(c)),
            final(self)@.wf(),
    {
        let mut filter = self.filter.clone();
        filter.push(c);
        self.set_filter(filter);
    }

    /// Takes back the last character.
    pub fn backspace(&mut self)
        requires
            old(self)@.wf(),
        ensures
            final(self)@ == old(self)@.filtered(
                if old(self)@.filter.len() > 0 {
                    old(self)@.filter.drop_last()
                } else {
                    old(self)@.filter
                },
            ),
            final(self)@.wf(),
    {
        let chars = text::chars_of(self.filter.as_str());
        let n: usize = chars.len();
        let filter = if n > 0 {
            let front = text::string_from(&chars, 0, n - 1);
            assert(front@ =~= chars@.drop_last());
            front
        } else {
            self.filter.clone()
        };
        self.set_filter(filter);
    }

    fn set_filter(&mut self, filter: String)
        requires
            old(self)@.wf(),
            needle::fits(filter@),
        ensures
            final(self)@ == old(self)@.filtered(filter@),
            final(self)@.wf(),
    {
        let ghost before = self@;
        let mut taken = HistoryTrialState::empty();
        std::mem::swap(&mut taken, self);
        let HistoryTrialState { entries, filter: _, filtered: _, cursor: _, scorer } = taken;
        let mut scorer = scorer;
        let filtered = rank(&entries, filter.as_str(), &mut scorer);
        *self = HistoryTrialState { entries, filter, filtered, cursor: 0, scorer };
        assert(self@ =~= before.filtered(filter@));
    }

    /// A search through nothing, with nothing typed.
    fn empty() -> (state: Self)
        ensures
            state@ == (HistoryView { entries: Seq::empty(), filter: Seq::empty(), cursor: 0 }),
    {
        let entries: Vec<String> = Vec::new();
        let filter = String::new();
        let filtered: Vec<usize> = Vec::new();
        assert(filter@ =~= Seq::<char>::empty());
        assert(text::texts(entries@) =~= Seq::<Seq<char>>::empty());
        assert(place_ints(filtered@) =~= shown_places(text::texts(entries@), filter@));
        HistoryTrialState { entries, filter, filtered, cursor: 0, scorer: FuzzyScorer::new() }
    }
}

/// A row so many rows away, around the ends of the list.
fn wrapped(row: usize, delta: i32, len: usize) -> (out: usize)
    requires
        row < len,
    ensures
        out == (row + delta) % len as int,
        out < len,
{
    let wide: i128 = row as i128 + delta as i128;
    if wide >= 0 {
        let sum: u128 = wide as u128;
        let rest: u128 = sum % (len as u128);
        rest as usize
    } else {
        let below: u128 = (-wide) as u128;
        let rest: u128 = below % (len as u128);
        proof {
            lemma_mod_below(below as int, len as int);
        }
        if rest == 0 {
            0
        } else {
            len - rest as usize
        }
    }
}

/// The remainder of a negative number.
proof fn lemma_mod_below(below: int, len: int)
    requires
        0 < below,
        0 < len,
    ensures
        (-below) % len == (if below % len == 0 {
            0
        } else {
            len - below % len
        }),
{
    let q = below / len;
    let r = below % len;
    vstd::arithmetic::div_mod::lemma_fundamental_div_mod(below, len);
    if r == 0 {
        assert(-below == len * (-q) + 0) by (nonlinear_arith)
            requires
                below == len * q + r,
                r == 0,
        ;
        vstd::arithmetic::div_mod::lemma_fundamental_div_mod_converse(-below, len, -q, 0);
    } else {
        assert(-below == len * (-q - 1) + (len - r)) by (nonlinear_arith)
            requires
                below == len * q + r,
        ;
        vstd::arithmetic::div_mod::lemma_fundamental_div_mod_converse(
            -below,
            len,
            -q - 1,
            len - r,
        );
    }
}

/// Where the last places score less and the one before them does not, the new
/// place stands between.
proof fn lemma_put_at(
    list: Seq<int>,
    entries: Seq<Seq<char>>,
    filter: Seq<char>,
    i: int,
    at: int,
)
    requires
        0 <= at <= list.len(),
        forall|k: int|
            at <= k < list.len() ==> score_of(filter, entries[#[trigger] list[k]])->0 < score_of(
                filter,
                entries[i],
            )->0,
        at > 0 ==> score_of(filter, entries[list[at - 1]])->0 >= score_of(filter, entries[i])->0,
    ensures
        put_ranked(list, entries, filter, i) == list.insert(at, i),
    decreases list.len(),
{
    if at < list.len() {
        let front = list.drop_last();
        assert(list.last() == list[list.len() - 1]);
        assert forall|k: int| at <= k < front.len() implies score_of(
            filter,
            entries[#[trigger] front[k]],
        )->0 < score_of(filter, entries[i])->0 by {
            assert(front[k] == list[k]);
        }
        if at > 0 {
            assert(front[at - 1] == list[at - 1]);
        }
        lemma_put_at(front, entries, filter, i, at);
        assert(front.insert(at, i).push(list.last()) =~= list.insert(at, i));
    } else {
        assert(list.insert(at, i) =~= list.push(i));
    }
}

/// The places of the commands that are shown.
fn rank(entries: &Vec<String>, filter: &str, scorer: &mut FuzzyScorer) -> (places: Vec<usize>)
    requires
        all_short(text::texts(entries@)),
        needle::fits(filter@),
    ensures
        place_ints(places@) == shown_places(text::texts(entries@), filter@),
        forall|k: int| 0 <= k < places@.len() ==> #[trigger] places@[k] < entries@.len(),
{
    let ghost all = text::texts(entries@);
    let n: usize = entries.len();
    let mut list: Vec<usize> = Vec::new();
    let mut i: usize = 0;
    if filter.is_empty() {
        let ghost whole = shown_places(all, filter@);
        assert(place_ints(list@) =~= whole.take(0));
        while i < n
            invariant
                i <= n,
                n == all.len(),
                n == entries@.len(),
                filter@.len() == 0,
                whole == shown_places(all, filter@),
                place_ints(list@) == whole.take(i as int),
                forall|k: int| 0 <= k < list@.len() ==> #[trigger] list@[k] < n,
            decreases n - i,
        {
            let ghost before = list@;
            list.push(i);
            assert(place_ints(list@) =~= place_ints(before).push(i as int));
            assert(whole.take(i + 1) =~= whole.take(i as int).push(whole[i as int]));
            i = i + 1;
        }
        assert(whole.take(whole.len() as int) =~= whole);
        return list;
    }
    let pattern = fuzzy::build_pattern(filter);
    let mut scores: Vec<u32> = Vec::new();
    assert(place_ints(list@) =~= ranked(all, filter@, 0));
    while i < n
        invariant
            i <= n,
            n == all.len(),
            n == entries@.len(),
            all == text::texts(entries@),
            all_short(all),
            pattern@ == filter@,
            scores@.len() == list@.len(),
            place_ints(list@) == ranked(all, filter@, i as int),
            forall|k: int| 0 <= k < list@.len() ==> #[trigger] list@[k] < n,
            forall|k: int|
                0 <= k < list@.len() ==> score_of(filter@, all[#[trigger] list@[k] as int])
                    == Some(scores@[k] as int),
        decreases n - i,
    {
        assert(needle::short_enough(all[i as int]));
        match scorer.score(&pattern, entries[i].as_str()) {
            Some(score) => {
                assert(score_of(filter@, all[i as int]) == Some(score as int));
                let mut at: usize = list.len();
                while at > 0 && scores[at - 1] < score
                    invariant
                        at <= list@.len(),
                        scores@.len() == list@.len(),
                        forall|k: int| at <= k < list@.len() ==> #[trigger] scores@[k] < score,
                    decreases at,
                {
                    at = at - 1;
                }
                let ghost before = list@;
                let ghost old_scores = scores@;
                proof {
                    let ints = place_ints(before);
                    assert forall|k: int| at <= k < ints.len() implies score_of(
                        filter@,
                        all[#[trigger] ints[k]],
                    )->0 < score_of(filter@, all[i as int])->0 by {
                        assert(ints[k] == before[k]);
                        assert(old_scores[k] < score);
                    }
                    if at > 0 {
                        assert(ints[at - 1] == before[at - 1]);
                    }
                    lemma_put_at(ints, all, filter@, i as int, at as int);
                }
                list.insert(at, i);
                scores.insert(at, score);
                assert(place_ints(list@) =~= place_ints(before).insert(at as int, i as int));
                assert forall|k: int| 0 <= k < list@.len() implies score_of(
                    filter@,
                    all[#[trigger] list@[k] as int],
                ) == Some(scores@[k] as int) by {
                    if k < at {
                        assert(list@[k] == before[k]);
                        assert(scores@[k] == old_scores[k]);
                    } else if k > at {
                        assert(list@[k] == before[k - 1]);
                        assert(scores@[k] == old_scores[k - 1]);
                    }
                }
            },
            None => {},
        }
        i = i + 1;
    }
    list
}

/// What a key does.
pub struct HistoryStep {
    pub state: HistoryView,
    pub outcome: Option<OutcomeView>,
}

/// The state, with the search going on.
pub open spec fn goes_on(state: HistoryView) -> HistoryStep {
    HistoryStep { state, outcome: None }
}

/// What a key does: Escape and Ctrl+C cancel, Enter takes the highlighted
/// command, Ctrl+T looks for a snippet instead.
pub open spec fn key_step(state: HistoryView, key: KeyEvent) -> HistoryStep {
    let leave = |outcome: OutcomeView| HistoryStep { state, outcome: Some(outcome) };
    if key.release {
        goes_on(state)
    } else if key.chord.control {
        match key.chord.code {
            KeyCode::Char('c') => leave(OutcomeView::Cancelled),
            KeyCode::Char('t') => leave(OutcomeView::Snippets),
            KeyCode::Char('p') => goes_on(state.moved(-1)),
            KeyCode::Char('n') => goes_on(state.moved(1)),
            _ => goes_on(state),
        }
    } else {
        match key.chord.code {
            KeyCode::Esc => leave(OutcomeView::Cancelled),
            KeyCode::Enter => match state.highlighted() {
                Some(command) => leave(OutcomeView::Picked(command)),
                None => goes_on(state),
            },
            KeyCode::Up => goes_on(state.moved(-1)),
            KeyCode::Down => goes_on(state.moved(1)),
            KeyCode::Backspace => goes_on(
                state.filtered(
                    if state.filter.len() > 0 {
                        state.filter.drop_last()
                    } else {
                        state.filter
                    },
                ),
            ),
            KeyCode::Char(c) => goes_on(state.filtered(state.filter.push(c))),
            _ => goes_on(state),
        }
    }
}

/// An outcome, if there is one.
pub open spec fn outcome_view(outcome: Option<HistoryOutcome>) -> Option<OutcomeView> {
    match outcome {
        Some(o) => Some(o@),
        None => None,
    }
}

/// Whether a key types a character.
pub open spec fn types(key: KeyEvent) -> bool {
    !key.release && !key.chord.control && key.chord.code is Char
}

/// Whether a key types a character.
pub fn types_char(key: &KeyEvent) -> (yes: bool)
    ensures
        yes == types(*key),
{
    !key.release && !key.chord.control && match key.chord.code {
        KeyCode::Char(_) => true,
        _ => false,
    }
}

/// Takes a key. `None` while the search goes on.
pub fn handle_key(state: &mut HistoryTrialState, key: &KeyEvent) -> (outcome: Option<HistoryOutcome>)
    requires
        old(state)@.wf(),
        types(*key) ==> needle::fits(old(state)@.filter.push(key.chord.code->Char_0)),
    ensures
        ({
            let step = key_step(old(state)@, *key);
            final(state)@ == step.state && outcome_view(outcome) == step.outcome
        }),
        final(state)@.wf(),
{
    if key.release {
        return None;
    }
    if key.chord.control {
        return match key.chord.code {
            KeyCode::Char('c') => Some(HistoryOutcome::Cancelled),
            KeyCode::Char('t') => Some(HistoryOutcome::Snippets),
            KeyCode::Char('p') => {
                state.move_cursor(-1);
                None
            },
            KeyCode::Char('n') => {
                state.move_cursor(1);
                None
            },
            _ => None,
        };
    }
    match key.chord.code {
        KeyCode::Esc => Some(HistoryOutcome::Cancelled),
        KeyCode::Enter => match state.selected() {
            Some(command) => Some(HistoryOutcome::Picked(command.to_owned())),
            None => None,
        },
        KeyCode::Up => {
            state.move_cursor(-1);
            None
        },
        KeyCode::Down => {
            state.move_cursor(1);
            None
        },
        KeyCode::Backspace => {
            state.backspace();
            None
        },
        KeyCode::Char(c) => {
            state.type_char(c);
            None
        },
        _ => None,
    }
}

/// Going one row forth and one row back leads to the same row.
pub proof fn law_moving_forth_and_back(state: HistoryView)
    requires
        state.wf(),
    ensures
        state.moved(1).moved(-1) == state,
        state.moved(-1).moved(1) == state,
{
    let len = state.places().len() as int;
    if len > 0 {
        let c = state.cursor;
        let up = state.moved(1);
        let down = state.moved(-1);
        assert(up.places() == state.places());
        assert(down.places() == state.places());
        vstd::arithmetic::div_mod::lemma_mod_self_0(len);
        if c + 1 < len {
            vstd::arithmetic::div_mod::lemma_small_mod((c + 1) as nat, len as nat);
        }
        lemma_mod_below(1, len);
        vstd::arithmetic::div_mod::lemma_small_mod(c as nat, len as nat);
        if len > 1 {
            vstd::arithmetic::div_mod::lemma_small_mod(1, len as nat);
        }
        if c > 0 {
            vstd::arithmetic::div_mod::lemma_small_mod((c - 1) as nat, len as nat);
        }
        assert(up.moved(-1).cursor == c);
        assert(down.moved(1).cursor == c);
        assert(up.moved(-1) =~= state);
        assert(down.moved(1) =~= state);
    } else {
        assert(state.moved(1).moved(-1) =~= state);
        assert(state.moved(-1).moved(1) =~= state);
    }
}

/// How many lines show the highlighted command in full: none where there is
/// little room.
pub open spec fn strip_lines(height: u16) -> u16 {
    if height >= 7 {
        2
    } else {
        0
    }
}

/// The area of the list: below the line for what was typed and a divider, above
/// the strip and its divider.
pub open spec fn list_area_of(content: Rect) -> Rect {
    let strip = strip_lines(content.height);
    Rect {
        x: content.x,
        y: template::screen((content.y + 2) as nat),
        width: content.width,
        height: layout::less(
            content.height,
            (2 + strip + (if strip > 0 {
                1int
            } else {
                0
            })) as nat,
        ),
    }
}

/// The first row that is shown: the highlighted row stands in the middle where
/// the list is longer than its area, as far as the ends of the list let it.
pub open spec fn window_start(total: int, height: int, cursor: int) -> int {
    let middle = if cursor > height / 2 {
        cursor - height / 2
    } else {
        0
    };
    if total <= height {
        0
    } else if middle < total - height {
        middle
    } else {
        total - height
    }
}

/// The highlighted row is always shown, and no room is wasted.
pub proof fn law_highlight_is_in_the_window(total: int, height: int, cursor: int)
    requires
        0 < height,
        0 <= cursor < total,
    ensures
        0 <= window_start(total, height, cursor) <= cursor,
        cursor < window_start(total, height, cursor) + height,
        total > height ==> window_start(total, height, cursor) + height <= total,
{
}

/// A row of the list.
pub open spec fn history_row(theme: Theme, command: Seq<char>, selected: bool) -> Seq<
    style::SpanView,
> {
    if selected {
        seq![
            style::styled_span("▌ "@, theme.fuzzy_highlight),
            style::styled_span(command, theme.selected_item),
        ]
    } else {
        seq![
            style::styled_span("  "@, theme.chrome),
            style::styled_span(command, Style::plain()),
        ]
    }
}

/// How many rows are shown.
pub open spec fn window_len(total: int, height: int) -> int {
    if total < height {
        total
    } else {
        height
    }
}

/// The rows that are shown.
pub open spec fn history_rows(theme: Theme, state: HistoryView, height: u16) -> Seq<
    Seq<style::SpanView>,
> {
    let list = state.visible();
    let start = window_start(list.len() as int, height as int, state.cursor);
    Seq::new(
        window_len(list.len() as int, height as int) as nat,
        |k: int| history_row(theme, list[start + k], start + k == state.cursor),
    )
}

/// The lines that show the highlighted command in full.
pub struct HistoryStrip {
    /// The line of the divider.
    pub divider: u16,
    pub area: Rect,
    pub command: String,
}

/// The search as it is drawn.
pub struct HistoryScreen {
    pub filter_area: Rect,
    /// The line with what was typed.
    pub filter: Vec<Span>,
    /// The line of the divider below it.
    pub divider: u16,
    pub list_area: Rect,
    pub rows: Text,
    pub strip: Option<HistoryStrip>,
}

/// The highlighted command; nothing where there is none.
pub open spec fn strip_text(state: HistoryView) -> Seq<char> {
    match state.highlighted() {
        Some(command) => command,
        None => Seq::empty(),
    }
}

fn behind(at: u16, cells: u16) -> (out: u16)
    ensures
        out == template::screen((at + cells) as nat),
{
    template::to_screen(at as u64 + cells as u64)
}

/// Draws the search into an area. `None` where the area has no lines.
pub fn render(content: Rect, state: &HistoryTrialState, theme: &Theme) -> (screen: Option<
    HistoryScreen,
>)
    requires
        state@.wf(),
    ensures
        match screen {
            None => content.height == 0,
            Some(s) => {
                &&& content.height > 0
                &&& s.filter_area == (Rect { height: 1, ..content })
                &&& style::span_views(s.filter@) == seq![
                    style::styled_span("History: "@, theme.chrome),
                    style::styled_span(state@.filter, theme.emphasis),
                ]
                &&& s.divider == template::screen((content.y + 1) as nat)
                &&& s.list_area == list_area_of(content)
                &&& s.rows@ == history_rows(*theme, state@, list_area_of(content).height)
                &&& match s.strip {
                    None => strip_lines(content.height) == 0,
                    Some(strip) => {
                        let y = template::screen(
                            (list_area_of(content).y + list_area_of(content).height) as nat,
                        );
                        &&& strip_lines(content.height) > 0
                        &&& strip.divider == y
                        &&& strip.area == (Rect {
                            x: content.x,
                            y: template::screen((y + 1) as nat),
                            width: content.width,
                            height: strip_lines(content.height),
                        })
                        &&& strip.command@ == strip_text(state@)
                    },
                }
            },
        },
{
    if content.height == 0 {
        return None;
    }
    let mut filter: Vec<Span> = Vec::new();
    filter.push(Span::styled("History: ".to_owned(), theme.chrome));
    filter.push(Span::styled(state.filter().to_owned(), theme.emphasis));
    assert(style::span_views(filter@) =~= seq![
        style::styled_span("History: "@, theme.chrome),
        style::styled_span(state@.filter, theme.emphasis),
    ]);
    let strip_height: u16 = if content.height >= 7 {
        2
    } else {
        0
    };
    let taken: u16 = if strip_height > 0 {
        5
    } else {
        2
    };
    let list_area = Rect {
        x: content.x,
        y: behind(content.y, 2),
        width: content.width,
        height: content.height.saturating_sub(taken),
    };
    assert(list_area == list_area_of(content));
    let rows = draw_rows(state, list_area.height, theme);
    let strip = if strip_height > 0 {
        let y = behind(list_area.y, list_area.height);
        let command = match state.selected() {
            Some(command) => command.to_owned(),
            None => String::new(),
        };
        assert(command@ =~= strip_text(state@));
        Some(
            HistoryStrip {
                divider: y,
                area: Rect {
                    x: content.x,
                    y: behind(y, 1),
                    width: content.width,
                    height: strip_height,
                },
                command,
            },
        )
    } else {
        None
    };
    Some(
        HistoryScreen {
            filter_area: Rect { height: 1, ..content },
            filter,
            divider: behind(content.y, 1),
            list_area,
            rows,
            strip,
        },
    )
}

fn draw_rows(state: &HistoryTrialState, height: u16, theme: &Theme) -> (rows: Text)
    requires
        state@.wf(),
    ensures
        rows@ == history_rows(*theme, state@, height),
{
    let visible = state.visible();
    let ghost list = state@.visible();
    assert(list.len() == visible@.len());
    assert(list.len() == state@.places().len());
    let total: usize = visible.len();
    let max: usize = height as usize;
    let cursor = state.cursor();
    let start: usize = if total <= max {
        0
    } else {
        let middle: usize = cursor.saturating_sub(max / 2);
        if middle < total - max {
            middle
        } else {
            total - max
        }
    };
    let count: usize = if total < max {
        total
    } else {
        max
    };
    let ghost whole = history_rows(*theme, state@, height);
    assert(start == window_start(total as int, max as int, cursor as int));
    let mut rows = Text::new();
    let mut k: usize = 0;
    assert(rows@ =~= whole.take(0));
    while k < count
        invariant
            k <= count,
            start + count <= total,
            total == visible@.len(),
            list == visible@.map_values(|s: &str| s@),
            list == state@.visible(),
            cursor == state@.cursor,
            start == window_start(total as int, height as int, cursor as int),
            count == window_len(total as int, height as int),
            whole == history_rows(*theme, state@, height),
            rows@ == whole.take(k as int),
        decreases count - k,
    {
        let at = start + k;
        let command = visible[at];
        assert(list[at as int] == command@);
        let mut line: Vec<Span> = Vec::new();
        if at == cursor {
            line.push(Span::styled("▌ ".to_owned(), theme.fuzzy_highlight));
            line.push(Span::styled(command.to_owned(), theme.selected_item));
        } else {
            line.push(Span::styled("  ".to_owned(), theme.chrome));
            line.push(Span::styled(command.to_owned(), Style::default()));
        }
        assert(style::span_views(line@) =~= whole[k as int]);
        rows.push(line);
        assert(whole.take(k + 1) =~= whole.take(k as int).push(whole[k as int]));
        k = k + 1;
    }
    assert(whole.take(whole.len() as int) =~= whole);
    rows
}

/// The row of the next command is one further, and behind the last row comes the
/// first; the row before is one back. What was typed and the commands stay.
pub proof fn law_highlight_moves_by_one_row(state: HistoryView)
    requires
        state.wf(),
        state.visible().len() > 0,
    ensures
        state.moved(1) == (HistoryView {
            cursor: if state.cursor + 1 < state.visible().len() {
                state.cursor + 1
            } else {
                0
            },
            ..state
        }),
        state.moved(-1) == (HistoryView {
            cursor: if state.cursor > 0 {
                state.cursor - 1
            } else {
                state.visible().len() - 1
            },
            ..state
        }),
{
    let len = state.places().len() as int;
    let c = state.cursor;
    assert(state.visible().len() == len);
    if c + 1 < len {
        vstd::arithmetic::div_mod::lemma_small_mod((c + 1) as nat, len as nat);
    } else {
        vstd::arithmetic::div_mod::lemma_mod_self_0(len);
    }
    if c > 0 {
        vstd::arithmetic::div_mod::lemma_small_mod((c - 1) as nat, len as nat);
    } else {
        lemma_mod_below(1, len);
        if len > 1 {
            vstd::arithmetic::div_mod::lemma_small_mod(1, len as nat);
        }
        assert((-1int) % len == len - 1) by (nonlinear_arith)
            requires
                len > 0,
        ;
    }
}

/// Down goes one row further and Up one row back, around the ends, and the search
/// goes on. Ctrl+N does what Down does, and Ctrl+P what Up does.
pub proof fn law_arrow_keys_move_the_highlight(state: HistoryView, key: KeyEvent)
    requires
        state.wf(),
        state.visible().len() > 0,
        !key.release,
        key.chord.code == KeyCode::Down || key.chord.code == KeyCode::Up ==> !key.chord.control,
        key.chord.code == KeyCode::Char('n') || key.chord.code == KeyCode::Char('p')
            ==> key.chord.control,
    ensures
        ({
            let after = key_step(state, key);
            let further = key.chord.code == KeyCode::Down || key.chord.code == KeyCode::Char('n');
            let back = key.chord.code == KeyCode::Up || key.chord.code == KeyCode::Char('p');
            &&& further || back ==> after.outcome is None && after.state.entries == state.entries
                && after.state.filter == state.filter
            &&& further && state.cursor + 1 < state.visible().len() ==> after.state.cursor
                == state.cursor + 1
            &&& further && state.cursor + 1 == state.visible().len() ==> after.state.cursor == 0
            &&& back && state.cursor > 0 ==> after.state.cursor == state.cursor - 1
            &&& back && state.cursor == 0 ==> after.state.cursor == state.visible().len() - 1
        }),
{
    law_highlight_moves_by_one_row(state);
}

/// Enter takes the command of the highlighted row, of those that are visible.
/// Escape and Ctrl+C leave without one, Ctrl+T leaves for the snippets.
pub proof fn law_keys_that_leave(state: HistoryView, key: KeyEvent)
    requires
        state.wf(),
        !key.release,
    ensures
        key.chord.code == KeyCode::Enter && !key.chord.control && state.visible().len() > 0
            ==> key_step(state, key).outcome == Some(
            OutcomeView::Picked(state.visible()[state.cursor]),
        ),
        key.chord.code == KeyCode::Enter && state.visible().len() == 0 ==> key_step(
            state,
            key,
        ).outcome is None,
        key.chord.code == KeyCode::Esc && !key.chord.control ==> key_step(state, key).outcome
            == Some(OutcomeView::Cancelled),
        key.chord.code == KeyCode::Char('c') && key.chord.control ==> key_step(state, key).outcome
            == Some(OutcomeView::Cancelled),
        key.chord.code == KeyCode::Char('t') && key.chord.control ==> key_step(state, key).outcome
            == Some(OutcomeView::Snippets),
{
    assert(state.visible().len() == state.places().len());
}

/// Typing a character puts it behind what was typed, and Backspace takes the last
/// one away; the first row is highlighted, and the search goes on.
pub proof fn law_typing_in_the_history(state: HistoryView, key: KeyEvent, c: char)
    requires
        !key.release,
        !key.chord.control,
    ensures
        key.chord.code == KeyCode::Char(c) ==> key_step(state, key) == (HistoryStep {
            state: HistoryView { filter: state.filter + seq![c], cursor: 0, ..state },
            outcome: None,
        }),
        key.chord.code == KeyCode::Backspace && state.filter.len() > 0 ==> key_step(state, key) == (
        HistoryStep {
            state: HistoryView {
                filter: state.filter.take(state.filter.len() - 1),
                cursor: 0,
                ..state
            },
            outcome: None,
        }),
{
    assert(state.filter.push(c) =~= state.filter + seq![c]);
    if state.filter.len() > 0 {
        assert(state.filter.drop_last() =~= state.filter.take(state.filter.len() - 1));
    }
}

/// A key that is let go does nothing.
pub proof fn law_released_keys_do_nothing(state: HistoryView, key: KeyEvent)
    requires
        key.release,
    ensures
        key_step(state, key).state == state,
        key_step(state, key).outcome is None,
{
}

/// Every visible command is one of the history that matches what was typed, and
/// each of those is visible. Where nothing was typed, all are, newest first. A
/// better score comes first, and of equal ones the newer command.
pub proof fn law_visible_commands_match(state: HistoryView, command: Seq<char>)
    ensures
        state.filter.len() == 0 ==> state.visible() == state.entries,
        state.filter.len() > 0 ==> (state.visible().contains(command) <==> state.entries.contains(
            command,
        ) && fuzzy::whole_score(state.filter, command) is Some),
        state.filter.len() > 0 ==> forall|a: int, b: int|
            0 <= a < b < state.visible().len() ==> fuzzy::whole_score(
                state.filter,
                #[trigger] state.visible()[a],
            )->0 >= fuzzy::whole_score(state.filter, #[trigger] state.visible()[b])->0,
{
    let n = state.entries.len() as int;
    if state.filter.len() == 0 {
        assert(state.visible() =~= state.entries);
    } else {
        law_ranking_is_by_score(state.entries, state.filter, n);
        let places = state.places();
        if state.visible().contains(command) {
            let k = state.visible().index_of(command);
            assert(places.contains(places[k]));
            assert(state.entries[places[k]] == command);
        }
        if state.entries.contains(command) && fuzzy::whole_score(state.filter, command) is Some {
            let i = state.entries.index_of(command);
            assert(score_of(state.filter, state.entries[i]) is Some);
            assert(places.contains(i));
            let k = places.index_of(i);
            assert(state.visible()[k] == command);
        }
        assert forall|a: int, b: int| 0 <= a < b < state.visible().len() implies fuzzy::whole_score(
            state.filter,
            #[trigger] state.visible()[a],
        )->0 >= fuzzy::whole_score(state.filter, #[trigger] state.visible()[b])->0 by {
            assert(comes_first(state.entries, state.filter, places[a], places[b]));
        }
    }
}

/// Each command of a history is kept once, at its first place: what stands further
/// back changes nothing before it.
pub proof fn law_every_command_is_kept(newer: Seq<Seq<char>>, older: Seq<Seq<char>>, i: int)
    ensures
        distinct_pieces(newer).is_prefix_of(distinct_pieces(newer + older)),
        0 <= i < newer.len() && text::trim_of(newer[i]).len() > 0 ==> distinct_pieces(
            newer,
        ).contains(text::trim_of(newer[i])),
    decreases older.len(), newer.len(),
{
    if older.len() > 0 {
        assert((newer + older).drop_last() =~= newer + older.drop_last());
        law_every_command_is_kept(newer, older.drop_last(), i);
        let front = distinct_pieces(newer);
        let before = distinct_pieces(newer + older.drop_last());
        let after = distinct_pieces(newer + older);
        assert(before =~= after.take(before.len() as int));
        assert(front =~= before.take(front.len() as int));
        assert(front =~= after.take(front.len() as int));
    } else {
        assert(newer + older =~= newer);
        if 0 <= i < newer.len() && text::trim_of(newer[i]).len() > 0 {
            let less = newer.drop_last();
            let before = distinct_pieces(less);
            let after = distinct_pieces(newer);
            let piece = text::trim_of(newer[i]);
            if i < less.len() {
                law_every_command_is_kept(less, older, i);
                let k = before.index_of(piece);
                assert(after[k] == piece);
            } else if before.contains(piece) {
                let k = before.index_of(piece);
                assert(after[k] == piece);
            } else {
                assert(after[after.len() - 1] == piece);
            }
        }
    }
}

} // verus!
