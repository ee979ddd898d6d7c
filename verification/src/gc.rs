//! Cleaning up the uses of snippets that are gone.
//!
//! An orphan is an id with uses but without a snippet. Each is offered to the
//! snippet that it was most likely renamed to; what is left can be purged.

use vstd::prelude::*;
use crate::domain;
use crate::domain::SnippetId;
use crate::edit_distance;
use crate::frecency;
use crate::frecency::FrecencyStore;
use crate::index;
use crate::index::{IndexedSnippet, SnippetIndex};
use crate::line_edit;
use crate::path;
use crate::text;
use crate::text_map;
use crate::text_map::TextMap;

verus! {

broadcast use vstd::string::group_string_axioms;

/// What a clean-up may do.
#[derive(Debug, Clone, Copy, PartialEq, Eq, Structural)]
pub struct GcOptions {
    /// Report what would change, and change nothing.
    pub dry_run: bool,
    /// Take unresolved uses away without asking.
    pub purge: bool,
    /// Write one line for each thing.
    pub quiet: bool,
}

/// An id with uses but without a snippet.
#[derive(Debug, PartialEq, Eq)]
pub struct GcOrphan {
    pub id: SnippetId,
    /// How many uses it has.
    pub events: usize,
    /// The snippet that it was most likely renamed to.
    pub candidate_id: Option<SnippetId>,
}

/// What a [`GcOrphan`] holds.
pub struct OrphanView {
    pub id: Seq<char>,
    pub events: nat,
    pub candidate: Option<Seq<char>>,
}

impl View for GcOrphan {
    type V = OrphanView;

    open spec fn view(&self) -> OrphanView {
        OrphanView {
            id: self.id@,
            events: self.events as nat,
            candidate: match self.candidate_id {
                Some(id) => Some(id@),
                None => None,
            },
        }
    }
}

/// What a list of orphans holds.
pub open spec fn orphan_views(orphans: Seq<GcOrphan>) -> Seq<OrphanView> {
    orphans.map_values(|o: GcOrphan| o@)
}

/// The ids of orphans.
pub open spec fn orphan_ids(orphans: Seq<OrphanView>) -> Seq<Seq<char>> {
    orphans.map_values(|o: OrphanView| o.id)
}

/// What stands behind the first `#` of an id; nothing where there is none.
pub open spec fn slug_of(id: Seq<char>) -> Seq<char> {
    match text::find_from(id, seq!['#'], 0) {
        Some(at) => id.skip(at + 1),
        None => Seq::empty(),
    }
}

/// What stands before the first `#` of an id; nothing where there is none.
pub open spec fn path_of(id: Seq<char>) -> Seq<char> {
    match text::find_from(id, seq!['#'], 0) {
        Some(at) => id.take(at),
        None => Seq::empty(),
    }
}

/// Path and slug of an id.
fn split_id(id: &SnippetId) -> (parts: (String, String))
    ensures
        parts.0@ == path_of(id@),
        parts.1@ == slug_of(id@),
{
    let chars = text::chars_of(id.as_str());
    let mut hash: Vec<char> = Vec::new();
    hash.push('#');
    assert(hash@ =~= seq!['#']);
    match text::find_chars(&chars, &hash, 0) {
        Some(at) => {
            proof {
                text::lemma_find_from(id@, seq!['#'], 0);
            }
            let n: usize = chars.len();
            assert(at < n);
            let front = text::string_from(&chars, 0, at);
            let back = text::string_from(&chars, at + 1, n);
            assert(front@ =~= id@.take(at as int));
            assert(back@ =~= id@.skip(at + 1));
            (front, back)
        },
        None => (String::new(), String::new()),
    }
}

/// An id made of a path and a slug falls into these two parts again.
pub proof fn law_id_falls_into_its_parts(relative_path: Seq<char>, slug: Seq<char>)
    requires
        !relative_path.contains('#'),
    ensures
        path_of(domain::id_text(relative_path, slug)) == relative_path,
        slug_of(domain::id_text(relative_path, slug)) == slug,
{
    let id = domain::id_text(relative_path, slug);
    let at = relative_path.len() as int;
    assert forall|k: int| 0 <= k < at implies id[k] != '#' by {
        assert(id[k] == relative_path[k]);
        assert(relative_path.contains(relative_path[k]));
    }
    lemma_first_hash(id, 0, at);
    assert(id.take(at) =~= relative_path);
    assert(id.skip(at + 1) =~= slug);
}

proof fn lemma_first_hash(s: Seq<char>, from: int, at: int)
    requires
        0 <= from <= at < s.len(),
        s[at] == '#',
        forall|k: int| from <= k < at ==> s[k] != '#',
    ensures
        text::find_from(s, seq!['#'], from) == Some(at),
    decreases at - from,
{
    let hash = seq!['#'];
    if from == at {
        assert(s.subrange(at, at + 1) =~= hash);
        assert(text::stands_at(s, hash, at));
    } else {
        assert(s.subrange(from, from + 1)[0] == s[from]);
        assert(!text::stands_at(s, hash, from));
        lemma_first_hash(s, from + 1, at);
    }
}

/// The larger of two numbers.
pub open spec fn larger(a: nat, b: nat) -> nat {
    if a > b {
        a
    } else {
        b
    }
}

/// How far apart two slugs may be to count as a rename: a third of the longer
/// one's bytes, two at least.
pub open spec fn tolerance(a: Seq<char>, b: Seq<char>) -> nat {
    larger(2, larger(line_edit::byte_len(a), line_edit::byte_len(b)) / 3)
}

/// How well a snippet fits an orphan: first how near the slugs are, and then
/// whether the files differ in name.
pub struct Fit {
    pub distance: nat,
    pub other_file: bool,
}

/// How well a snippet fits an orphan; none where the slugs are too far apart.
pub open spec fn fit_of(id: Seq<char>, entry: index::EntryView) -> Option<Fit> {
    let old_slug = slug_of(id);
    let new_slug = slug_of(entry.snippet.id);
    let apart = edit_distance::distance(old_slug, new_slug);
    if apart > tolerance(old_slug, new_slug) {
        None
    } else {
        let old_file = path::file_name_of(path_of(id));
        Some(
            Fit {
                distance: apart,
                other_file: !(old_file is Some && old_file == path::file_name_of(
                    entry.relative_path,
                )),
            },
        )
    }
}

/// Whether one fit is better than another.
pub open spec fn better(a: Fit, b: Fit) -> bool {
    a.distance < b.distance || (a.distance == b.distance && !a.other_file && b.other_file)
}

/// The place of the snippet that fits an orphan best, the first of equals.
pub open spec fn best_place(id: Seq<char>, entries: Seq<index::EntryView>) -> Option<int>
    decreases entries.len(),
{
    if entries.len() == 0 {
        None
    } else {
        let before = best_place(id, entries.drop_last());
        let here = entries.len() - 1;
        match (fit_of(id, entries.last()), before) {
            (None, _) => before,
            (Some(_), None) => Some(here),
            (Some(fit), Some(at)) => if better(fit, fit_of(id, entries[at])->0) {
                Some(here)
            } else {
                before
            },
        }
    }
}

/// The id of the snippet that fits an orphan best.
pub open spec fn candidate_of(id: Seq<char>, entries: Seq<index::EntryView>) -> Option<Seq<char>> {
    match best_place(id, entries) {
        Some(at) => Some(entries[at].snippet.id),
        None => None,
    }
}

proof fn lemma_best_place(id: Seq<char>, entries: Seq<index::EntryView>)
    ensures
        best_place(id, entries) matches Some(at) ==> 0 <= at < entries.len() && fit_of(
            id,
            entries[at],
        ) is Some,
    decreases entries.len(),
{
    if entries.len() > 0 {
        lemma_best_place(id, entries.drop_last());
        match best_place(id, entries.drop_last()) {
            Some(at) => {
                assert(entries.drop_last()[at] == entries[at]);
            },
            None => {},
        }
    }
}

/// The snippet offered for an orphan fits, and none fits better.
pub proof fn law_candidate_fits_best(id: Seq<char>, entries: Seq<index::EntryView>, k: int)
    requires
        0 <= k < entries.len(),
        fit_of(id, entries[k]) is Some,
    ensures
        best_place(id, entries) matches Some(at) && !better(
            fit_of(id, entries[k])->0,
            fit_of(id, entries[at])->0,
        ),
    decreases entries.len(),
{
    lemma_best_place(id, entries);
    let front = entries.drop_last();
    lemma_best_place(id, front);
    if k < front.len() {
        assert(front[k] == entries[k]);
        law_candidate_fits_best(id, front, k);
        let at = best_place(id, front)->0;
        assert(front[at] == entries[at]);
    } else {
        match best_place(id, front) {
            Some(at) => {
                assert(front[at] == entries[at]);
            },
            None => {},
        }
    }
}

/// How well a snippet fits, as it is computed.
struct Measured {
    distance: usize,
    other_file: bool,
}

fn measure(old_slug: &str, old_file: &Option<String>, entry: &IndexedSnippet, Ghost(id): Ghost<
    Seq<char>,
>) -> (fit: Option<Measured>)
    requires
        old_slug@ == slug_of(id),
        text::optional_text(*old_file) == path::file_name_of(path_of(id)),
    ensures
        match fit {
            Some(m) => fit_of(id, entry@) == Some(
                (Fit { distance: m.distance as nat, other_file: m.other_file }),
            ),
            None => fit_of(id, entry@) is None,
        },
{
    let parts = split_id(entry.id());
    let distance = edit_distance::edit_distance(old_slug, parts.1.as_str());
    let a = line_edit::byte_count(old_slug);
    let b = line_edit::byte_count(parts.1.as_str());
    let longer: usize = if a > b {
        a
    } else {
        b
    };
    let third: usize = longer / 3;
    let most: usize = if 2 > third {
        2
    } else {
        third
    };
    if distance > most {
        return None;
    }
    let same_file = match old_file {
        Some(old) => match path::file_name(entry.relative_path.as_str()) {
            Some(new) => text::same_text(old.as_str(), new.as_str()),
            None => false,
        },
        None => false,
    };
    Some(Measured { distance, other_file: !same_file })
}

/// The snippet that fits an orphan best.
pub fn best_candidate<'a>(old_id: &SnippetId, index: &'a SnippetIndex) -> (entry: Option<
    &'a IndexedSnippet,
>)
    ensures
        match entry {
            Some(e) => best_place(old_id@, index@) is Some && e@ == index@[best_place(
                old_id@,
                index@,
            )->0],
            None => best_place(old_id@, index@) is None,
        },
{
    let parts = split_id(old_id);
    let old_file = path::file_name(parts.0.as_str());
    let ghost all = index@;
    let mut best: Option<(usize, Measured)> = None;
    let mut i: usize = 0;
    assert(all.take(0) =~= Seq::<index::EntryView>::empty());
    while i < index.len()
        invariant
            i <= all.len(),
            all == index@,
            parts.1@ == slug_of(old_id@),
            text::optional_text(old_file) == path::file_name_of(path_of(old_id@)),
            match best {
                Some((at, m)) => best_place(old_id@, all.take(i as int)) == Some(at as int) && at
                    < i && fit_of(old_id@, all[at as int]) == Some(
                    (Fit { distance: m.distance as nat, other_file: m.other_file }),
                ),
                None => best_place(old_id@, all.take(i as int)) is None,
            },
        decreases all.len() - i,
    {
        assert(all.take(i + 1).drop_last() =~= all.take(i as int));
        assert(all.take(i + 1).last() == all[i as int]);
        let entry = index.at(i);
        let fit = measure(parts.1.as_str(), &old_file, entry, Ghost(old_id@));
        match fit {
            Some(new) => {
                let wins = match &best {
                    Some((_, old)) => new.distance < old.distance || (new.distance
                        == old.distance && !new.other_file && old.other_file),
                    None => true,
                };
                if wins {
                    best = Some((i, new));
                }
            },
            None => {},
        }
        i = i + 1;
    }
    assert(all.take(all.len() as int) =~= all);
    match best {
        Some((at, _)) => Some(index.at(at)),
        None => None,
    }
}

/// Whether these are the ids with uses but without a snippet, in order, each
/// with the number of its uses.
pub open spec fn are_orphans(
    ids: Seq<Seq<char>>,
    counts: Seq<nat>,
    entries: Seq<index::EntryView>,
    events: Seq<frecency::EventView>,
) -> bool {
    &&& text_map::strictly_sorted(ids)
    &&& ids.len() == counts.len()
    &&& forall|id: Seq<char>| #[trigger]
        ids.contains(id) <==> frecency::uses_of(events, id) > 0 && index::entry_of(entries, id)
            is None
    &&& forall|i: int| 0 <= i < ids.len() ==> counts[i] == frecency::uses_of(events, #[trigger] ids[i])
}

/// The ids with uses but without a snippet, with the number of their uses.
fn orphan_counts(index: &SnippetIndex, store: &FrecencyStore) -> (counts: TextMap<usize>)
    ensures
        forall|id: Seq<char>| #[trigger]
            counts@.contains_key(id) <==> frecency::uses_of(store@, id) > 0 && index::entry_of(
                index@,
                id,
            ) is None,
        forall|id: Seq<char>| #[trigger]
            counts@.contains_key(id) ==> counts@[id] == frecency::uses_of(store@, id),
{
    let events = store.events();
    let ghost all = store@;
    let mut counts: TextMap<usize> = TextMap::new();
    let mut i: usize = 0;
    assert(all.take(0) =~= Seq::<frecency::EventView>::empty());
    while i < events.len()
        invariant
            i <= events@.len(),
            all == frecency::event_views(events@),
            forall|id: Seq<char>| #[trigger]
                counts@.contains_key(id) <==> frecency::uses_of(all.take(i as int), id) > 0
                    && index::entry_of(index@, id) is None,
            forall|id: Seq<char>| #[trigger]
                counts@.contains_key(id) ==> counts@[id] == frecency::uses_of(
                    all.take(i as int),
                    id,
                ),
            forall|id: Seq<char>| #[trigger] counts@.contains_key(id) ==> counts@[id] <= i,
        decreases events@.len() - i,
    {
        let ghost before = all.take(i as int);
        assert(all.take(i + 1).drop_last() =~= before);
        assert(all.take(i + 1).last() == events@[i as int]@);
        let id = &events[i].id;
        let n: usize = events.len();
        if index.get(id).is_none() {
            let seen: usize = match counts.get(id.as_str()) {
                Some(count) => *count,
                None => 0,
            };
            assert(seen == frecency::uses_of(before, id@));
            let ghost old_counts = counts@;
            counts.insert(id.as_str().to_owned(), seen + 1);
            assert forall|other: Seq<char>| #[trigger]
                counts@.contains_key(other) implies counts@[other] <= i + 1 by {
                if other != id@ {
                    assert(old_counts.contains_key(other));
                }
            }
        }
        i = i + 1;
    }
    assert(all.take(all.len() as int) =~= all);
    counts
}

/// The numbers of uses of orphans.
pub open spec fn orphan_events(orphans: Seq<OrphanView>) -> Seq<nat> {
    orphans.map_values(|o: OrphanView| o.events)
}

/// Whether these are the orphans, each with the snippet that fits it best.
pub open spec fn all_orphans(
    orphans: Seq<OrphanView>,
    entries: Seq<index::EntryView>,
    events: Seq<frecency::EventView>,
) -> bool {
    &&& are_orphans(orphan_ids(orphans), orphan_events(orphans), entries, events)
    &&& forall|i: int|
        0 <= i < orphans.len() ==> (#[trigger] orphans[i]).candidate == candidate_of(
            orphans[i].id,
            entries,
        )
}

/// The orphans, each with the snippet that fits it best.
pub fn collect_orphans_with_index(index: &SnippetIndex, store: &FrecencyStore) -> (orphans: Vec<
    GcOrphan,
>)
    ensures
        all_orphans(orphan_views(orphans@), index@, store@),
{
    let counts = orphan_counts(index, store);
    let n = counts.len();
    let ghost keys = counts.keys();
    let mut out: Vec<GcOrphan> = Vec::new();
    let mut i: usize = 0;
    assert(orphan_ids(orphan_views(out@)) =~= keys.take(0));
    while i < n
        invariant
            i <= n,
            n == keys.len(),
            keys == counts.keys(),
            text_map::strictly_sorted(keys),
            forall|k: Seq<char>| counts@.contains_key(k) == keys.contains(k),
            forall|id: Seq<char>| #[trigger]
                counts@.contains_key(id) ==> counts@[id] == frecency::uses_of(store@, id),
            orphan_ids(orphan_views(out@)) == keys.take(i as int),
            forall|k: int|
                0 <= k < i ==> (#[trigger] out@[k])@.candidate == candidate_of(keys[k], index@)
                    && out@[k]@.events == frecency::uses_of(store@, keys[k]),
        decreases n - i,
    {
        let id = SnippetId::from_text(counts.key_at(i).clone());
        let events = *counts.value_at(i);
        let candidate_id = match best_candidate(&id, index) {
            Some(entry) => Some(entry.id().clone()),
            None => None,
        };
        proof {
            lemma_best_place(id@, index@);
            assert(keys.contains(keys[i as int]));
        }
        let orphan = GcOrphan { id, events, candidate_id };
        let ghost before = out@;
        let ghost name = orphan@.id;
        assert(orphan@.candidate == candidate_of(name, index@));
        out.push(orphan);
        assert(orphan_ids(orphan_views(out@)) =~= orphan_ids(orphan_views(before)).push(name));
        assert(keys.take(i + 1) =~= keys.take(i as int).push(keys[i as int]));
        i = i + 1;
    }
    let ghost views = orphan_views(out@);
    assert(keys.take(n as int) =~= keys);
    assert(orphan_ids(views) == keys);
    assert forall|k: int| 0 <= k < views.len() implies (#[trigger] views[k]).candidate
        == candidate_of(views[k].id, index@) && views[k].events == frecency::uses_of(
        store@,
        views[k].id,
    ) by {
        assert(views[k] == out@[k]@);
        assert(orphan_ids(views)[k] == views[k].id);
    }
    assert forall|k: int| 0 <= k < keys.len() implies orphan_events(views)[k]
        == frecency::uses_of(store@, #[trigger] keys[k]) by {
        assert(orphan_events(views)[k] == views[k].events);
        assert(orphan_ids(views)[k] == views[k].id);
    }
    assert forall|id: Seq<char>| #[trigger] keys.contains(id) <==> frecency::uses_of(store@, id)
        > 0 && index::entry_of(index@, id) is None by {
        assert(counts@.contains_key(id) == keys.contains(id));
    }
    out
}

/// Whether an answer is a yes.
pub open spec fn means_yes(answer: Seq<char>) -> bool {
    let said = text::ascii_lower(text::trim_of(answer));
    said == "y"@ || said == "yes"@
}

/// Whether an answer is a yes.
pub fn is_yes(answer: &str) -> (yes: bool)
    ensures
        yes == means_yes(answer@),
{
    let trimmed = text::trim(answer);
    let said = text::ascii_lower_text(trimmed.as_str());
    text::same_text(said.as_str(), "y") || text::same_text(said.as_str(), "yes")
}

/// What a clean-up waits for.
#[derive(Debug, Clone, Copy, PartialEq, Eq, Structural)]
pub enum GcStage {
    /// Whether to hand the uses of an orphan over.
    Reattach,
    /// Whether to take the unresolved uses away.
    Purge,
    /// Nothing: all is decided.
    Decided,
}

/// The state of a clean-up.
#[verifier::ext_equal]
pub struct GcView {
    pub options: GcOptions,
    pub orphans: Seq<OrphanView>,
    /// The orphan that is looked at.
    pub at: int,
    pub stage: GcStage,
    /// The uses, as far as they have changed.
    pub events: Seq<frecency::EventView>,
    pub reattached: nat,
    pub purged: nat,
    /// The orphans that were not handed over.
    pub unresolved: Seq<Seq<char>>,
    /// How many uses these have.
    pub unresolved_events: nat,
    /// What is to be written.
    pub out: Seq<char>,
}

/// `n` in decimal.
pub open spec fn num(n: nat) -> Seq<char> {
    text::decimal(n)
}

/// What is said of all orphans at first.
pub open spec fn header_text(
    state_file: Seq<char>,
    known: nat,
    events: nat,
    ids: nat,
    quiet: bool,
) -> Seq<char> {
    if quiet {
        "found "@ + num(events) + " orphaned frecency event(s) across "@ + num(ids)
            + " snippet id(s)\n"@
    } else {
        "Peanutbutter frecency GC\n\nState:    "@ + state_file + "\nSnippets: "@ + num(known)
            + " known\nOrphans:  "@ + num(events) + " event(s) across "@ + num(ids)
            + " snippet id(s)\n"@
    }
}

/// What is said of an orphan that fits no snippet.
pub open spec fn unresolved_text(id: Seq<char>, count: nat, quiet: bool) -> Seq<char> {
    if quiet {
        "unresolved: "@ + id + " ("@ + num(count) + " event(s))\n"@
    } else {
        "\nUnresolved\n  "@ + id + "\n  events: "@ + num(count) + "\n"@
    }
}

/// What a dry run says of an orphan that fits a snippet.
pub open spec fn dry_candidate_text(
    id: Seq<char>,
    candidate: Seq<char>,
    count: nat,
    quiet: bool,
) -> Seq<char> {
    if quiet {
        "would prompt to reattach "@ + id + " -> "@ + candidate + " ("@ + num(count)
            + " event(s))\n"@
    } else {
        "\nCandidate\n  from:   "@ + id + "\n  to:     "@ + candidate + "\n  events: "@ + num(count)
            + "\n  action: would prompt for reattachment\n"@
    }
}

/// The question whether to hand the uses of an orphan over.
pub open spec fn reattach_question(
    id: Seq<char>,
    candidate: Seq<char>,
    count: nat,
    quiet: bool,
) -> Seq<char> {
    if quiet {
        "reattach "@ + id + " -> "@ + candidate + " ("@ + num(count) + " event(s))? [y/N] "@
    } else {
        "\nCandidate\n  from:   "@ + id + "\n  to:     "@ + candidate + "\n  events: "@ + num(count)
            + "\n  Reattach? [y/N] "@
    }
}

/// What a dry run says of the unresolved uses.
pub open spec fn dry_purge_text(count: nat, quiet: bool) -> Seq<char> {
    if quiet {
        "would purge "@ + num(count) + " unresolved orphaned event(s)\n"@
    } else {
        "\nCleanup\n  action: would purge "@ + num(count) + " unresolved orphaned event(s)\n"@
    }
}

/// The question whether to take the unresolved uses away.
pub open spec fn purge_question(count: nat, quiet: bool) -> Seq<char> {
    if quiet {
        "purge "@ + num(count) + " unresolved orphaned event(s)? [y/N] "@
    } else {
        "\nCleanup\n  Purge "@ + num(count) + " unresolved orphaned event(s)? [y/N] "@
    }
}

/// What is said of uses that were taken away.
pub open spec fn purged_text(count: nat) -> Seq<char> {
    "purged "@ + num(count) + " unresolved orphaned event(s)\n"@
}

impl GcView {
    /// With more to be written.
    pub open spec fn saying(self, s: Seq<char>) -> GcView {
        GcView { out: self.out + s, ..self }
    }

    /// With the orphan that is looked at left as it is.
    pub open spec fn leaving(self) -> GcView {
        GcView {
            at: self.at + 1,
            unresolved: self.unresolved.push(self.orphans[self.at].id),
            unresolved_events: self.unresolved_events + self.orphans[self.at].events,
            ..self
        }
    }

    /// With the unresolved uses taken away.
    pub open spec fn purging(self) -> GcView {
        let kept = frecency::others(self.events, self.unresolved);
        GcView {
            events: kept,
            purged: (self.events.len() - kept.len()) as nat,
            stage: GcStage::Decided,
            ..self
        }
    }

    /// After all orphans were looked at.
    pub open spec fn closing(self) -> GcView {
        if self.options.purge {
            if self.options.dry_run {
                (GcView {
                    purged: self.unresolved_events,
                    stage: GcStage::Decided,
                    ..self
                }).saying(dry_purge_text(self.unresolved_events, self.options.quiet))
            } else {
                let done = self.purging();
                if done.purged > 0 && self.options.quiet {
                    done.saying(purged_text(done.purged))
                } else {
                    done
                }
            }
        } else if self.options.dry_run || self.unresolved_events == 0 {
            GcView { stage: GcStage::Decided, ..self }
        } else {
            (GcView { stage: GcStage::Purge, ..self }).saying(
                purge_question(self.unresolved_events, self.options.quiet),
            )
        }
    }

    /// Up to the next question.
    pub open spec fn moving(self) -> GcView
        decreases self.orphans.len() - self.at,
    {
        if self.at >= self.orphans.len() {
            self.closing()
        } else {
            let orphan = self.orphans[self.at];
            match orphan.candidate {
                None => self.leaving().saying(
                    unresolved_text(orphan.id, orphan.events, self.options.quiet),
                ).moving(),
                Some(candidate) => if self.options.dry_run {
                    self.leaving().saying(
                        dry_candidate_text(
                            orphan.id,
                            candidate,
                            orphan.events,
                            self.options.quiet,
                        ),
                    ).moving()
                } else {
                    (GcView { stage: GcStage::Reattach, ..self }).saying(
                        reattach_question(
                            orphan.id,
                            candidate,
                            orphan.events,
                            self.options.quiet,
                        ),
                    )
                },
            }
        }
    }

    /// With the uses of the orphan that is looked at handed over.
    pub open spec fn handing(self) -> GcView {
        let orphan = self.orphans[self.at];
        GcView {
            at: self.at + 1,
            events: frecency::handed_over(self.events, orphan.id, orphan.candidate->0),
            reattached: self.reattached + frecency::uses_of(self.events, orphan.id),
            ..self
        }
    }

    /// After an answer.
    pub open spec fn answered(self, answer: Seq<char>) -> GcView {
        match self.stage {
            GcStage::Reattach => if means_yes(answer) {
                self.handing().saying("reattached\n"@).moving()
            } else {
                self.leaving().saying("skipped\n"@).moving()
            },
            GcStage::Purge => if means_yes(answer) {
                let done = self.purging();
                done.saying(purged_text(done.purged))
            } else {
                (GcView { stage: GcStage::Decided, ..self }).saying(
                    "kept unresolved orphaned event(s)\n"@,
                )
            },
            GcStage::Decided => self,
        }
    }

    /// Whether the uses changed and are to be kept.
    pub open spec fn changed(self) -> bool {
        self.reattached > 0 || (!self.options.dry_run && self.purged > 0)
    }

    /// Whether the counts agree with the orphans and the uses: those ahead have
    /// the uses that they are said to have, and every use is in one place.
    pub open spec fn wf(self) -> bool {
        &&& 0 <= self.at <= self.orphans.len()
        &&& orphan_ids(self.orphans).no_duplicates()
        &&& total(self.orphans) <= usize::MAX
        &&& self.reattached + self.unresolved_events + total(self.orphans.skip(self.at)) == total(
            self.orphans,
        )
        &&& forall|i: int|
            self.at <= i < self.orphans.len() ==> frecency::uses_of(
                self.events,
                (#[trigger] self.orphans[i]).id,
            ) == self.orphans[i].events
        &&& forall|i: int, j: int|
            0 <= i < self.orphans.len() && 0 <= j < self.orphans.len()
                ==> (#[trigger] self.orphans[i]).candidate != Some((#[trigger] self.orphans[j]).id)
        &&& self.stage == GcStage::Reattach ==> self.at < self.orphans.len()
            && self.orphans[self.at].candidate is Some && !self.options.dry_run
        &&& self.stage == GcStage::Purge ==> self.at == self.orphans.len()
            && !self.options.dry_run
        &&& self.options.dry_run ==> self.reattached == 0
    }
}

/// How many uses orphans have together.
pub open spec fn total(orphans: Seq<OrphanView>) -> nat
    decreases orphans.len(),
{
    if orphans.len() == 0 {
        0
    } else {
        orphans[0].events + total(orphans.skip(1))
    }
}

/// The clean-up before anything was asked.
pub open spec fn started(
    options: GcOptions,
    state_file: Seq<char>,
    known: nat,
    orphans: Seq<OrphanView>,
    events: Seq<frecency::EventView>,
) -> GcView {
    GcView {
        options,
        orphans,
        at: 0,
        stage: GcStage::Decided,
        events,
        reattached: 0,
        purged: 0,
        unresolved: Seq::empty(),
        unresolved_events: 0,
        out: header_text(state_file, known, total(orphans), orphans.len(), options.quiet),
    }
}

proof fn lemma_handing_keeps_wf(run: GcView)
    requires
        run.wf(),
        run.stage == GcStage::Reattach,
    ensures
        (GcView { stage: GcStage::Decided, ..run.handing() }).wf(),
        frecency::uses_of(run.events, run.orphans[run.at].id) == run.orphans[run.at].events,
        run.orphans.skip(run.at).skip(1) == run.orphans.skip(run.at + 1),
{
    let orphan = run.orphans[run.at];
    let next = run.handing();
    assert(run.orphans.skip(run.at).skip(1) =~= run.orphans.skip(run.at + 1));
    assert(run.orphans.skip(run.at)[0] == orphan);
    assert forall|i: int| next.at <= i < run.orphans.len() implies frecency::uses_of(
        next.events,
        (#[trigger] run.orphans[i]).id,
    ) == run.orphans[i].events by {
        let other = run.orphans[i].id;
        assert(orphan_ids(run.orphans)[i] == other);
        assert(orphan_ids(run.orphans)[run.at] == orphan.id);
        assert(other != orphan.id);
        assert(orphan.candidate != Some(other));
        lemma_handing_over_others(run.events, orphan.id, orphan.candidate->0, other);
    }
}

/// Handing uses over leaves those of a third snippet alone.
proof fn lemma_handing_over_others(
    events: Seq<frecency::EventView>,
    old_id: Seq<char>,
    new_id: Seq<char>,
    other: Seq<char>,
)
    requires
        other != old_id,
        other != new_id,
    ensures
        frecency::uses_of(frecency::handed_over(events, old_id, new_id), other)
            == frecency::uses_of(events, other),
    decreases events.len(),
{
    if events.len() > 0 {
        lemma_handing_over_others(events.drop_last(), old_id, new_id, other);
        assert(frecency::handed_over(events, old_id, new_id).drop_last()
            =~= frecency::handed_over(events.drop_last(), old_id, new_id));
    }
}

proof fn lemma_leaving_keeps_wf(run: GcView)
    requires
        run.wf(),
        run.at < run.orphans.len(),
    ensures
        (GcView { stage: GcStage::Decided, ..run.leaving() }).wf(),
        run.orphans.skip(run.at).skip(1) == run.orphans.skip(run.at + 1),
{
    assert(run.orphans.skip(run.at).skip(1) =~= run.orphans.skip(run.at + 1));
    assert(run.orphans.skip(run.at)[0] == run.orphans[run.at]);
}

proof fn lemma_total_is_bounded(orphans: Seq<OrphanView>, events: Seq<frecency::EventView>)
    requires
        orphan_ids(orphans).no_duplicates(),
        forall|i: int|
            0 <= i < orphans.len() ==> (#[trigger] orphans[i]).events == frecency::uses_of(
                events,
                orphans[i].id,
            ),
    ensures
        total(orphans) <= events.len(),
    decreases orphans.len(),
{
    if orphans.len() > 0 {
        let rest = orphans.skip(1);
        let left = frecency::others(events, seq![orphans[0].id]);
        assert forall|i: int, j: int| 0 <= i < rest.len() && 0 <= j < rest.len() && i
            != j implies orphan_ids(rest)[i] != orphan_ids(rest)[j] by {
            assert(orphan_ids(rest)[i] == orphan_ids(orphans)[i + 1]);
            assert(orphan_ids(rest)[j] == orphan_ids(orphans)[j + 1]);
        }
        assert forall|i: int| 0 <= i < rest.len() implies (#[trigger] rest[i]).events
            == frecency::uses_of(left, rest[i].id) by {
            assert(rest[i] == orphans[i + 1]);
            assert(orphan_ids(orphans)[i + 1] == rest[i].id);
            assert(orphan_ids(orphans)[0] == orphans[0].id);
            frecency::law_purging_takes_only_those(events, seq![orphans[0].id], rest[i].id);
            assert(!seq![orphans[0].id].contains(rest[i].id));
        }
        lemma_total_is_bounded(rest, left);
        lemma_others_len(events, orphans[0].id);
    }
}

proof fn lemma_others_len(events: Seq<frecency::EventView>, id: Seq<char>)
    ensures
        frecency::others(events, seq![id]).len() + frecency::uses_of(events, id) == events.len(),
    decreases events.len(),
{
    if events.len() > 0 {
        lemma_others_len(events.drop_last(), id);
        assert(seq![id].contains(id)) by {
            assert(seq![id][0] == id);
        }
        assert(seq![id].contains(events.last().id) <==> events.last().id == id);
    }
}

/// A clean-up. It waits for answers, and the answers change the uses.
pub struct GcRun {
    options: GcOptions,
    orphans: Vec<GcOrphan>,
    at: usize,
    stage: GcStage,
    store: FrecencyStore,
    reattached: usize,
    purged: usize,
    unresolved: Vec<SnippetId>,
    unresolved_events: usize,
    out: String,
}

impl View for GcRun {
    type V = GcView;

    closed spec fn view(&self) -> GcView {
        GcView {
            options: self.options,
            orphans: orphan_views(self.orphans@),
            at: self.at as int,
            stage: self.stage,
            events: self.store@,
            reattached: self.reattached as nat,
            purged: self.purged as nat,
            unresolved: domain::id_texts(self.unresolved@),
            unresolved_events: self.unresolved_events as nat,
            out: self.out@,
        }
    }
}

fn say_number(out: &mut String, n: usize)
    ensures
        final(out)@ == old(out)@ + num(n as nat),
{
    let shown = text::decimal_text(n as u64);
    out.append(shown.as_str());
}

fn write_header(state_file: &str, known: usize, events: usize, ids: usize, quiet: bool) -> (out:
    String)
    ensures
        out@ == header_text(state_file@, known as nat, events as nat, ids as nat, quiet),
{
    let mut out = String::new();
    if quiet {
        out.append("found ");
        say_number(&mut out, events);
        out.append(" orphaned frecency event(s) across ");
    } else {
        out.append("Peanutbutter frecency GC\n\nState:    ");
        out.append(state_file);
        out.append("\nSnippets: ");
        say_number(&mut out, known);
        out.append(" known\nOrphans:  ");
        say_number(&mut out, events);
        out.append(" event(s) across ");
    }
    say_number(&mut out, ids);
    out.append(" snippet id(s)\n");
    assert(out@ =~= header_text(state_file@, known as nat, events as nat, ids as nat, quiet));
    out
}

fn write_unresolved(id: &str, count: usize, quiet: bool) -> (out: String)
    ensures
        out@ == unresolved_text(id@, count as nat, quiet),
{
    let mut out = String::new();
    if quiet {
        out.append("unresolved: ");
        out.append(id);
        out.append(" (");
        say_number(&mut out, count);
        out.append(" event(s))\n");
    } else {
        out.append("\nUnresolved\n  ");
        out.append(id);
        out.append("\n  events: ");
        say_number(&mut out, count);
        out.append("\n");
    }
    assert(out@ =~= unresolved_text(id@, count as nat, quiet));
    out
}

fn write_dry_candidate(id: &str, candidate: &str, count: usize, quiet: bool) -> (out: String)
    ensures
        out@ == dry_candidate_text(id@, candidate@, count as nat, quiet),
{
    let mut out = String::new();
    if quiet {
        out.append("would prompt to reattach ");
        out.append(id);
        out.append(" -> ");
        out.append(candidate);
        out.append(" (");
        say_number(&mut out, count);
        out.append(" event(s))\n");
    } else {
        out.append("\nCandidate\n  from:   ");
        out.append(id);
        out.append("\n  to:     ");
        out.append(candidate);
        out.append("\n  events: ");
        say_number(&mut out, count);
        out.append("\n  action: would prompt for reattachment\n");
    }
    assert(out@ =~= dry_candidate_text(id@, candidate@, count as nat, quiet));
    out
}

fn write_reattach_question(id: &str, candidate: &str, count: usize, quiet: bool) -> (out: String)
    ensures
        out@ == reattach_question(id@, candidate@, count as nat, quiet),
{
    let mut out = String::new();
    if quiet {
        out.append("reattach ");
        out.append(id);
        out.append(" -> ");
        out.append(candidate);
        out.append(" (");
        say_number(&mut out, count);
        out.append(" event(s))? [y/N] ");
    } else {
        out.append("\nCandidate\n  from:   ");
        out.append(id);
        out.append("\n  to:     ");
        out.append(candidate);
        out.append("\n  events: ");
        say_number(&mut out, count);
        out.append("\n  Reattach? [y/N] ");
    }
    assert(out@ =~= reattach_question(id@, candidate@, count as nat, quiet));
    out
}

fn write_dry_purge(count: usize, quiet: bool) -> (out: String)
    ensures
        out@ == dry_purge_text(count as nat, quiet),
{
    let mut out = String::new();
    if quiet {
        out.append("would purge ");
    } else {
        out.append("\nCleanup\n  action: would purge ");
    }
    say_number(&mut out, count);
    out.append(" unresolved orphaned event(s)\n");
    assert(out@ =~= dry_purge_text(count as nat, quiet));
    out
}

fn write_purge_question(count: usize, quiet: bool) -> (out: String)
    ensures
        out@ == purge_question(count as nat, quiet),
{
    let mut out = String::new();
    if quiet {
        out.append("purge ");
    } else {
        out.append("\nCleanup\n  Purge ");
    }
    say_number(&mut out, count);
    out.append(" unresolved orphaned event(s)? [y/N] ");
    assert(out@ =~= purge_question(count as nat, quiet));
    out
}

fn write_purged(count: usize) -> (out: String)
    ensures
        out@ == purged_text(count as nat),
{
    let mut out = String::new();
    out.append("purged ");
    say_number(&mut out, count);
    out.append(" unresolved orphaned event(s)\n");
    assert(out@ =~= purged_text(count as nat));
    out
}

impl GcRun {
    /// Starts a clean-up, up to its first question.
    pub fn new(options: GcOptions, state_file: &str, index: &SnippetIndex, store: FrecencyStore) -> (run:
        Self)
        ensures
            run@.wf(),
            all_orphans(run@.orphans, index@, store@),
            run@ == started(options, state_file@, index@.len(), run@.orphans, store@).moving(),
    {
        let orphans = collect_orphans_with_index(index, &store);
        let ghost views = orphan_views(orphans@);
        let ghost events = store@;
        let kept = store.events();
        assert(frecency::event_views(kept@).len() == kept@.len());
        let count = kept.len();
        proof {
            text_map::lemma_sorted_distinct(orphan_ids(views));
            assert forall|i: int| 0 <= i < views.len() implies (#[trigger] views[i]).events
                == frecency::uses_of(events, views[i].id) by {
                assert(orphan_ids(views)[i] == views[i].id);
                assert(orphan_events(views)[i] == views[i].events);
            }
            lemma_total_is_bounded(views, events);
        }
        let mut sum: usize = 0;
        let mut i: usize = 0;
        assert(views.skip(0) =~= views);
        while i < orphans.len()
            invariant
                i <= orphans@.len(),
                views == orphan_views(orphans@),
                sum + total(views.skip(i as int)) == total(views),
                total(views) <= count,
            decreases orphans@.len() - i,
        {
            assert(views.skip(i as int)[0] == orphans@[i as int]@);
            assert(views.skip(i as int).skip(1) =~= views.skip(i + 1));
            sum = sum + orphans[i].events;
            i = i + 1;
        }
        assert(total(views.skip(i as int)) == 0);
        let out = write_header(state_file, index.len(), sum, orphans.len(), options.quiet);
        let mut run = GcRun {
            options,
            orphans,
            at: 0,
            stage: GcStage::Decided,
            store,
            reattached: 0,
            purged: 0,
            unresolved: Vec::new(),
            unresolved_events: 0,
            out,
        };
        proof {
            assert(domain::id_texts(run.unresolved@) =~= Seq::<Seq<char>>::empty());
            assert(run@ =~= started(options, state_file@, index@.len(), views, events));
            assert forall|i: int, j: int|
                0 <= i < views.len() && 0 <= j < views.len() implies (
            #[trigger] views[i]).candidate != Some((#[trigger] views[j]).id) by {
                if views[i].candidate == Some(views[j].id) {
                    let at = best_place(views[i].id, index@)->0;
                    lemma_best_place(views[i].id, index@);
                    lemma_entry_is_known(index@, at);
                    assert(orphan_ids(views)[j] == views[j].id);
                    assert(orphan_ids(views).contains(views[j].id));
                }
            }
        }
        run.advance();
        run
    }

    /// Goes on to the next question.
    fn advance(&mut self)
        requires
            old(self)@.wf(),
            old(self)@.stage == GcStage::Decided,
        ensures
            final(self)@ == old(self)@.moving(),
            final(self)@.wf(),
            final(self)@.orphans == old(self)@.orphans,
    {
        let ghost goal = self@.moving();
        let ghost orphans = self@.orphans;
        while self.at < self.orphans.len()
            invariant
                self@.wf(),
                self@.stage == GcStage::Decided,
                self@.orphans == orphans,
                orphans == old(self)@.orphans,
                goal == old(self)@.moving(),
                self@.moving() == goal,
            decreases self.orphans@.len() - self.at,
        {
            let ghost before = self@;
            let at = self.at;
            let n: usize = self.orphans.len();
            assert(before.orphans[at as int] == self.orphans@[at as int]@);
            assert(before.orphans.skip(at as int)[0] == before.orphans[at as int]);
            let events = self.orphans[at].events;
            let said = match &self.orphans[at].candidate_id {
                None => write_unresolved(
                    self.orphans[at].id.as_str(),
                    events,
                    self.options.quiet,
                ),
                Some(candidate) => if self.options.dry_run {
                    write_dry_candidate(
                        self.orphans[at].id.as_str(),
                        candidate.as_str(),
                        events,
                        self.options.quiet,
                    )
                } else {
                    let question = write_reattach_question(
                        self.orphans[at].id.as_str(),
                        candidate.as_str(),
                        events,
                        self.options.quiet,
                    );
                    self.out.append(question.as_str());
                    self.stage = GcStage::Reattach;
                    assert(self@ =~= goal);
                    return;
                },
            };
            proof {
                lemma_leaving_keeps_wf(before);
            }
            let id = self.orphans[at].id.clone();
            let ghost old_unresolved = self.unresolved@;
            let ghost name = id@;
            self.unresolved.push(id);
            assert(domain::id_texts(self.unresolved@) =~= domain::id_texts(old_unresolved).push(
                name,
            ));
            self.unresolved_events = self.unresolved_events + events;
            self.at = at + 1;
            self.out.append(said.as_str());
            assert(self@ =~= before.leaving().saying(said@));
        }
        assert(goal == self@.closing());
        self.close();
    }

    /// What follows once all orphans were looked at.
    fn close(&mut self)
        requires
            old(self)@.wf(),
            old(self)@.stage == GcStage::Decided,
            old(self)@.at == old(self)@.orphans.len(),
        ensures
            final(self)@ == old(self)@.closing(),
            final(self)@.wf(),
    {
        let ghost before = self@;
        if self.options.purge {
            if self.options.dry_run {
                self.purged = self.unresolved_events;
                let said = write_dry_purge(self.unresolved_events, self.options.quiet);
                self.out.append(said.as_str());
                assert(self@ =~= before.closing());
            } else {
                self.purge();
                if self.purged > 0 && self.options.quiet {
                    let said = write_purged(self.purged);
                    self.out.append(said.as_str());
                }
                assert(self@ =~= before.closing());
            }
        } else if self.options.dry_run || self.unresolved_events == 0 {
            assert(self@ =~= before.closing());
        } else {
            let question = write_purge_question(self.unresolved_events, self.options.quiet);
            self.out.append(question.as_str());
            self.stage = GcStage::Purge;
            assert(self@ =~= before.closing());
        }
    }

    /// Takes the unresolved uses away.
    fn purge(&mut self)
        requires
            old(self)@.wf(),
            old(self)@.at == old(self)@.orphans.len(),
        ensures
            final(self)@ == old(self)@.purging(),
            final(self)@.wf(),
    {
        let ghost before = self@;
        let count = self.store.purge_ids(&self.unresolved);
        self.purged = count;
        self.stage = GcStage::Decided;
        assert(self@ =~= before.purging());
    }

    /// What the clean-up waits for.
    pub fn stage(&self) -> (stage: GcStage)
        ensures
            stage == self@.stage,
    {
        self.stage
    }

    /// What is to be written, once.
    pub fn take_output(&mut self) -> (out: String)
        ensures
            out@ == old(self)@.out,
            final(self)@ == (GcView { out: Seq::empty(), ..old(self)@ }),
            old(self)@.wf() ==> final(self)@.wf(),
    {
        let ghost before = self@;
        let mut out = String::new();
        std::mem::swap(&mut out, &mut self.out);
        assert(self@ =~= (GcView { out: Seq::empty(), ..before }));
        out
    }

    /// Takes an answer, and goes on to the next question.
    pub fn answer(&mut self, answer: &str)
        requires
            old(self)@.wf(),
        ensures
            final(self)@ == old(self)@.answered(answer@),
            final(self)@.wf(),
            final(self)@.orphans == old(self)@.orphans,
    {
        let ghost before = self@;
        let yes = is_yes(answer);
        match self.stage {
            GcStage::Reattach => {
                let at = self.at;
                let n: usize = self.orphans.len();
                assert(before.orphans[at as int] == self.orphans@[at as int]@);
                assert(before.orphans.skip(at as int)[0] == before.orphans[at as int]);
                proof {
                    lemma_handing_keeps_wf(before);
                    lemma_leaving_keeps_wf(before);
                }
                if yes {
                    match &self.orphans[at].candidate_id {
                        Some(candidate) => {
                            let count = self.store.reattach(&self.orphans[at].id, candidate);
                            self.reattached = self.reattached + count;
                        },
                        None => {},
                    }
                    self.out.append("reattached\n");
                    self.at = at + 1;
                    self.stage = GcStage::Decided;
                    let ghost goal = before.handing().saying("reattached\n"@);
                    assert(self@ =~= (GcView { stage: GcStage::Decided, ..goal }));
                    proof {
                        lemma_moving_ignores_stage(goal, GcStage::Decided);
                    }
                } else {
                    let id = self.orphans[at].id.clone();
                    let ghost old_unresolved = self.unresolved@;
                    let ghost name = id@;
                    self.unresolved.push(id);
                    assert(domain::id_texts(self.unresolved@) =~= domain::id_texts(
                        old_unresolved,
                    ).push(name));
                    self.unresolved_events = self.unresolved_events + self.orphans[at].events;
                    self.out.append("skipped\n");
                    self.at = at + 1;
                    self.stage = GcStage::Decided;
                    let ghost goal = before.leaving().saying("skipped\n"@);
                    assert(self@ =~= (GcView { stage: GcStage::Decided, ..goal }));
                    proof {
                        lemma_moving_ignores_stage(goal, GcStage::Decided);
                    }
                }
                self.advance();
            },
            GcStage::Purge => {
                if yes {
                    self.purge();
                    let said = write_purged(self.purged);
                    self.out.append(said.as_str());
                } else {
                    self.stage = GcStage::Decided;
                    self.out.append("kept unresolved orphaned event(s)\n");
                }
                assert(self@ =~= before.answered(answer@));
            },
            GcStage::Decided => {},
        }
    }

    /// The uses, as far as they have changed.
    pub fn store(&self) -> (store: &FrecencyStore)
        ensures
            store@ == self@.events,
    {
        &self.store
    }

    /// Whether the uses changed and are to be kept.
    pub fn would_change(&self) -> (yes: bool)
        ensures
            yes == self@.changed(),
    {
        self.reattached > 0 || (!self.options.dry_run && self.purged > 0)
    }
}

/// What stage a clean-up is in makes no difference to how it goes on.
proof fn lemma_moving_ignores_stage(run: GcView, stage: GcStage)
    ensures
        (GcView { stage, ..run }).moving() == run.moving(),
    decreases run.orphans.len() - run.at,
{
    let other = GcView { stage, ..run };
    if run.at < run.orphans.len() {
        let orphan = run.orphans[run.at];
        match orphan.candidate {
            None => {
                let next = run.leaving().saying(
                    unresolved_text(orphan.id, orphan.events, run.options.quiet),
                );
                lemma_moving_ignores_stage(next, stage);
                assert(other.leaving().saying(
                    unresolved_text(orphan.id, orphan.events, run.options.quiet),
                ) == (GcView { stage, ..next }));
            },
            Some(candidate) => {
                if run.options.dry_run {
                    let next = run.leaving().saying(
                        dry_candidate_text(
                            orphan.id,
                            candidate,
                            orphan.events,
                            run.options.quiet,
                        ),
                    );
                    lemma_moving_ignores_stage(next, stage);
                    assert(other.leaving().saying(
                        dry_candidate_text(
                            orphan.id,
                            candidate,
                            orphan.events,
                            run.options.quiet,
                        ),
                    ) == (GcView { stage, ..next }));
                }
            },
        }
    }
}

/// A snippet's id is known.
proof fn lemma_entry_is_known(entries: Seq<index::EntryView>, at: int)
    requires
        0 <= at < entries.len(),
    ensures
        index::entry_of(entries, entries[at].snippet.id) is Some,
    decreases entries.len(),
{
    if entries[0].snippet.id != entries[at].snippet.id {
        assert(entries.skip(1)[at - 1] == entries[at]);
        lemma_entry_is_known(entries.skip(1), at - 1);
    }
}

/// What a clean-up did.
#[derive(Debug, PartialEq, Eq)]
pub struct GcResult {
    /// How many uses had no snippet.
    pub orphan_events: usize,
    /// How many ids had no snippet.
    pub orphan_ids: usize,
    /// How many uses were handed over.
    pub reattached_events: usize,
    /// How many uses were taken away, or would have been.
    pub purged_events: usize,
    /// Where the uses were copied to before they changed.
    pub backup_path: Option<String>,
    /// Whether the uses were kept.
    pub saved: bool,
}

/// What is said at the end.
pub open spec fn report_text(run: GcView, backup: Option<Seq<char>>) -> Seq<char> {
    if run.options.quiet {
        if run.changed() {
            (match backup {
                Some(path) => "backed up frecency store to "@ + path + "\n"@,
                None => Seq::empty(),
            }) + "saved frecency store\n"@
        } else if run.options.dry_run {
            "dry run: no changes written\n"@
        } else {
            "no changes written\n"@
        }
    } else {
        "\nResult\n  Reattached: "@ + num(run.reattached) + " event(s)\n  Purged:     "@ + num(
            run.purged,
        ) + " event(s)\n"@ + (match backup {
            Some(path) => "  Backup:     "@ + path + "\n"@,
            None => Seq::empty(),
        }) + (if run.options.dry_run {
            "  Saved:      no (dry run)\n"@
        } else if run.changed() {
            "  Saved:      yes\n"@
        } else {
            "  Saved:      no changes\n"@
        })
    }
}

impl GcRun {
    /// What is said at the end. `backup` says where the uses were copied to
    /// before they changed.
    pub fn report(&self, backup: Option<&str>) -> (out: String)
        ensures
            out@ == report_text(self@, crate::config::str_view(backup)),
    {
        let ghost goal = report_text(self@, crate::config::str_view(backup));
        let changed = self.would_change();
        let mut out = String::new();
        if self.options.quiet {
            if changed {
                match backup {
                    Some(path) => {
                        out.append("backed up frecency store to ");
                        out.append(path);
                        out.append("\n");
                    },
                    None => {},
                }
                out.append("saved frecency store\n");
            } else if self.options.dry_run {
                out.append("dry run: no changes written\n");
            } else {
                out.append("no changes written\n");
            }
            assert(out@ =~= goal);
            return out;
        }
        out.append("\nResult\n  Reattached: ");
        say_number(&mut out, self.reattached);
        out.append(" event(s)\n  Purged:     ");
        say_number(&mut out, self.purged);
        out.append(" event(s)\n");
        match backup {
            Some(path) => {
                out.append("  Backup:     ");
                out.append(path);
                out.append("\n");
            },
            None => {},
        }
        if self.options.dry_run {
            out.append("  Saved:      no (dry run)\n");
        } else if changed {
            out.append("  Saved:      yes\n");
        } else {
            out.append("  Saved:      no changes\n");
        }
        assert(out@ =~= goal);
        out
    }

    /// What the clean-up did.
    pub fn result(&self, backup_path: Option<String>) -> (result: GcResult)
        requires
            self@.wf(),
            self@.at == self@.orphans.len(),
        ensures
            result == (GcResult {
                orphan_events: total(self@.orphans) as usize,
                orphan_ids: self@.orphans.len() as usize,
                reattached_events: self@.reattached as usize,
                purged_events: self@.purged as usize,
                backup_path,
                saved: self@.changed(),
            }),
    {
        assert(total(self@.orphans.skip(self@.at)) == 0);
        GcResult {
            orphan_events: self.reattached + self.unresolved_events,
            orphan_ids: self.orphans.len(),
            reattached_events: self.reattached,
            purged_events: self.purged,
            backup_path,
            saved: self.would_change(),
        }
    }
}

/// A dry run asks nothing, leaves every use as it is and keeps nothing.
pub proof fn law_dry_run_changes_nothing(run: GcView)
    requires
        run.wf(),
        run.options.dry_run,
    ensures
        run.moving().events == run.events,
        run.moving().stage == GcStage::Decided,
        !run.moving().changed(),
    decreases run.orphans.len() - run.at,
{
    if run.at < run.orphans.len() {
        let orphan = run.orphans[run.at];
        lemma_leaving_keeps_wf(run);
        let said = match orphan.candidate {
            None => unresolved_text(orphan.id, orphan.events, run.options.quiet),
            Some(candidate) => dry_candidate_text(
                orphan.id,
                candidate,
                orphan.events,
                run.options.quiet,
            ),
        };
        let next = run.leaving().saying(said);
        let still = GcView { stage: GcStage::Decided, ..next };
        law_dry_run_changes_nothing(still);
        lemma_moving_ignores_stage(next, GcStage::Decided);
    }
}

/// When no orphan is left to ask about, every use of an orphan was either
/// handed over or is unresolved.
pub proof fn law_every_orphan_is_settled(run: GcView)
    requires
        run.wf(),
        run.moving().stage != GcStage::Reattach,
    ensures
        run.moving().at == run.orphans.len(),
        run.moving().reattached + run.moving().unresolved_events == total(run.orphans),
    decreases run.orphans.len() - run.at,
{
    if run.at < run.orphans.len() {
        let orphan = run.orphans[run.at];
        lemma_leaving_keeps_wf(run);
        let said = match orphan.candidate {
            None => unresolved_text(orphan.id, orphan.events, run.options.quiet),
            Some(candidate) => dry_candidate_text(
                orphan.id,
                candidate,
                orphan.events,
                run.options.quiet,
            ),
        };
        let next = run.leaving().saying(said);
        let still = GcView { stage: GcStage::Decided, ..next };
        lemma_moving_ignores_stage(next, GcStage::Decided);
        law_every_orphan_is_settled(still);
    } else {
        assert(total(run.orphans.skip(run.at)) == 0);
    }
}

proof fn lemma_moving_keeps_uses(run: GcView, id: Seq<char>)
    requires
        0 <= run.at,
        !orphan_ids(run.orphans).contains(id),
        !run.unresolved.contains(id),
    ensures
        frecency::uses_of(run.moving().events, id) == frecency::uses_of(run.events, id),
    decreases run.orphans.len() - run.at,
{
    if run.at < run.orphans.len() {
        let orphan = run.orphans[run.at];
        assert(orphan_ids(run.orphans)[run.at] == orphan.id);
        assert(orphan_ids(run.orphans).contains(orphan.id));
        let said = match orphan.candidate {
            None => unresolved_text(orphan.id, orphan.events, run.options.quiet),
            Some(candidate) => dry_candidate_text(
                orphan.id,
                candidate,
                orphan.events,
                run.options.quiet,
            ),
        };
        let next = run.leaving().saying(said);
        if orphan.candidate is None || run.options.dry_run {
            assert forall|k: int| 0 <= k < next.unresolved.len() implies next.unresolved[k]
                != id by {
                if k < run.unresolved.len() {
                    assert(next.unresolved[k] == run.unresolved[k]);
                    assert(run.unresolved.contains(run.unresolved[k]));
                }
            }
            assert(!next.unresolved.contains(id));
            lemma_moving_keeps_uses(next, id);
        }
    } else {
        frecency::law_purging_takes_only_those(run.events, run.unresolved, id);
    }
}

/// Whatever is answered, a snippet that is no orphan keeps every use it had.
pub proof fn law_known_snippets_keep_their_uses(run: GcView, answer: Seq<char>, id: Seq<char>)
    requires
        run.wf(),
        !orphan_ids(run.orphans).contains(id),
        !run.unresolved.contains(id),
    ensures
        frecency::uses_of(run.answered(answer).events, id) >= frecency::uses_of(run.events, id),
{
    frecency::law_purging_takes_only_those(run.events, run.unresolved, id);
    if run.stage == GcStage::Reattach {
        let orphan = run.orphans[run.at];
        assert(orphan_ids(run.orphans)[run.at] == orphan.id);
        assert(orphan_ids(run.orphans).contains(orphan.id));
        let candidate = orphan.candidate->0;
        assert(orphan.candidate != Some(run.orphans[run.at].id));
        if id == candidate {
            frecency::law_reattaching_keeps_every_use(run.events, orphan.id, candidate);
        } else {
            lemma_handing_over_others(run.events, orphan.id, candidate, id);
        }
        lemma_moving_keeps_uses(run.handing().saying("reattached\n"@), id);
        let left = run.leaving().saying("skipped\n"@);
        assert forall|k: int| 0 <= k < left.unresolved.len() implies left.unresolved[k] != id by {
            if k < run.unresolved.len() {
                assert(left.unresolved[k] == run.unresolved[k]);
                assert(run.unresolved.contains(run.unresolved[k]));
            }
        }
        assert(!left.unresolved.contains(id));
        lemma_moving_keeps_uses(left, id);
    }
}

/// Two slugs may lie as far apart as a third of the longer one's bytes, but two
/// edits always.
pub proof fn law_tolerance(a: Seq<char>, b: Seq<char>)
    ensures
        tolerance(a, b) == tolerance(b, a),
        tolerance(a, b) >= 2,
        line_edit::byte_len(a) >= line_edit::byte_len(b) && line_edit::byte_len(a) >= 6 ==> 3
            * tolerance(a, b) <= line_edit::byte_len(a) < 3 * tolerance(a, b) + 3,
        line_edit::byte_len(a) < 6 && line_edit::byte_len(b) < 6 ==> tolerance(a, b) == 2,
{
}

/// How far the slugs of two ids lie apart.
pub open spec fn apart(id: Seq<char>, other: Seq<char>) -> nat {
    edit_distance::distance(slug_of(id), slug_of(other))
}

/// Whether the slugs of two ids lie near enough to be a rename.
pub open spec fn near(id: Seq<char>, other: Seq<char>) -> bool {
    apart(id, other) <= tolerance(slug_of(id), slug_of(other))
}

/// Whether a snippet's file is named as the file of an id was.
pub open spec fn in_same_file(id: Seq<char>, entry: index::EntryView) -> bool {
    &&& path::file_name_of(path_of(id)) is Some
    &&& path::file_name_of(path_of(id)) == path::file_name_of(entry.relative_path)
}

/// The snippet that an orphan may have become is one whose slug is near, and none
/// is nearer. Among equally near ones a file of the same name comes first, and
/// then what was put in first. Where no slug is near there is none.
pub proof fn law_candidates(id: Seq<char>, entries: Seq<index::EntryView>)
    ensures
        candidate_of(id, entries) is None <==> forall|k: int|
            0 <= k < entries.len() ==> !near(id, (#[trigger] entries[k]).snippet.id),
        candidate_of(id, entries) is Some ==> exists|k: int| #[trigger]
            is_choice(id, entries, k) && candidate_of(id, entries) == Some(entries[k].snippet.id),
{
    lemma_choice(id, entries);
    if candidate_of(id, entries) is Some {
        let k = best_place(id, entries)->0;
        assert(is_choice(id, entries, k));
    }
}

/// Whether a snippet is the one that an id may have become.
pub open spec fn is_choice(id: Seq<char>, entries: Seq<index::EntryView>, k: int) -> bool {
    &&& 0 <= k < entries.len()
    &&& near(id, entries[k].snippet.id)
    &&& forall|j: int|
        0 <= j < entries.len() && near(id, (#[trigger] entries[j]).snippet.id) ==> {
            &&& apart(id, entries[k].snippet.id) <= apart(id, entries[j].snippet.id)
            &&& apart(id, entries[k].snippet.id) == apart(id, entries[j].snippet.id)
                && in_same_file(id, entries[j]) ==> in_same_file(id, entries[k])
            &&& j < k ==> apart(id, entries[k].snippet.id) < apart(id, entries[j].snippet.id) || (
            in_same_file(id, entries[k]) && !in_same_file(id, entries[j]))
        }
}

proof fn lemma_choice(id: Seq<char>, entries: Seq<index::EntryView>)
    ensures
        best_place(id, entries) is None ==> forall|k: int|
            0 <= k < entries.len() ==> !near(id, (#[trigger] entries[k]).snippet.id),
        best_place(id, entries) matches Some(k) ==> is_choice(id, entries, k),
    decreases entries.len(),
{
    if entries.len() > 0 {
        let front = entries.drop_last();
        lemma_choice(id, front);
        let last = entries.len() - 1;
        assert(forall|k: int| 0 <= k < front.len() ==> #[trigger] front[k] == entries[k]);
        assert(entries[last] == entries.last());
        assert forall|k: int| 0 <= k < entries.len() implies near(
            id,
            (#[trigger] entries[k]).snippet.id,
        ) == fit_of(id, entries[k]) is Some by {}
        match best_place(id, front) {
            None => {
                assert forall|j: int| 0 <= j < last implies !near(
                    id,
                    (#[trigger] entries[j]).snippet.id,
                ) by {
                    assert(front[j] == entries[j]);
                }
            },
            Some(at) => {
                assert(front[at] == entries[at]);
                assert forall|j: int|
                    0 <= j < last && near(id, (#[trigger] entries[j]).snippet.id) implies {
                    &&& apart(id, entries[at].snippet.id) <= apart(id, entries[j].snippet.id)
                    &&& apart(id, entries[at].snippet.id) == apart(id, entries[j].snippet.id)
                        && in_same_file(id, entries[j]) ==> in_same_file(id, entries[at])
                    &&& j < at ==> apart(id, entries[at].snippet.id) < apart(
                        id,
                        entries[j].snippet.id,
                    ) || (in_same_file(id, entries[at]) && !in_same_file(id, entries[j]))
                } by {
                    assert(front[j] == entries[j]);
                }
            },
        }
        match best_place(id, entries) {
            None => {
                assert forall|k: int| 0 <= k < entries.len() implies !near(
                    id,
                    (#[trigger] entries[k]).snippet.id,
                ) by {
                    if k < last {
                        assert(front[k] == entries[k]);
                    }
                }
            },
            Some(k) => {
                assert(is_choice(id, entries, k));
            },
        }
    }
}

proof fn lemma_small_letter(c: char, small: char, capital: char)
    requires
        text::ascii_lower_char(c) == small,
        'a' <= small <= 'z',
        capital as u32 + 32 == small as u32,
    ensures
        c == small || c == capital,
{
    if 'A' <= c <= 'Z' {
        assert((c as u32 + 32) as char as u32 == c as u32 + 32);
    }
}

/// An answer is a yes where it is `y` or `yes` in small or capital letters, white
/// space around it aside, and in no other case.
pub proof fn law_answers(before: Seq<char>, said: Seq<char>, behind: Seq<char>)
    requires
        text::is_trimmed(said),
        forall|i: int| 0 <= i < before.len() ==> text::is_white_space(#[trigger] before[i]),
        forall|i: int| 0 <= i < behind.len() ==> text::is_white_space(#[trigger] behind[i]),
    ensures
        means_yes(before + said + behind) <==> {
            &&& said.len() == 1 || said.len() == 3
            &&& said[0] == 'y' || said[0] == 'Y'
            &&& said.len() == 3 ==> (said[1] == 'e' || said[1] == 'E') && (said[2] == 's' || said[2]
                == 'S')
        },
{
    reveal_strlit("y");
    reveal_strlit("yes");
    if said.len() > 0 {
        text::law_trimming_takes_white_space_away(before, said, behind);
    } else {
        text::law_white_space_is_trimmed_away(before + said + behind);
    }
    let trimmed = text::trim_of(before + said + behind);
    let low = text::ascii_lower(trimmed);
    assert(trimmed =~= said);
    assert(low.len() == said.len());
    assert forall|i: int| 0 <= i < said.len() implies #[trigger] low[i]
        == text::ascii_lower_char(said[i]) by {}
    if low == "y"@ {
        assert(low[0] == 'y');
        lemma_small_letter(said[0], 'y', 'Y');
    }
    if low == "yes"@ {
        assert(low[0] == 'y' && low[1] == 'e' && low[2] == 's');
        lemma_small_letter(said[0], 'y', 'Y');
        lemma_small_letter(said[1], 'e', 'E');
        lemma_small_letter(said[2], 's', 'S');
    }
    if said.len() == 1 && (said[0] == 'y' || said[0] == 'Y') {
        assert(low =~= "y"@);
    }
    if said.len() == 3 && (said[0] == 'y' || said[0] == 'Y') && (said[1] == 'e' || said[1] == 'E')
        && (said[2] == 's' || said[2] == 'S') {
        assert(low =~= "yes"@);
    }
}

proof fn lemma_moving_counts(run: GcView)
    requires
        0 <= run.at,
    ensures
        run.moving().reattached == run.reattached,
        !run.options.purge || run.options.dry_run || run.moving().stage == GcStage::Reattach
            ==> run.moving().events == run.events,
        run.moving().options == run.options,
        run.moving().orphans == run.orphans,
    decreases run.orphans.len() - run.at,
{
    if run.at < run.orphans.len() {
        let orphan = run.orphans[run.at];
        if orphan.candidate is None || run.options.dry_run {
            let said = match orphan.candidate {
                None => unresolved_text(orphan.id, orphan.events, run.options.quiet),
                Some(candidate) => dry_candidate_text(
                    orphan.id,
                    candidate,
                    orphan.events,
                    run.options.quiet,
                ),
            };
            lemma_moving_counts(run.leaving().saying(said));
        }
    }
}

/// A yes hands the uses of an orphan over to the snippet that was asked about, and
/// counts them.
pub proof fn law_yes_hands_the_uses_over(run: GcView, answer: Seq<char>, candidate: Seq<char>)
    requires
        run.wf(),
        run.stage == GcStage::Reattach,
        means_yes(answer),
        run.orphans[run.at].candidate == Some(candidate),
        !run.unresolved.contains(candidate),
    ensures
        ({
            let orphan = run.orphans[run.at];
            let after = run.answered(answer);
            &&& frecency::uses_of(after.events, candidate) == frecency::uses_of(
                run.events,
                candidate,
            ) + frecency::uses_of(run.events, orphan.id)
            &&& after.reattached == run.reattached + frecency::uses_of(run.events, orphan.id)
            &&& !run.options.purge ==> frecency::uses_of(after.events, orphan.id) == 0
        }),
{
    let orphan = run.orphans[run.at];
    let next = run.handing().saying("reattached\n"@);
    assert forall|j: int| 0 <= j < run.orphans.len() implies orphan_ids(run.orphans)[j]
        != candidate by {
        assert(run.orphans[run.at].candidate != Some(run.orphans[j].id));
    }
    assert(!orphan_ids(run.orphans).contains(candidate));
    assert(orphan_ids(run.orphans)[run.at] == orphan.id);
    frecency::law_reattaching_keeps_every_use(run.events, orphan.id, candidate);
    lemma_moving_keeps_uses(next, candidate);
    lemma_moving_counts(next);
}

/// Any other answer leaves the uses of the orphan where they are, unless all that
/// is left over is to be taken away.
pub proof fn law_no_leaves_the_uses(run: GcView, answer: Seq<char>)
    requires
        run.wf(),
        run.stage == GcStage::Reattach,
        !means_yes(answer),
    ensures
        !run.options.purge ==> run.answered(answer).events == run.events,
        run.answered(answer).reattached == run.reattached,
{
    lemma_moving_counts(run.leaving().saying("skipped\n"@));
}

/// A yes at the end takes the uses of exactly the unresolved ids away, and any other
/// answer takes none.
pub proof fn law_taking_the_rest_away(run: GcView, answer: Seq<char>, id: Seq<char>)
    requires
        run.stage == GcStage::Purge,
    ensures
        run.answered(answer).stage == GcStage::Decided,
        means_yes(answer) ==> frecency::uses_of(run.answered(answer).events, id) == (
        if run.unresolved.contains(id) {
            0
        } else {
            frecency::uses_of(run.events, id)
        }),
        means_yes(answer) ==> run.answered(answer).purged + run.answered(answer).events.len()
            == run.events.len(),
        !means_yes(answer) ==> run.answered(answer).events == run.events,
{
    frecency::law_purging_takes_only_those(run.events, run.unresolved, id);
    lemma_others_are_fewer(run.events, run.unresolved);
}

proof fn lemma_others_are_fewer(events: Seq<frecency::EventView>, ids: Seq<Seq<char>>)
    ensures
        frecency::others(events, ids).len() <= events.len(),
    decreases events.len(),
{
    if events.len() > 0 {
        lemma_others_are_fewer(events.drop_last(), ids);
    }
}

} // verus!
