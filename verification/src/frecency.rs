//! When and where snippets were used.
//!
//! The store is kept as text, one line for each use, so that it can be read,
//! compared and deleted by hand.

use vstd::prelude::*;
use crate::domain;
use crate::domain::SnippetId;
use crate::path;
use crate::text;

verus! {

broadcast use vstd::string::group_string_axioms;

/// One use of a snippet.
#[derive(Debug, PartialEq, Eq)]
pub struct UsageEvent {
    pub id: SnippetId,
    /// The directory in which it was used.
    pub cwd: String,
    /// Seconds since the start of 1970.
    pub timestamp: u64,
}

/// What a [`UsageEvent`] holds.
pub struct EventView {
    pub id: Seq<char>,
    pub cwd: Seq<char>,
    pub timestamp: u64,
}

impl View for UsageEvent {
    type V = EventView;

    open spec fn view(&self) -> EventView {
        EventView { id: self.id@, cwd: self.cwd@, timestamp: self.timestamp }
    }
}

impl Clone for UsageEvent {
    fn clone(&self) -> (event: Self)
        ensures
            event@ == self@,
    {
        UsageEvent { id: self.id.clone(), cwd: self.cwd.clone(), timestamp: self.timestamp }
    }
}

/// What a list of uses holds.
pub open spec fn event_views(events: Seq<UsageEvent>) -> Seq<EventView> {
    events.map_values(|e: UsageEvent| e@)
}

proof fn lemma_events_push(events: Seq<UsageEvent>, e: UsageEvent)
    ensures
        event_views(events.push(e)) == event_views(events).push(e@),
{
    assert(event_views(events.push(e)) =~= event_views(events).push(e@));
}

/// The use that a line writes down: a time, an id and a directory with tabs
/// between them. The directory may hold tabs of its own.
pub open spec fn event_of(line: Seq<char>) -> Option<EventView> {
    match text::find_from(line, seq!['\t'], 0) {
        None => None,
        Some(first) => match text::find_from(line, seq!['\t'], first + 1) {
            None => None,
            Some(second) => {
                let id = line.subrange(first + 1, second);
                match text::number_of(line.take(first)) {
                    Some(time) if time <= u64::MAX && id.contains('#') => Some(
                        EventView { id, cwd: line.skip(second + 1), timestamp: time as u64 },
                    ),
                    _ => None,
                }
            },
        },
    }
}

/// The line that writes a use down.
pub open spec fn event_line(e: EventView) -> Seq<char> {
    text::decimal(e.timestamp as nat).push('\t') + e.id.push('\t') + e.cwd
}

/// Uses that were read, and how many lines were no use.
pub struct Reading {
    pub events: Seq<EventView>,
    pub skipped: nat,
}

/// What lines write down. Blank lines count for nothing.
pub open spec fn read_lines(lines: Seq<Seq<char>>) -> Reading
    decreases lines.len(),
{
    if lines.len() == 0 {
        Reading { events: Seq::empty(), skipped: 0 }
    } else {
        let before = read_lines(lines.drop_last());
        if text::trim_of(lines.last()).len() == 0 {
            before
        } else {
            match event_of(lines.last()) {
                Some(e) => Reading { events: before.events.push(e), ..before },
                None => Reading { skipped: before.skipped + 1, ..before },
            }
        }
    }
}

/// The text that writes uses down.
pub open spec fn written(events: Seq<EventView>) -> Seq<char>
    decreases events.len(),
{
    if events.len() == 0 {
        Seq::empty()
    } else {
        written(events.drop_last()) + event_line(events.last()).push('\n')
    }
}

/// The use that a line writes down.
fn parse_event(line: &str) -> (event: Option<UsageEvent>)
    ensures
        match event {
            Some(e) => event_of(line@) == Some(e@),
            None => event_of(line@) is None,
        },
{
    let chars = text::chars_of(line);
    let mut tab: Vec<char> = Vec::new();
    tab.push('\t');
    assert(tab@ =~= seq!['\t']);
    let first = match text::find_chars(&chars, &tab, 0) {
        Some(at) => at,
        None => {
            return None;
        },
    };
    proof {
        text::lemma_find_from(line@, seq!['\t'], 0);
    }
    let second = match text::find_chars(&chars, &tab, first + 1) {
        Some(at) => at,
        None => {
            return None;
        },
    };
    proof {
        text::lemma_find_from(line@, seq!['\t'], first + 1);
    }
    let n: usize = chars.len();
    assert(second < n);
    let time = text::string_from(&chars, 0, first);
    let id = text::string_from(&chars, first + 1, second);
    let cwd = text::string_from(&chars, second + 1, n);
    assert(time@ =~= line@.take(first as int));
    assert(cwd@ =~= line@.skip(second + 1));
    let timestamp = match text::parse_number(time.as_str()) {
        Some(n) => n,
        None => {
            return None;
        },
    };
    let mut i: usize = first + 1;
    while i < second
        invariant
            first < i <= second < chars@.len(),
            chars@ == line@,
            id@ == line@.subrange(first + 1, second as int),
            forall|k: int| first < k < i ==> chars@[k] != '#',
        ensures
            i < second ==> chars@[i as int] == '#',
            i >= second ==> i == second,
            first < i,
            i >= second ==> forall|k: int| first < k < second ==> chars@[k] != '#',
        decreases second - i,
    {
        if chars[i] == '#' {
            break;
        }
        i = i + 1;
    }
    if i < second {
        assert(id@[i - first - 1] == '#');
        assert(id@.contains('#'));
        Some(UsageEvent { id: SnippetId::from_text(id), cwd, timestamp })
    } else {
        assert(!id@.contains('#')) by {
            assert forall|k: int| 0 <= k < id@.len() implies id@[k] != '#' by {
                assert(id@[k] == chars@[first + 1 + k]);
            }
        }
        None
    }
}

/// The uses of snippets, oldest first.
#[derive(Debug)]
pub struct FrecencyStore {
    events: Vec<UsageEvent>,
}

impl View for FrecencyStore {
    type V = Seq<EventView>;

    closed spec fn view(&self) -> Seq<EventView> {
        event_views(self.events@)
    }
}

impl Default for FrecencyStore {
    /// No uses.
    fn default() -> (store: Self)
        ensures
            store@ == Seq::<EventView>::empty(),
    {
        FrecencyStore::new()
    }
}

impl Clone for FrecencyStore {
    fn clone(&self) -> (store: Self)
        ensures
            store@ == self@,
    {
        let mut events: Vec<UsageEvent> = Vec::new();
        let ghost all = event_views(self.events@);
        let mut i: usize = 0;
        assert(event_views(events@) =~= all.take(0));
        while i < self.events.len()
            invariant
                i <= self.events@.len(),
                all == event_views(self.events@),
                event_views(events@) == all.take(i as int),
            decreases self.events@.len() - i,
        {
            let event = self.events[i].clone();
            proof {
                lemma_events_push(events@, event);
                assert(all.take(i + 1) =~= all.take(i as int).push(all[i as int]));
            }
            events.push(event);
            i = i + 1;
        }
        assert(all.take(all.len() as int) =~= all);
        FrecencyStore { events }
    }
}

/// The uses of which a snippet is not the one that was used.
pub open spec fn others(events: Seq<EventView>, ids: Seq<Seq<char>>) -> Seq<EventView>
    decreases events.len(),
{
    if events.len() == 0 {
        Seq::empty()
    } else if ids.contains(events.last().id) {
        others(events.drop_last(), ids)
    } else {
        others(events.drop_last(), ids).push(events.last())
    }
}

/// How many uses a snippet has.
pub open spec fn uses_of(events: Seq<EventView>, id: Seq<char>) -> nat
    decreases events.len(),
{
    if events.len() == 0 {
        0
    } else {
        uses_of(events.drop_last(), id) + (if events.last().id == id {
            1nat
        } else {
            0
        })
    }
}

/// The uses, with those of one snippet handed to another.
pub open spec fn handed_over(events: Seq<EventView>, old_id: Seq<char>, new_id: Seq<char>) -> Seq<
    EventView,
> {
    events.map_values(
        |e: EventView|
            if e.id == old_id {
                EventView { id: new_id, ..e }
            } else {
                e
            },
    )
}

/// How far two directories go together: the names that both start with, out of
/// those of the longer one.
#[derive(Debug, Clone, Copy, PartialEq, Eq, Structural)]
pub struct Affinity {
    pub shared: usize,
    pub out_of: usize,
}

/// How many names two lists start with in common.
pub open spec fn common_names(a: Seq<Seq<char>>, b: Seq<Seq<char>>) -> nat
    decreases a.len(),
{
    if a.len() > 0 && b.len() > 0 && a[0] == b[0] {
        common_names(a.skip(1), b.skip(1)) + 1
    } else {
        0
    }
}

/// How far two directories go together. The root counts for nothing, as every
/// absolute path has it; two that have no names go together all the way.
pub open spec fn affinity_of(a: Seq<char>, b: Seq<char>) -> Affinity {
    let x = path::names_of(a);
    let y = path::names_of(b);
    Affinity {
        shared: if x.len() == 0 && y.len() == 0 {
            1
        } else {
            common_names(x, y) as usize
        },
        out_of: if x.len() > y.len() {
            x.len() as usize
        } else if y.len() > 0 {
            y.len() as usize
        } else {
            1
        },
    }
}

/// How far two directories go together.
pub fn path_affinity(a: &str, b: &str) -> (affinity: Affinity)
    ensures
        affinity == affinity_of(a@, b@),
        affinity.shared <= affinity.out_of,
{
    let x = path::named_components(a);
    let y = path::named_components(b);
    let ghost xs = text::texts(x@);
    let ghost ys = text::texts(y@);
    let n: usize = if x.len() < y.len() {
        x.len()
    } else {
        y.len()
    };
    let mut i: usize = 0;
    assert(xs.skip(0) =~= xs);
    assert(ys.skip(0) =~= ys);
    while i < n
        invariant
            i <= n,
            n <= x@.len(),
            n <= y@.len(),
            xs == text::texts(x@),
            ys == text::texts(y@),
            common_names(xs, ys) == common_names(xs.skip(i as int), ys.skip(i as int)) + i,
        ensures
            i <= n,
            i < n ==> xs[i as int] != ys[i as int],
            common_names(xs, ys) == common_names(xs.skip(i as int), ys.skip(i as int)) + i,
        decreases n - i,
    {
        assert(xs.skip(i as int)[0] == x@[i as int]@);
        assert(ys.skip(i as int)[0] == y@[i as int]@);
        assert(xs.skip(i as int).skip(1) =~= xs.skip(i + 1));
        assert(ys.skip(i as int).skip(1) =~= ys.skip(i + 1));
        if !text::same_text(x[i].as_str(), y[i].as_str()) {
            break;
        }
        i = i + 1;
    }
    assert(common_names(xs.skip(i as int), ys.skip(i as int)) == 0);
    let out_of: usize = if x.len() > y.len() {
        x.len()
    } else if y.len() > 0 {
        y.len()
    } else {
        1
    };
    let shared: usize = if x.len() == 0 && y.len() == 0 {
        1
    } else {
        i
    };
    Affinity { shared, out_of }
}

/// What a use counts for: how long ago it was, and how near.
#[derive(Debug, Clone, Copy, PartialEq, Eq, Structural)]
pub struct Use {
    pub age: u64,
    pub affinity: Affinity,
}

/// The uses of a snippet, seen from a directory and a time. A use in the future
/// is no time ago.
pub open spec fn uses_seen(events: Seq<EventView>, id: Seq<char>, cwd: Seq<char>, now: u64) -> Seq<Use>
    decreases events.len(),
{
    if events.len() == 0 {
        Seq::empty()
    } else {
        let before = uses_seen(events.drop_last(), id, cwd, now);
        let e = events.last();
        if e.id == id {
            before.push(
                Use {
                    age: if e.timestamp < now {
                        (now - e.timestamp) as u64
                    } else {
                        0
                    },
                    affinity: affinity_of(e.cwd, cwd),
                },
            )
        } else {
            before
        }
    }
}

impl FrecencyStore {
    /// No uses.
    pub fn new() -> (store: Self)
        ensures
            store@ == Seq::<EventView>::empty(),
    {
        let store = FrecencyStore { events: Vec::new() };
        assert(store@ =~= Seq::<EventView>::empty());
        store
    }

    /// The uses that a text writes down, and how many of its lines were no use.
    pub fn load(raw: &str) -> (loaded: (Self, usize))
        ensures
            loaded.0@ == read_lines(text::lines_of(raw@)).events,
            loaded.1 == read_lines(text::lines_of(raw@)).skipped,
    {
        let lines = text::lines(raw);
        let ghost all = text::texts(lines@);
        let mut events: Vec<UsageEvent> = Vec::new();
        let mut skipped: usize = 0;
        let mut i: usize = 0;
        assert(all.take(0) =~= Seq::<Seq<char>>::empty());
        assert(event_views(events@) =~= Seq::<EventView>::empty());
        while i < lines.len()
            invariant
                i <= lines@.len(),
                all == text::texts(lines@),
                skipped <= i,
                event_views(events@) == read_lines(all.take(i as int)).events,
                skipped == read_lines(all.take(i as int)).skipped,
            decreases lines@.len() - i,
        {
            assert(all.take(i + 1).drop_last() =~= all.take(i as int));
            assert(all.take(i + 1).last() == lines@[i as int]@);
            let line = lines[i].as_str();
            let trimmed = text::trim(line);
            if !trimmed.as_str().is_empty() {
                match parse_event(line) {
                    Some(event) => {
                        proof {
                            lemma_events_push(events@, event);
                        }
                        events.push(event);
                    },
                    None => {
                        skipped = skipped + 1;
                    },
                }
            }
            i = i + 1;
        }
        assert(all.take(all.len() as int) =~= all);
        (FrecencyStore { events }, skipped)
    }

    /// The text that writes the uses down.
    pub fn save(&self) -> (out: String)
        ensures
            out@ == written(self@),
    {
        let ghost all = event_views(self.events@);
        let mut out = String::new();
        let mut i: usize = 0;
        assert(all.take(0) =~= Seq::<EventView>::empty());
        while i < self.events.len()
            invariant
                i <= self.events@.len(),
                all == event_views(self.events@),
                out@ == written(all.take(i as int)),
            decreases self.events@.len() - i,
        {
            assert(all.take(i + 1).drop_last() =~= all.take(i as int));
            assert(all.take(i + 1).last() == self.events@[i as int]@);
            let ghost before = out@;
            let event = &self.events[i];
            let time = text::decimal_text(event.timestamp);
            out.append(time.as_str());
            out.push('\t');
            out.append(event.id.as_str());
            out.push('\t');
            out.append(event.cwd.as_str());
            out.push('\n');
            assert(out@ =~= before + event_line(event@).push('\n'));
            i = i + 1;
        }
        assert(all.take(all.len() as int) =~= all);
        out
    }

    /// Adds a use.
    pub fn record(&mut self, id: SnippetId, cwd: String, timestamp: u64)
        ensures
            final(self)@ == old(self)@.push(EventView { id: id@, cwd: cwd@, timestamp }),
    {
        let event = UsageEvent { id, cwd, timestamp };
        proof {
            lemma_events_push(self.events@, event);
        }
        self.events.push(event);
    }

    /// The uses, oldest first.
    pub fn events(&self) -> (events: &Vec<UsageEvent>)
        ensures
            event_views(events@) == self@,
    {
        &self.events
    }

    /// The uses of a snippet, seen from a directory and a time.
    pub fn uses(&self, id: &SnippetId, cwd: &str, now: u64) -> (uses: Vec<Use>)
        ensures
            uses@ == uses_seen(self@, id@, cwd@, now),
    {
        let ghost all = event_views(self.events@);
        let mut out: Vec<Use> = Vec::new();
        let mut i: usize = 0;
        assert(all.take(0) =~= Seq::<EventView>::empty());
        while i < self.events.len()
            invariant
                i <= self.events@.len(),
                all == event_views(self.events@),
                out@ == uses_seen(all.take(i as int), id@, cwd@, now),
            decreases self.events@.len() - i,
        {
            assert(all.take(i + 1).drop_last() =~= all.take(i as int));
            assert(all.take(i + 1).last() == self.events@[i as int]@);
            let event = &self.events[i];
            if event.id.same(id) {
                out.push(
                    Use {
                        age: now.saturating_sub(event.timestamp),
                        affinity: path_affinity(event.cwd.as_str(), cwd),
                    },
                );
            }
            i = i + 1;
        }
        assert(all.take(all.len() as int) =~= all);
        out
    }

    /// Hands the uses of one snippet to another, and says how many there were.
    pub fn reattach(&mut self, old_id: &SnippetId, new_id: &SnippetId) -> (count: usize)
        ensures
            final(self)@ == handed_over(old(self)@, old_id@, new_id@),
            count == uses_of(old(self)@, old_id@),
    {
        let ghost all = event_views(self.events@);
        let ghost done = handed_over(all, old_id@, new_id@);
        let mut count: usize = 0;
        let mut i: usize = 0;
        let n: usize = self.events.len();
        assert(all.take(0) =~= Seq::<EventView>::empty());
        while i < n
            invariant
                i <= n,
                n == self.events@.len(),
                n == all.len(),
                count <= i,
                done == handed_over(all, old_id@, new_id@),
                count == uses_of(all.take(i as int), old_id@),
                forall|k: int| 0 <= k < i ==> (#[trigger] self.events@[k])@ == done[k],
                forall|k: int| i <= k < n ==> (#[trigger] self.events@[k])@ == all[k],
            decreases n - i,
        {
            assert(all.take(i + 1).drop_last() =~= all.take(i as int));
            assert(all.take(i + 1).last() == all[i as int]);
            assert(self.events@[i as int]@ == all[i as int]);
            if self.events[i].id.same(old_id) {
                let event = UsageEvent {
                    id: new_id.clone(),
                    cwd: self.events[i].cwd.clone(),
                    timestamp: self.events[i].timestamp,
                };
                self.events.set(i, event);
                count = count + 1;
            }
            i = i + 1;
        }
        assert(all.take(all.len() as int) =~= all);
        assert(event_views(self.events@) =~= done);
        count
    }

    /// Takes away the uses of some snippets, and says how many there were.
    pub fn purge_ids(&mut self, ids: &Vec<SnippetId>) -> (count: usize)
        ensures
            final(self)@ == others(old(self)@, domain::id_texts(ids@)),
            count + final(self)@.len() == old(self)@.len(),
    {
        let ghost all = event_views(self.events@);
        let ghost gone = domain::id_texts(ids@);
        let mut kept: Vec<UsageEvent> = Vec::new();
        let mut i: usize = 0;
        let n: usize = self.events.len();
        assert(all.take(0) =~= Seq::<EventView>::empty());
        assert(event_views(kept@) =~= Seq::<EventView>::empty());
        while i < n
            invariant
                i <= n,
                n == self.events@.len(),
                all == event_views(self.events@),
                gone == domain::id_texts(ids@),
                kept@.len() <= i,
                event_views(kept@) == others(all.take(i as int), gone),
            decreases n - i,
        {
            assert(all.take(i + 1).drop_last() =~= all.take(i as int));
            assert(all.take(i + 1).last() == self.events@[i as int]@);
            if !has_id(ids, &self.events[i].id) {
                let event = self.events[i].clone();
                proof {
                    lemma_events_push(kept@, event);
                }
                kept.push(event);
            }
            i = i + 1;
        }
        assert(all.take(all.len() as int) =~= all);
        let count = n - kept.len();
        self.events = kept;
        count
    }
}

/// Whether an id is among others.
pub fn has_id(ids: &Vec<SnippetId>, id: &SnippetId) -> (yes: bool)
    ensures
        yes == domain::id_texts(ids@).contains(id@),
{
    let ghost all = domain::id_texts(ids@);
    let mut i: usize = 0;
    while i < ids.len()
        invariant
            i <= ids@.len(),
            all == domain::id_texts(ids@),
            forall|k: int| 0 <= k < i ==> all[k] != id@,
        decreases ids@.len() - i,
    {
        if ids[i].same(id) {
            assert(all[i as int] == id@);
            return true;
        }
        i = i + 1;
    }
    false
}

/// Whether a use can be written down and read again: its id has its `#` and no
/// tab, and neither it nor the directory breaks the line.
pub open spec fn writable(e: EventView) -> bool {
    &&& e.id.contains('#')
    &&& !e.id.contains('\t')
    &&& !e.id.contains('\n')
    &&& !e.cwd.contains('\n')
    &&& !(e.cwd.len() > 0 && e.cwd.last() == '\r')
}

proof fn lemma_decimal_plain(n: nat)
    ensures
        forall|k: int|
            0 <= k < text::decimal(n).len() ==> text::digit_value(#[trigger] text::decimal(n)[k])
                is Some,
    decreases n,
{
    if n >= 10 {
        lemma_decimal_plain(n / 10);
        let front = text::decimal(n / 10);
        assert forall|k: int| 0 <= k < text::decimal(n).len() implies text::digit_value(
            #[trigger] text::decimal(n)[k],
        ) is Some by {
            if k < front.len() {
                assert(text::decimal(n)[k] == front[k]);
            }
        }
    }
}

/// The first tab of a text is where it is found.
proof fn lemma_first_tab(s: Seq<char>, from: int, at: int)
    requires
        0 <= from <= at < s.len(),
        s[at] == '\t',
        forall|k: int| from <= k < at ==> s[k] != '\t',
    ensures
        text::find_from(s, seq!['\t'], from) == Some(at),
    decreases at - from,
{
    let tab = seq!['\t'];
    if from == at {
        assert(s.subrange(at, at + 1) =~= tab);
        assert(text::stands_at(s, tab, at));
    } else {
        assert(s.subrange(from, from + 1)[0] == s[from]);
        assert(!text::stands_at(s, tab, from));
        lemma_first_tab(s, from + 1, at);
    }
}

/// A use that was written down is read back as it was.
pub proof fn law_event_reads_back(e: EventView)
    requires
        writable(e),
    ensures
        event_of(event_line(e)) == Some(e),
{
    let time = text::decimal(e.timestamp as nat);
    let line = event_line(e);
    let first = time.len() as int;
    let second = first + 1 + e.id.len();
    text::law_decimal_reads_back(e.timestamp as nat);
    lemma_decimal_plain(e.timestamp as nat);
    assert forall|k: int| 0 <= k < first implies line[k] != '\t' by {
        assert(line[k] == time[k]);
    }
    lemma_first_tab(line, 0, first);
    assert forall|k: int| first + 1 <= k < second implies line[k] != '\t' by {
        assert(line[k] == e.id[k - first - 1]);
        assert(e.id.contains(e.id[k - first - 1]));
    }
    lemma_first_tab(line, first + 1, second);
    assert(line.take(first) =~= time);
    assert(line.subrange(first + 1, second) =~= e.id);
    assert(line.skip(second + 1) =~= e.cwd);
}

proof fn lemma_line_plain(e: EventView)
    requires
        writable(e),
    ensures
        !event_line(e).contains('\n'),
        text::without_return(event_line(e)) == event_line(e),
        text::trim_of(event_line(e)).len() > 0,
{
    let time = text::decimal(e.timestamp as nat);
    let line = event_line(e);
    text::law_decimal_reads_back(e.timestamp as nat);
    lemma_decimal_plain(e.timestamp as nat);
    assert forall|k: int| 0 <= k < line.len() implies line[k] != '\n' by {
        if k < time.len() {
            assert(line[k] == time[k]);
        } else if time.len() < k && k < time.len() + 1 + e.id.len() {
            assert(line[k] == e.id[k - time.len() - 1]);
            assert(e.id.contains(line[k]));
        } else if k > time.len() + 1 + e.id.len() {
            assert(line[k] == e.cwd[k - time.len() - 2 - e.id.len()]);
            assert(e.cwd.contains(line[k]));
        }
    }
    if e.cwd.len() == 0 {
        assert(line.last() == '\t');
    } else {
        assert(line.last() == e.cwd.last());
    }
    assert(line[0] == time[0]);
    text::lemma_trim_keeps(line, 0);
}

proof fn lemma_written_pieces(events: Seq<EventView>)
    requires
        forall|i: int| 0 <= i < events.len() ==> writable(#[trigger] events[i]),
    ensures
        text::split_of(written(events), '\n') == events.map_values(
            |e: EventView| event_line(e),
        ).push(Seq::empty()),
    decreases events.len(),
{
    let pieces = events.map_values(|e: EventView| event_line(e));
    if events.len() == 0 {
        assert(pieces.push(Seq::empty()) =~= seq![Seq::<char>::empty()]);
    } else {
        let front = events.drop_last();
        let line = event_line(events.last());
        let before = written(front);
        assert forall|i: int| 0 <= i < front.len() implies writable(#[trigger] front[i]) by {
            assert(front[i] == events[i]);
        }
        lemma_written_pieces(front);
        let old_pieces = front.map_values(|e: EventView| event_line(e));
        lemma_line_plain(events.last());
        text::lemma_split_extend(before, line, '\n');
        let whole = written(events);
        assert(whole.drop_last() =~= before + line);
        assert(whole.last() == '\n');
        assert(old_pieces.push(Seq::empty()).drop_last() =~= old_pieces);
        assert(Seq::<char>::empty() + line =~= line);
        assert(old_pieces.push(line) =~= pieces);
    }
}

proof fn lemma_read_written(events: Seq<EventView>, lines: Seq<Seq<char>>)
    requires
        forall|i: int| 0 <= i < events.len() ==> writable(#[trigger] events[i]),
        lines == events.map_values(|e: EventView| event_line(e)),
    ensures
        read_lines(lines) == (Reading { events, skipped: 0 }),
    decreases events.len(),
{
    if events.len() == 0 {
        assert(events =~= Seq::<EventView>::empty());
    } else {
        let front = events.drop_last();
        assert forall|i: int| 0 <= i < front.len() implies writable(#[trigger] front[i]) by {
            assert(front[i] == events[i]);
        }
        assert(lines.drop_last() =~= front.map_values(|e: EventView| event_line(e)));
        lemma_read_written(front, lines.drop_last());
        lemma_line_plain(events.last());
        law_event_reads_back(events.last());
        assert(front.push(events.last()) =~= events);
    }
}

/// Uses that were written down are read back as they were, and no line is
/// passed over.
pub proof fn law_store_reads_back(events: Seq<EventView>)
    requires
        forall|i: int| 0 <= i < events.len() ==> writable(#[trigger] events[i]),
    ensures
        read_lines(text::lines_of(written(events))) == (Reading { events, skipped: 0 }),
{
    lemma_written_pieces(events);
    let lines = events.map_values(|e: EventView| event_line(e));
    let pieces = text::split_of(written(events), '\n');
    assert(pieces.drop_last() =~= lines);
    assert(pieces.last().len() == 0);
    let ended = lines.map_values(|piece: Seq<char>| text::without_return(piece));
    assert forall|i: int| 0 <= i < lines.len() implies ended[i] == lines[i] by {
        lemma_line_plain(events[i]);
    }
    assert(ended =~= lines);
    lemma_read_written(events, lines);
}

proof fn lemma_handed_over_drop(events: Seq<EventView>, old_id: Seq<char>, new_id: Seq<char>)
    requires
        events.len() > 0,
    ensures
        handed_over(events, old_id, new_id).drop_last() == handed_over(
            events.drop_last(),
            old_id,
            new_id,
        ),
        handed_over(events, old_id, new_id).last() == (if events.last().id == old_id {
            EventView { id: new_id, ..events.last() }
        } else {
            events.last()
        }),
{
    assert(handed_over(events, old_id, new_id).drop_last() =~= handed_over(
        events.drop_last(),
        old_id,
        new_id,
    ));
}

/// Handing uses over loses none: the other snippet has them besides its own,
/// and the first has none left.
pub proof fn law_reattaching_keeps_every_use(
    events: Seq<EventView>,
    old_id: Seq<char>,
    new_id: Seq<char>,
)
    requires
        old_id != new_id,
    ensures
        handed_over(events, old_id, new_id).len() == events.len(),
        uses_of(handed_over(events, old_id, new_id), old_id) == 0,
        uses_of(handed_over(events, old_id, new_id), new_id) == uses_of(events, new_id) + uses_of(
            events,
            old_id,
        ),
    decreases events.len(),
{
    if events.len() > 0 {
        lemma_handed_over_drop(events, old_id, new_id);
        law_reattaching_keeps_every_use(events.drop_last(), old_id, new_id);
    }
}

/// After a purge the snippets have no uses, and every other one has its own.
pub proof fn law_purging_takes_only_those(events: Seq<EventView>, ids: Seq<Seq<char>>, id: Seq<char>)
    ensures
        uses_of(others(events, ids), id) == (if ids.contains(id) {
            0
        } else {
            uses_of(events, id)
        }),
    decreases events.len(),
{
    if events.len() > 0 {
        law_purging_takes_only_those(events.drop_last(), ids, id);
        let rest = others(events.drop_last(), ids);
        assert(rest.push(events.last()).drop_last() =~= rest);
    }
}

/// Two directories go together all the way if and only if their names are the
/// same, and the order of the two makes no difference.
pub proof fn law_affinity(a: Seq<char>, b: Seq<char>)
    requires
        path::names_of(a).len() <= usize::MAX,
        path::names_of(b).len() <= usize::MAX,
    ensures
        affinity_of(a, b) == affinity_of(b, a),
        affinity_of(a, b).shared == affinity_of(a, b).out_of <==> path::names_of(a)
            == path::names_of(b),
{
    let x = path::names_of(a);
    let y = path::names_of(b);
    lemma_common_names(x, y);
    lemma_common_names(y, x);
}

proof fn lemma_common_names(x: Seq<Seq<char>>, y: Seq<Seq<char>>)
    ensures
        common_names(x, y) == common_names(y, x),
        common_names(x, y) <= x.len(),
        common_names(x, y) <= y.len(),
        common_names(x, y) == x.len() && x.len() == y.len() <==> x == y,
    decreases x.len(),
{
    if x.len() > 0 && y.len() > 0 && x[0] == y[0] {
        lemma_common_names(x.skip(1), y.skip(1));
        if common_names(x, y) == x.len() && x.len() == y.len() {
            assert(x.skip(1) == y.skip(1));
            assert forall|k: int| 0 <= k < x.len() implies x[k] == y[k] by {
                if k > 0 {
                    assert(x[k] == x.skip(1)[k - 1]);
                    assert(y[k] == y.skip(1)[k - 1]);
                }
            }
            assert(x =~= y);
        }
    } else if x.len() == 0 && y.len() == 0 {
        assert(x =~= y);
    }
}

/// Lines are read one by one: each counts for itself, wherever it stands. A blank
/// line counts for nothing, and one that writes no use down is counted as skipped.
pub proof fn law_lines_count_for_themselves(a: Seq<Seq<char>>, b: Seq<Seq<char>>, line: Seq<char>)
    ensures
        read_lines(a + b).events == read_lines(a).events + read_lines(b).events,
        read_lines(a + b).skipped == read_lines(a).skipped + read_lines(b).skipped,
        text::trim_of(line).len() == 0 ==> read_lines(seq![line]) == read_lines(Seq::empty()),
        text::trim_of(line).len() > 0 && event_of(line) is None ==> read_lines(seq![line]).skipped
            == 1 && read_lines(seq![line]).events.len() == 0,
        text::trim_of(line).len() > 0 && event_of(line) is Some ==> read_lines(seq![line]).skipped
            == 0 && read_lines(seq![line]).events == seq![event_of(line)->0],
    decreases b.len(),
{
    reveal_with_fuel(read_lines, 2);
    assert(seq![line].drop_last() =~= Seq::<Seq<char>>::empty());
    assert(Seq::<EventView>::empty().push(event_of(line)->0) =~= seq![event_of(line)->0]);
    if b.len() > 0 {
        law_lines_count_for_themselves(a, b.drop_last(), line);
        assert((a + b).drop_last() =~= a + b.drop_last());
        assert(read_lines(a + b).events =~= read_lines(a).events + read_lines(b).events);
    } else {
        assert(a + b =~= a);
        assert(read_lines(a).events + read_lines(b).events =~= read_lines(a).events);
    }
}

/// A line that writes a use down has a number, an id with a `#` and a directory,
/// with tabs between them.
pub proof fn law_malformed_lines_are_refused(line: Seq<char>)
    requires
        event_of(line) is Some,
    ensures
        ({
            let e = event_of(line)->0;
            exists|time: Seq<char>|
                line == #[trigger] (time + seq!['\t'] + e.id + seq!['\t'] + e.cwd)
                    && text::number_of(time) == Some(e.timestamp as nat)
        }),
        event_of(line)->0.id.contains('#'),
        !event_of(line)->0.id.contains('\t'),
{
    let tab = seq!['\t'];
    text::lemma_find_from(line, tab, 0);
    let first = text::find_from(line, tab, 0)->0;
    text::lemma_find_from(line, tab, first + 1);
    let second = text::find_from(line, tab, first + 1)->0;
    let e = event_of(line)->0;
    let time = line.take(first);
    assert(line[first] == line.subrange(first, first + 1)[0]);
    assert(line[second] == line.subrange(second, second + 1)[0]);
    assert(line =~= time + tab + e.id + tab + e.cwd);
    if e.id.contains('\t') {
        let k = e.id.index_of('\t');
        assert(line.subrange(first + 1 + k, first + 2 + k) =~= tab);
        assert(text::stands_at(line, tab, first + 1 + k));
    }
}

/// The uses of a snippet are those with its id, and the uses of the others those
/// with other ids, in order.
pub proof fn law_uses_go_by_id(events: Seq<EventView>, id: Seq<char>, ids: Seq<Seq<char>>)
    ensures
        uses_of(events, id) == events.filter(|e: EventView| e.id == id).len(),
        others(events, ids) == events.filter(|e: EventView| !ids.contains(e.id)),
    decreases events.len(),
{
    reveal(Seq::filter);
    if events.len() > 0 {
        law_uses_go_by_id(events.drop_last(), id, ids);
    } else {
        assert(others(events, ids) =~= events.filter(|e: EventView| !ids.contains(e.id)));
    }
}

/// Handing uses over changes the id of those that had the old one, and nothing else
/// of any use.
pub proof fn law_handing_over_keeps_the_rest(
    events: Seq<EventView>,
    old_id: Seq<char>,
    new_id: Seq<char>,
    i: int,
)
    requires
        0 <= i < events.len(),
    ensures
        ({
            let after = handed_over(events, old_id, new_id)[i];
            &&& after.cwd == events[i].cwd
            &&& after.timestamp == events[i].timestamp
            &&& events[i].id == old_id ==> after.id == new_id
            &&& events[i].id != old_id ==> after.id == events[i].id
        }),
{
}

/// The uses of a snippet are seen in order: each as long ago as its time lies back,
/// and as near as its directory is.
pub proof fn law_uses_are_seen(events: Seq<EventView>, id: Seq<char>, cwd: Seq<char>, now: u64)
    ensures
        ({
            let own = events.filter(|e: EventView| e.id == id);
            let seen = uses_seen(events, id, cwd, now);
            &&& seen.len() == own.len()
            &&& forall|i: int|
                0 <= i < own.len() ==> {
                    &&& (#[trigger] seen[i]).age == (if own[i].timestamp <= now {
                        now - own[i].timestamp
                    } else {
                        0
                    })
                    &&& seen[i].affinity == affinity_of(own[i].cwd, cwd)
                }
        }),
    decreases events.len(),
{
    reveal(Seq::filter);
    if events.len() > 0 {
        let front = events.drop_last();
        law_uses_are_seen(front, id, cwd, now);
        let own = events.filter(|e: EventView| e.id == id);
        let before = front.filter(|e: EventView| e.id == id);
        let seen = uses_seen(events, id, cwd, now);
        assert forall|i: int| 0 <= i < own.len() implies {
            &&& (#[trigger] seen[i]).age == (if own[i].timestamp <= now {
                now - own[i].timestamp
            } else {
                0
            })
            &&& seen[i].affinity == affinity_of(own[i].cwd, cwd)
        } by {
            if i < before.len() {
                assert(own[i] == before[i]);
                assert(seen[i] == uses_seen(front, id, cwd, now)[i]);
            }
        }
    }
}

proof fn lemma_shared_names(x: Seq<Seq<char>>, y: Seq<Seq<char>>)
    ensures
        ({
            let k = common_names(x, y) as int;
            &&& k <= x.len()
            &&& k <= y.len()
            &&& x.take(k) == y.take(k)
            &&& k < x.len() && k < y.len() ==> x[k] != y[k]
        }),
    decreases x.len(),
{
    let k = common_names(x, y) as int;
    if x.len() > 0 && y.len() > 0 && x[0] == y[0] {
        let a = x.skip(1);
        let b = y.skip(1);
        lemma_shared_names(a, b);
        assert forall|i: int| 0 <= i < k implies x[i] == y[i] by {
            if i > 0 {
                assert(a.take(k - 1)[i - 1] == b.take(k - 1)[i - 1]);
            }
        }
    }
    assert(x.take(k) =~= y.take(k));
}

/// How near two directories are is how many names they start with in common, out
/// of the names of the longer one.
pub proof fn law_nearness(a: Seq<char>, b: Seq<char>)
    requires
        path::names_of(a).len() <= usize::MAX,
        path::names_of(b).len() <= usize::MAX,
        path::names_of(a).len() > 0 || path::names_of(b).len() > 0,
    ensures
        ({
            let x = path::names_of(a);
            let y = path::names_of(b);
            let k = affinity_of(a, b).shared as int;
            let n = affinity_of(a, b).out_of as int;
            &&& k <= x.len() && k <= y.len()
            &&& x.take(k) == y.take(k)
            &&& k < x.len() && k < y.len() ==> x[k] != y[k]
            &&& n >= x.len() && n >= y.len()
            &&& n == x.len() || n == y.len()
        }),
{
    lemma_shared_names(path::names_of(a), path::names_of(b));
}

} // verus!
