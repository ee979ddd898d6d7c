//! Ordered maps and sets keyed by text.
//!
//! Both keep their keys in the order of [`text::text_less`], so walking one visits
//! the keys alphabetically.

use vstd::prelude::*;
use crate::text;

verus! {

/// Each key comes before all keys behind it, so none occurs twice.
pub open spec fn strictly_sorted(keys: Seq<Seq<char>>) -> bool {
    forall|i: int, j: int| 0 <= i < j < keys.len() ==> text::text_less(#[trigger] keys[i], #[trigger] keys[j])
}

/// In a sorted list no key occurs twice.
pub proof fn lemma_sorted_distinct(keys: Seq<Seq<char>>)
    requires
        strictly_sorted(keys),
    ensures
        keys.no_duplicates(),
{
    assert forall|i: int, j: int| 0 <= i < keys.len() && 0 <= j < keys.len() && i != j implies keys[i]
        != keys[j] by {
        text::lemma_text_less_total(keys[i], keys[j]);
        if i < j {
            assert(text::text_less(keys[i], keys[j]));
        } else {
            assert(text::text_less(keys[j], keys[i]));
        }
    }
}

/// Putting a key between those before and those behind it keeps a list sorted.
pub proof fn lemma_sorted_insert(keys: Seq<Seq<char>>, at: int, key: Seq<char>)
    requires
        strictly_sorted(keys),
        0 <= at <= keys.len(),
        forall|i: int| 0 <= i < at ==> text::text_less(#[trigger] keys[i], key),
        at < keys.len() ==> text::text_less(key, keys[at]),
    ensures
        strictly_sorted(keys.insert(at, key)),
{
    let new = keys.insert(at, key);
    assert forall|i: int, j: int| 0 <= i < j < new.len() implies text::text_less(
        #[trigger] new[i],
        #[trigger] new[j],
    ) by {
        if j < at {
            assert(new[i] == keys[i] && new[j] == keys[j]);
        } else if j == at {
            assert(new[i] == keys[i]);
        } else if i == at {
            assert(new[j] == keys[j - 1]);
            if j - 1 > at {
                assert(text::text_less(keys[at], keys[j - 1]));
                text::lemma_text_less_transitive(key, keys[at], keys[j - 1]);
            }
        } else {
            assert(new[j] == keys[j - 1]);
            if i < at {
                assert(new[i] == keys[i]);
            } else {
                assert(new[i] == keys[i - 1]);
            }
        }
    }
}

/// Where a key stands, or belongs, in a sorted list.
pub open spec fn is_place(keys: Seq<Seq<char>>, key: Seq<char>, at: int) -> bool {
    &&& 0 <= at <= keys.len()
    &&& forall|i: int| 0 <= i < at ==> text::text_less(#[trigger] keys[i], key)
    &&& forall|i: int| at <= i < keys.len() ==> !text::text_less(#[trigger] keys[i], key)
}

/// The keys of a list of entries.
pub open spec fn entry_keys<V>(entries: Seq<(String, V)>) -> Seq<Seq<char>> {
    entries.map_values(|e: (String, V)| e.0@)
}

/// A map from texts to values, ordered by key.
pub struct TextMap<V> {
    entries: Vec<(String, V)>,
}

impl<V> View for TextMap<V> {
    type V = Map<Seq<char>, V>;

    closed spec fn view(&self) -> Map<Seq<char>, V> {
        Map::new(
            |k: Seq<char>| self.keys().contains(k),
            |k: Seq<char>| self.entries@[self.keys().index_of(k)].1,
        )
    }
}

impl<V> TextMap<V> {
    #[verifier::type_invariant]
    closed spec fn sorted(&self) -> bool {
        strictly_sorted(entry_keys(self.entries@))
    }

    /// The keys in the order in which they are kept.
    pub closed spec fn keys(&self) -> Seq<Seq<char>> {
        entry_keys(self.entries@)
    }

    /// The map without entries.
    pub fn new() -> (map: Self)
        ensures
            map@ == Map::<Seq<char>, V>::empty(),
            map.keys() == Seq::<Seq<char>>::empty(),
    {
        let map = TextMap { entries: Vec::new() };
        assert(map.keys() =~= Seq::<Seq<char>>::empty());
        assert(map@ =~= Map::<Seq<char>, V>::empty());
        map
    }

    /// How many entries the map has.
    pub fn len(&self) -> (n: usize)
        ensures
            n == self.keys().len(),
            strictly_sorted(self.keys()),
            forall|k: Seq<char>| self@.contains_key(k) == self.keys().contains(k),
    {
        proof {
            use_type_invariant(self);
        }
        self.entries.len()
    }

    /// The key at place `i`.
    pub fn key_at(&self, i: usize) -> (key: &String)
        requires
            i < self.keys().len(),
        ensures
            key@ == self.keys()[i as int],
            self@.contains_key(key@),
    {
        assert(self.keys().contains(self.keys()[i as int]));
        &self.entries[i].0
    }

    /// The value at place `i`.
    pub fn value_at(&self, i: usize) -> (value: &V)
        requires
            i < self.keys().len(),
        ensures
            *value == self@[self.keys()[i as int]],
    {
        proof {
            use_type_invariant(self);
            lemma_sorted_distinct(self.keys());
            assert(self.keys().contains(self.keys()[i as int]));
            assert(self.keys().index_of(self.keys()[i as int]) == i);
        }
        &self.entries[i].1
    }

    /// The place where `key` stands or belongs.
    fn place(&self, key: &str) -> (at: usize)
        ensures
            is_place(self.keys(), key@, at as int),
    {
        proof {
            use_type_invariant(self);
        }
        let mut at: usize = 0;
        while at < self.entries.len() && text::less_text(self.entries[at].0.as_str(), key)
            invariant
                at <= self.entries@.len(),
                self.keys().len() == self.entries@.len(),
                strictly_sorted(self.keys()),
                forall|i: int| 0 <= i < at ==> text::text_less(#[trigger] self.keys()[i], key@),
            decreases self.entries@.len() - at,
        {
            at = at + 1;
        }
        assert forall|i: int| at <= i < self.keys().len() implies !text::text_less(
            #[trigger] self.keys()[i],
            key@,
        ) by {
            if text::text_less(self.keys()[i], key@) && i > at {
                assert(text::text_less(self.keys()[at as int], self.keys()[i]));
                text::lemma_text_less_transitive(self.keys()[at as int], self.keys()[i], key@);
            }
        }
        at
    }

    /// The value kept under `key`.
    pub fn get(&self, key: &str) -> (value: Option<&V>)
        ensures
            match value {
                Some(v) => self@.contains_key(key@) && *v == self@[key@],
                None => !self@.contains_key(key@),
            },
    {
        proof {
            use_type_invariant(self);
            lemma_sorted_distinct(self.keys());
        }
        let at = self.place(key);
        if at < self.entries.len() && text::same_text(self.entries[at].0.as_str(), key) {
            assert(self.keys()[at as int] == key@);
            assert(self.keys().contains(key@));
            assert(self.keys().index_of(key@) == at);
            Some(&self.entries[at].1)
        } else {
            proof {
                if self.keys().contains(key@) {
                    let i = self.keys().index_of(key@);
                    text::lemma_text_less_total(key@, key@);
                    assert(!(i < at));
                    if i > at {
                        assert(text::text_less(self.keys()[at as int], self.keys()[i]));
                    }
                }
            }
            None
        }
    }

    /// Whether something is kept under `key`.
    pub fn contains_key(&self, key: &str) -> (yes: bool)
        ensures
            yes == self@.contains_key(key@),
    {
        self.get(key).is_some()
    }

    /// Keeps `value` under `key`, in place of what was there.
    pub fn insert(&mut self, key: String, value: V)
        ensures
            final(self)@ == old(self)@.insert(key@, value),
    {
        proof {
            use_type_invariant(&*self);
            lemma_sorted_distinct(self.keys());
        }
        let at = self.place(key.as_str());
        let ghost before = *self;
        let ghost keys = self.keys();
        let mut entries: Vec<(String, V)> = Vec::new();
        std::mem::swap(&mut entries, &mut self.entries);
        if at < entries.len() && text::same_text(entries[at].0.as_str(), key.as_str()) {
            let _ = entries.remove(at);
            entries.insert(at, (key, value));
            assert(entry_keys(entries@) =~= keys);
            self.entries = entries;
            proof {
                assert(self.keys() == keys);
                assert(keys[at as int] == key@);
                assert(keys.contains(key@));
                assert(keys.index_of(key@) == at);
                assert forall|k: Seq<char>| keys.contains(k) && k != key@ implies keys.index_of(k)
                    != at by {}
                assert(self@ =~= before@.insert(key@, value));
            }
        } else {
            proof {
                text::lemma_text_less_total(key@, key@);
                if at < keys.len() {
                    text::lemma_text_less_total(key@, keys[at as int]);
                }
                lemma_sorted_insert(keys, at as int, key@);
            }
            entries.insert(at, (key, value));
            assert(entry_keys(entries@) =~= keys.insert(at as int, key@));
            self.entries = entries;
            proof {
                let new = self.keys();
                lemma_sorted_distinct(new);
                assert(new[at as int] == key@);
                assert forall|k: Seq<char>| #![auto] new.contains(k) == (keys.contains(k) || k == key@) by {
                    if keys.contains(k) {
                        let i = keys.index_of(k);
                        if i < at {
                            assert(new[i] == k);
                        } else {
                            assert(new[i + 1] == k);
                        }
                    }
                    if new.contains(k) {
                        let i = new.index_of(k);
                        if i < at {
                            assert(keys[i] == k);
                        } else if i > at {
                            assert(keys[i - 1] == k);
                        }
                    }
                }
                assert forall|k: Seq<char>| keys.contains(k) && k != key@ implies self@[k]
                    == before@[k] by {
                    let i = keys.index_of(k);
                    if i < at {
                        assert(new[i] == k);
                        assert(new.index_of(k) == i);
                    } else {
                        assert(new[i + 1] == k);
                        assert(new.index_of(k) == i + 1);
                    }
                }
                assert(new.index_of(key@) == at);
                assert(self@ =~= before@.insert(key@, value));
            }
        }
    }
}

impl TextMap<String> {
    /// The texts that are kept, by their keys.
    pub open spec fn texts(&self) -> Map<Seq<char>, Seq<char>> {
        self@.map_values(|s: String| s@)
    }

    /// A copy.
    pub fn copy(&self) -> (out: TextMap<String>)
        ensures
            out@ == self@,
    {
        self.without(&TextSet::new())
    }

    /// A copy without what is kept under the keys in `dropped`.
    pub fn without(&self, dropped: &TextSet) -> (out: TextMap<String>)
        ensures
            out@ == self@.remove_keys(dropped@),
    {
        proof {
            use_type_invariant(self);
            lemma_sorted_distinct(self.keys());
        }
        let ghost keys = self.keys();
        let mut out: TextMap<String> = TextMap::new();
        let mut i: usize = 0;
        while i < self.len()
            invariant
                i <= keys.len(),
                keys == self.keys(),
                keys.no_duplicates(),
                forall|k: Seq<char>| #[trigger]
                    out@.contains_key(k) <==> keys.take(i as int).contains(k) && !dropped@.contains(k),
                forall|k: Seq<char>| #[trigger] out@.contains_key(k) ==> out@[k] == self@[k],
            decreases keys.len() - i,
        {
            let ghost before = out@;
            assert(keys.take(i + 1) =~= keys.take(i as int).push(keys[i as int]));
            assert(keys.take(i + 1)[i as int] == keys[i as int]);
            assert forall|k: Seq<char>| keys.take(i + 1).contains(k) == (keys.take(
                i as int,
            ).contains(k) || k == keys[i as int]) by {
                if keys.take(i as int).contains(k) {
                    let j = keys.take(i as int).index_of(k);
                    assert(keys.take(i + 1)[j] == k);
                }
                if keys.take(i + 1).contains(k) {
                    let j = keys.take(i + 1).index_of(k);
                    if j < i {
                        assert(keys.take(i as int)[j] == k);
                    }
                }
            }
            let key = self.key_at(i);
            if !dropped.contains(key.as_str()) {
                out.insert(key.clone(), self.value_at(i).clone());
            }
            i = i + 1;
        }
        proof {
            assert(keys.take(keys.len() as int) =~= keys);
            assert forall|k: Seq<char>| self@.contains_key(k) == keys.contains(k) by {}
            assert(out@ =~= self@.remove_keys(dropped@));
        }
        out
    }
}

/// A set of texts, ordered.
pub struct TextSet {
    items: Vec<String>,
}

impl View for TextSet {
    type V = Set<Seq<char>>;

    closed spec fn view(&self) -> Set<Seq<char>> {
        self.order().to_set()
    }
}

impl TextSet {
    #[verifier::type_invariant]
    closed spec fn sorted(&self) -> bool {
        strictly_sorted(text::texts(self.items@))
    }

    /// The members in the order in which they are kept.
    pub closed spec fn order(&self) -> Seq<Seq<char>> {
        text::texts(self.items@)
    }

    /// The set without members.
    pub fn new() -> (set: Self)
        ensures
            set@ == Set::<Seq<char>>::empty(),
    {
        let set = TextSet { items: Vec::new() };
        assert(set.order() =~= Seq::<Seq<char>>::empty());
        assert(set@ =~= Set::<Seq<char>>::empty());
        set
    }

    /// A copy.
    pub fn copy(&self) -> (out: TextSet)
        ensures
            out@ == self@,
    {
        proof {
            use_type_invariant(self);
        }
        TextSet { items: text::copy_texts(&self.items) }
    }

    /// The members in alphabetical order, each once.
    pub fn members(&self) -> (items: &Vec<String>)
        ensures
            text::texts(items@) == self.order(),
            strictly_sorted(text::texts(items@)),
            text::texts(items@).to_set() == self@,
    {
        proof {
            use_type_invariant(self);
        }
        &self.items
    }

    /// How many members the set has.
    pub fn len(&self) -> (n: usize)
        ensures
            n == self.order().len(),
            n == self@.len(),
    {
        proof {
            use_type_invariant(self);
            lemma_sorted_distinct(self.order());
            self.order().unique_seq_to_set();
        }
        self.items.len()
    }

    /// Whether `item` is a member.
    pub fn contains(&self, item: &str) -> (yes: bool)
        ensures
            yes == self@.contains(item@),
    {
        text::has_text(&self.items, item)
    }

    /// Takes `item` out.
    pub fn remove(&mut self, item: &str)
        ensures
            final(self)@ == old(self)@.remove(item@),
    {
        let ghost before = self@;
        let ghost keys = self.order();
        let mut out = TextSet::new();
        let mut i: usize = 0;
        while i < self.items.len()
            invariant
                i <= keys.len(),
                keys == self.order(),
                keys == text::texts(self.items@),
                forall|k: Seq<char>| #[trigger]
                    out@.contains(k) <==> keys.take(i as int).contains(k) && k != item@,
            decreases keys.len() - i,
        {
            assert(keys[i as int] == self.items@[i as int]@);
            assert forall|k: Seq<char>| keys.take(i + 1).contains(k) == (keys.take(
                i as int,
            ).contains(k) || k == keys[i as int]) by {
                assert(keys.take(i + 1)[i as int] == keys[i as int]);
                if keys.take(i as int).contains(k) {
                    let j = keys.take(i as int).index_of(k);
                    assert(keys.take(i + 1)[j] == k);
                }
                if keys.take(i + 1).contains(k) {
                    let j = keys.take(i + 1).index_of(k);
                    if j < i {
                        assert(keys.take(i as int)[j] == k);
                    }
                }
            }
            let ghost was = out@;
            if !text::same_text(self.items[i].as_str(), item) {
                out.insert(self.items[i].clone());
            }
            assert forall|k: Seq<char>| #[trigger]
                out@.contains(k) <==> keys.take(i + 1).contains(k) && k != item@ by {
                assert(was.contains(k) == (keys.take(i as int).contains(k) && k != item@));
            }
            i = i + 1;
        }
        assert(keys.take(keys.len() as int) =~= keys);
        assert(out@ =~= before.remove(item@));
        *self = out;
    }

    /// Adds `item`.
    pub fn insert(&mut self, item: String)
        ensures
            final(self)@ == old(self)@.insert(item@),
    {
        proof {
            use_type_invariant(&*self);
        }
        let ghost before = *self;
        let ghost keys = self.order();
        if self.contains(item.as_str()) {
            assert(self@ =~= before@.insert(item@));
            return ;
        }
        let mut items: Vec<String> = Vec::new();
        std::mem::swap(&mut items, &mut self.items);
        let mut at: usize = 0;
        while at < items.len() && text::less_text(items[at].as_str(), item.as_str())
            invariant
                at <= items@.len(),
                text::texts(items@) == keys,
                strictly_sorted(keys),
                forall|i: int| 0 <= i < at ==> text::text_less(#[trigger] keys[i], item@),
            decreases items@.len() - at,
        {
            at = at + 1;
        }
        proof {
            if at < keys.len() {
                assert(keys.contains(keys[at as int]));
                text::lemma_text_less_total(item@, keys[at as int]);
            }
            lemma_sorted_insert(keys, at as int, item@);
        }
        items.insert(at, item);
        assert(text::texts(items@) =~= keys.insert(at as int, item@));
        self.items = items;
        proof {
            let new = self.order();
            assert forall|k: Seq<char>| #![auto] new.contains(k) == (keys.contains(k) || k == item@) by {
                if keys.contains(k) {
                    let i = keys.index_of(k);
                    if i < at {
                        assert(new[i] == k);
                    } else {
                        assert(new[i + 1] == k);
                    }
                }
                assert(new[at as int] == item@);
                if new.contains(k) {
                    let i = new.index_of(k);
                    if i < at {
                        assert(keys[i] == k);
                    } else if i > at {
                        assert(keys[i - 1] == k);
                    }
                }
            }
            assert(self@ =~= before@.insert(item@));
        }
    }
}

} // verus!
