//! The option schema: a tree of named options, and the lookup that turns a
//! path and a typed prefix into completion candidates.

use crate::chars::{chars_start_with, starts_with, to_chars};
use vstd::prelude::*;
use vstd::string::*;

verus! {

/// A node of the option schema. A mapping holds its children under their
/// key names. A leaf is either a piece of text or any other value.
#[derive(Debug, PartialEq, Eq)]
pub enum OptionSchema {
    Object(Entries),
    Text(String),
    Other,
}

/// The entries of a mapping, in the order in which the schema lists them.
/// No key occurs twice.
#[derive(Debug, PartialEq, Eq)]
pub struct Entries {
    items: Vec<(String, OptionSchema)>,
}

/// A node of the option schema as contracts speak of it.
pub enum SchemaView {
    Object(Seq<(Seq<char>, SchemaView)>),
    Text(Seq<char>),
    Other,
}

/// A completion candidate as the schema yields it: a key name and its
/// description, if it has one.
pub type Candidate = (Seq<char>, Option<Seq<char>>);

/// No key occurs twice in `entries`.
pub open spec fn distinct_keys(entries: Seq<(Seq<char>, SchemaView)>) -> bool {
    forall|i: int, j: int|
        0 <= i < j < entries.len() ==> (#[trigger] entries[i]).0 != (#[trigger] entries[j]).0
}

/// Where `key` stands in `entries`, if it does.
pub open spec fn place_of(entries: Seq<(Seq<char>, SchemaView)>, key: Seq<char>) -> Option<int>
    decreases entries.len(),
{
    if entries.len() == 0 {
        None
    } else if entries.last().0 == key {
        Some(entries.len() - 1)
    } else {
        place_of(entries.drop_last(), key)
    }
}

/// `entries` after `child` has been put under `key`: in the place of the
/// child that stood under `key`, or else behind all entries.
pub open spec fn put(
    entries: Seq<(Seq<char>, SchemaView)>,
    key: Seq<char>,
    child: SchemaView,
) -> Seq<(Seq<char>, SchemaView)> {
    match place_of(entries, key) {
        Some(place) => entries.update(place, (key, child)),
        None => entries.push((key, child)),
    }
}

/// The child that `entries` holds under `key`: the first one, should the key
/// occur more than once.
pub open spec fn lookup(entries: Seq<(Seq<char>, SchemaView)>, key: Seq<char>) -> Option<
    SchemaView,
>
    decreases entries.len(),
{
    if entries.len() == 0 {
        None
    } else if entries[0].0 == key {
        Some(entries[0].1)
    } else {
        lookup(entries.drop_first(), key)
    }
}

/// The candidates among `entries`: every entry whose key starts with
/// `partial`, in the order of `entries`, with the description of its child.
pub open spec fn candidates(entries: Seq<(Seq<char>, SchemaView)>, partial: Seq<char>) -> Seq<
    Candidate,
>
    decreases entries.len(),
{
    if entries.len() == 0 {
        Seq::empty()
    } else {
        let rest = candidates(entries.drop_last(), partial);
        let entry = entries.last();
        if starts_with(entry.0, partial) {
            rest.push((entry.0, entry.1.description()))
        } else {
            rest
        }
    }
}

/// The keys of `entries`, in their order.
pub open spec fn keys(entries: Seq<(Seq<char>, SchemaView)>) -> Seq<Seq<char>> {
    entries.map_values(|entry: (Seq<char>, SchemaView)| entry.0)
}

/// The key names of `found`, in their order.
pub open spec fn labels(found: Seq<Candidate>) -> Seq<Seq<char>> {
    found.map_values(|candidate: Candidate| candidate.0)
}

impl SchemaView {
    /// The entries of a mapping; a leaf has none.
    pub open spec fn entries(self) -> Seq<(Seq<char>, SchemaView)> {
        match self {
            SchemaView::Object(entries) => entries,
            _ => Seq::empty(),
        }
    }

    /// The child of this node under `key`, if it is a mapping that has one.
    pub open spec fn child(self, key: Seq<char>) -> Option<SchemaView> {
        lookup(self.entries(), key)
    }

    /// The node reached from this one by following `path` key by key, if
    /// every key is there.
    pub open spec fn descend(self, path: Seq<Seq<char>>) -> Option<SchemaView>
        decreases path.len(),
    {
        if path.len() == 0 {
            Some(self)
        } else {
            match self.child(path[0]) {
                Some(next) => next.descend(path.drop_first()),
                None => None,
            }
        }
    }

    /// The description of this node: the text that it holds under the key
    /// `description`, if it is a mapping and holds text there.
    pub open spec fn description(self) -> Option<Seq<char>> {
        match self.child("description"@) {
            Some(SchemaView::Text(text)) => Some(text),
            _ => None,
        }
    }

    /// What a query for `path` and `partial` yields: the candidates among
    /// the entries of the node at `path`, and nothing where `path` leads
    /// nowhere or to a leaf.
    pub open spec fn search(self, path: Seq<Seq<char>>, partial: Seq<char>) -> Seq<Candidate> {
        match self.descend(path) {
            Some(node) => candidates(node.entries(), partial),
            None => Seq::empty(),
        }
    }
}

/// With the empty word every entry is a candidate.
pub proof fn lemma_empty_word_keeps_every_entry(entries: Seq<(Seq<char>, SchemaView)>)
    ensures
        labels(candidates(entries, Seq::empty())) == keys(entries),
    decreases entries.len(),
{
    let empty = Seq::<char>::empty();
    if entries.len() == 0 {
        assert(labels(candidates(entries, empty)) == keys(entries));
    } else {
        let rest = entries.drop_last();
        lemma_empty_word_keeps_every_entry(rest);
        let key = entries.last().0;
        assert(key.take(0) == empty);
        assert(labels(candidates(rest, empty)).push(key) == keys(entries));
        assert(labels(candidates(entries, empty)) == labels(candidates(rest, empty)).push(key));
    }
}

/// A query with the empty path and the empty word returns every top-level
/// key of the schema, in the schema's order.
pub proof fn lemma_empty_query_returns_every_key(schema: SchemaView)
    ensures
        labels(schema.search(Seq::empty(), Seq::empty())) == keys(schema.entries()),
{
    lemma_empty_word_keeps_every_entry(schema.entries());
}

/// Following a path is following its first `i` keys and then the others.
pub proof fn lemma_descend_in_two_steps(schema: SchemaView, path: Seq<Seq<char>>, i: int)
    requires
        0 <= i <= path.len(),
    ensures
        schema.descend(path) == match schema.descend(path.take(i)) {
            Some(node) => node.descend(path.skip(i)),
            None => None,
        },
    decreases i,
{
    if i == 0 {
        assert(path.take(0) == Seq::<Seq<char>>::empty());
        assert(path.skip(0) == path);
    } else {
        assert(path.take(i)[0] == path[0]);
        assert(path.take(i).drop_first() == path.drop_first().take(i - 1));
        assert(path.skip(i) == path.drop_first().skip(i - 1));
        match schema.child(path[0]) {
            Some(next) => {
                lemma_descend_in_two_steps(next, path.drop_first(), i - 1);
            },
            None => {},
        }
    }
}

/// A query whose path holds an unknown segment returns nothing: where the
/// first `i` keys of the path lead to a node that has no child under the
/// next key, or lead nowhere, the answer is empty for every word.
pub proof fn lemma_unknown_segment_returns_nothing(
    schema: SchemaView,
    path: Seq<Seq<char>>,
    partial: Seq<char>,
    i: int,
)
    requires
        0 <= i < path.len(),
        match schema.descend(path.take(i)) {
            Some(node) => node.child(path[i]) is None,
            None => true,
        },
    ensures
        schema.descend(path) is None,
        schema.search(path, partial) == Seq::<Candidate>::empty(),
{
    lemma_descend_in_two_steps(schema, path, i);
    assert(path.skip(i)[0] == path[i]);
}

/// The place of a key is one that holds the key; there is none exactly
/// where no entry holds it.
pub proof fn lemma_place_of(entries: Seq<(Seq<char>, SchemaView)>, key: Seq<char>)
    ensures
        match place_of(entries, key) {
            Some(place) => 0 <= place < entries.len() && entries[place].0 == key,
            None => forall|i: int| 0 <= i < entries.len() ==> (#[trigger] entries[i]).0 != key,
        },
    decreases entries.len(),
{
    if entries.len() > 0 && entries.last().0 != key {
        let rest = entries.drop_last();
        lemma_place_of(rest, key);
        if place_of(rest, key) is None {
            assert forall|i: int| 0 <= i < entries.len() implies (#[trigger] entries[i]).0
                != key by {
                if i < rest.len() {
                    assert(rest[i].0 != key);
                }
            }
        }
    }
}

/// Putting a child under a key keeps the keys distinct.
pub proof fn lemma_put_keeps_keys_distinct(
    entries: Seq<(Seq<char>, SchemaView)>,
    key: Seq<char>,
    child: SchemaView,
)
    requires
        distinct_keys(entries),
    ensures
        distinct_keys(put(entries, key, child)),
{
    lemma_place_of(entries, key);
    let after = put(entries, key, child);
    assert forall|i: int, j: int| 0 <= i < j < after.len() implies (#[trigger] after[i]).0 != (
    #[trigger] after[j]).0 by {
        match place_of(entries, key) {
            Some(place) => {
                assert(after[i].0 == entries[i].0);
                assert(after[j].0 == entries[j].0);
            },
            None => {
                if j < entries.len() {
                    assert(after[i] == entries[i] && after[j] == entries[j]);
                } else {
                    assert(after[i] == entries[i]);
                }
            },
        }
    }
}

impl View for Entries {
    type V = Seq<(Seq<char>, SchemaView)>;

    open spec fn view(&self) -> Seq<(Seq<char>, SchemaView)> {
        self.listed()
    }
}

impl Entries {
    /// What holds of all entries: no key occurs twice.
    #[verifier::type_invariant]
    pub open spec fn keyed(self) -> bool {
        distinct_keys(self@)
    }

    /// The entries as contracts speak of them.
    pub closed spec fn listed(self) -> Seq<(Seq<char>, SchemaView)>
        decreases self,
    {
        Seq::new(
            self.items@.len(),
            |i: int|
                if 0 <= i < self.items.len() {
                    (self.items[i].0@, self.items[i].1.model())
                } else {
                    (Seq::empty(), SchemaView::Other)
                },
        )
    }

    /// No entries.
    pub fn new() -> (entries: Entries)
        ensures
            entries@.len() == 0,
    {
        Entries { items: Vec::new() }
    }

    /// How many entries there are.
    pub fn len(&self) -> (n: usize)
        ensures
            n == self@.len(),
    {
        self.items.len()
    }

    /// The entry at position `at`: its key and its child.
    pub fn entry(&self, at: usize) -> (entry: Option<(&String, &OptionSchema)>)
        ensures
            match entry {
                Some(found) => at < self@.len() && self@[at as int] == (found.0@, found.1@),
                None => at >= self@.len(),
            },
    {
        if at < self.items.len() {
            Some((&self.items[at].0, &self.items[at].1))
        } else {
            None
        }
    }

    /// The child under `key`, if there is one.
    pub fn get(&self, key: &String) -> (found: Option<&OptionSchema>)
        ensures
            match found {
                Some(node) => lookup(self@, key@) == Some(node@),
                None => lookup(self@, key@) is None,
            },
    {
        let ghost listed = self@;
        let mut i: usize = 0;
        assert(listed.skip(0) == listed);
        while i < self.items.len()
            invariant
                i <= self.items.len(),
                listed == self@,
                lookup(listed, key@) == lookup(listed.skip(i as int), key@),
            decreases self.items.len() - i,
        {
            assert(listed.skip(i as int).drop_first() == listed.skip(i + 1));
            assert(listed.skip(i as int)[0] == listed[i as int]);
            if self.items[i].0 == *key {
                return Some(&self.items[i].1);
            }
            i += 1;
        }
        None
    }

    /// Puts `child` under `key`: in the place of the child that stood under
    /// `key`, or else behind all entries.
    pub fn insert(&mut self, key: String, child: OptionSchema)
        ensures
            final(self)@ == put(old(self)@, key@, child@),
    {
        proof {
            use_type_invariant(&*self);
        }
        let ghost before = self@;
        let mut items: Vec<(String, OptionSchema)> = Vec::new();
        core::mem::swap(&mut self.items, &mut items);
        assert((Entries { items })@ == before);
        let mut place: usize = 0;
        assert(before.take(0) == Seq::<(Seq<char>, SchemaView)>::empty());
        while place < items.len() && items[place].0 != key
            invariant
                place <= items.len(),
                (Entries { items })@ == before,
                place_of(before.take(place as int), key@) is None,
            decreases items.len() - place,
        {
            assert(before.take(place + 1).drop_last() == before.take(place as int));
            assert(before.take(place + 1).last() == before[place as int]);
            place += 1;
        }
        proof {
            lemma_put_keeps_keys_distinct(before, key@, child@);
            lemma_place_of(before, key@);
            lemma_first_place(before, key@, place as int);
        }
        if place < items.len() {
            items.set(place, (key, child));
        } else {
            items.push((key, child));
        }
        assert((Entries { items })@ == put(before, key@, child@));
        core::mem::swap(&mut self.items, &mut items);
    }
}

/// Where keys are distinct, the place of a key is the first place that
/// holds it, and there is none where no place before the end holds it.
pub proof fn lemma_first_place(entries: Seq<(Seq<char>, SchemaView)>, key: Seq<char>, place: int)
    requires
        distinct_keys(entries),
        0 <= place <= entries.len(),
        place_of(entries.take(place), key) is None,
        place < entries.len() ==> entries[place].0 == key,
    ensures
        place_of(entries, key) == if place < entries.len() {
            Some(place)
        } else {
            None
        },
{
    lemma_place_of(entries, key);
    lemma_place_of(entries.take(place), key);
    if place < entries.len() {
        let found = place_of(entries, key)->0;
        if found != place {
            if found < place {
                assert(entries.take(place)[found].0 != key);
            }
        }
    } else {
        assert(entries.take(place) == entries);
    }
}

impl View for OptionSchema {
    type V = SchemaView;

    open spec fn view(&self) -> SchemaView {
        self.model()
    }
}

impl OptionSchema {
    /// This node as contracts speak of it: every key and every text by its
    /// characters, the entries of a mapping in their order.
    pub open spec fn model(self) -> SchemaView
        decreases self,
    {
        match self {
            OptionSchema::Object(entries) => SchemaView::Object(entries.listed()),
            OptionSchema::Text(text) => SchemaView::Text(text@),
            OptionSchema::Other => SchemaView::Other,
        }
    }

    /// The child under `key`, if this node is a mapping that has one.
    pub fn get(&self, key: &String) -> (found: Option<&OptionSchema>)
        ensures
            match found {
                Some(node) => self@.child(key@) == Some(node@),
                None => self@.child(key@) is None,
            },
    {
        match self {
            OptionSchema::Object(entries) => entries.get(key),
            _ => None,
        }
    }

    /// The description of this node, if it has one.
    pub fn describe(&self) -> (text: Option<String>)
        ensures
            text.deep_view() == self@.description(),
    {
        let key = String::from_str("description");
        match self.get(&key) {
            Some(OptionSchema::Text(text)) => Some(text.clone()),
            _ => None,
        }
    }

    /// Answers a query: follows `path` from this node and returns, in the
    /// schema's own order, every key of the node reached that starts with
    /// `partial_key`, each with its description. The answer is empty where
    /// a key of `path` is missing and where the node reached is a leaf.
    pub fn search_json(&self, path: &[String], partial_key: &str) -> (found: Vec<
        (String, Option<String>),
    >)
        ensures
            found.deep_view() == self@.search(path.deep_view(), partial_key@),
    {
        let mut current: &OptionSchema = self;
        let mut i: usize = 0;
        assert(path.deep_view().skip(0) == path.deep_view());
        while i < path.len()
            invariant
                i <= path.len(),
                self@.descend(path.deep_view()) == current@.descend(
                    path.deep_view().skip(i as int),
                ),
            decreases path.len() - i,
        {
            assert(path.deep_view().skip(i as int).drop_first() == path.deep_view().skip(i + 1));
            assert(path.deep_view().skip(i as int)[0] == path@[i as int]@);
            match current.get(&path[i]) {
                Some(next) => {
                    current = next;
                },
                None => {
                    return Vec::new();
                },
            }
            i += 1;
        }
        let mut found: Vec<(String, Option<String>)> = Vec::new();
        match current {
            OptionSchema::Object(entries) => {
                let ghost listed = current@.entries();
                let partial = to_chars(partial_key);
                let mut j: usize = 0;
                assert(listed.take(0) == Seq::<(Seq<char>, SchemaView)>::empty());
                while j < entries.len()
                    invariant
                        j <= listed.len(),
                        partial@ == partial_key@,
                        listed == entries@,
                        found.deep_view() == candidates(listed.take(j as int), partial_key@),
                    decreases listed.len() - j,
                {
                    assert(listed.take(j + 1).drop_last() == listed.take(j as int));
                    assert(listed.take(j + 1).last() == listed[j as int]);
                    if let Some((name, child)) = entries.entry(j) {
                        let key = to_chars(name.as_str());
                        if chars_start_with(&key, &partial) {
                            let label = name.clone();
                            let description = child.describe();
                            let ghost before = found.deep_view();
                            found.push((label, description));
                            assert(found.deep_view() == before.push(
                                (label@, description.deep_view()),
                            ));
                        }
                    }
                    j += 1;
                }
                assert(listed.take(listed.len() as int) == listed);
            },
            _ => {},
        }
        found
    }
}

} // verus!
