//! The document store: for every document that has been seen, its text, the
//! cursor position of the last completion request and the scope path of the
//! last change.

use dashmap::DashMap;
use vstd::prelude::*;
use vstd::string::*;

verus! {

/// A place in a document: a line and a column, both counted from 0.
#[derive(Clone, Copy, Debug, PartialEq, Eq, Structural)]
pub struct Position {
    pub line: u32,
    pub character: u32,
}

/// What the store keeps of one document.
#[derive(Clone, Debug, PartialEq, Eq)]
pub struct Document {
    pub text: String,
    pub cursor: Position,
    pub scope: Vec<String>,
}

/// A document as contracts speak of it.
pub struct DocumentView {
    pub text: Seq<char>,
    pub cursor: Position,
    pub scope: Seq<Seq<char>>,
}

impl View for Document {
    type V = DocumentView;

    open spec fn view(&self) -> DocumentView {
        DocumentView { text: self.text@, cursor: self.cursor, scope: self.scope.deep_view() }
    }
}

/// The first place of every document.
pub open spec fn origin() -> Position {
    Position { line: 0, character: 0 }
}

/// A document of which nothing is known yet: no text, the cursor at the
/// origin, the empty scope.
pub open spec fn blank() -> DocumentView {
    DocumentView { text: Seq::empty(), cursor: origin(), scope: Seq::empty() }
}

/// The documents of a store that has seen none.
pub open spec fn no_documents() -> Map<Seq<char>, DocumentView> {
    Map::empty()
}

/// What `documents` holds for `id`; a blank document where it holds nothing.
pub open spec fn document(documents: Map<Seq<char>, DocumentView>, id: Seq<char>) -> DocumentView {
    if documents.contains_key(id) {
        documents[id]
    } else {
        blank()
    }
}

/// `documents` after the text of `id` has been replaced.
pub open spec fn with_text(
    documents: Map<Seq<char>, DocumentView>,
    id: Seq<char>,
    text: Seq<char>,
) -> Map<Seq<char>, DocumentView> {
    documents.insert(id, DocumentView { text, ..document(documents, id) })
}

/// `documents` after the cursor of `id` has been replaced.
pub open spec fn with_cursor(
    documents: Map<Seq<char>, DocumentView>,
    id: Seq<char>,
    cursor: Position,
) -> Map<Seq<char>, DocumentView> {
    documents.insert(id, DocumentView { cursor, ..document(documents, id) })
}

/// `documents` after the scope of `id` has been replaced.
pub open spec fn with_scope(
    documents: Map<Seq<char>, DocumentView>,
    id: Seq<char>,
    scope: Seq<Seq<char>>,
) -> Map<Seq<char>, DocumentView> {
    documents.insert(id, DocumentView { scope, ..document(documents, id) })
}

/// A document that has never been seen reads as blank: its text and its
/// scope path are empty and its cursor is the origin. This holds of a store
/// that has seen no document, and stays so whatever is done to other
/// documents.
pub proof fn lemma_unseen_document_is_blank(
    documents: Map<Seq<char>, DocumentView>,
    id: Seq<char>,
    other: Seq<char>,
    text: Seq<char>,
    cursor: Position,
    scope: Seq<Seq<char>>,
)
    requires
        !documents.contains_key(id),
        other != id,
    ensures
        document(no_documents(), id) == blank(),
        document(documents, id) == blank(),
        document(documents, id).text == Seq::<char>::empty(),
        document(documents, id).scope == Seq::<Seq<char>>::empty(),
        !with_text(documents, other, text).contains_key(id),
        !with_cursor(documents, other, cursor).contains_key(id),
        !with_scope(documents, other, scope).contains_key(id),
{
}

/// `dashmap::DashMap`, a map for many threads; what it holds is spoken of
/// through `documents_of`.
#[verifier::external_type_specification]
#[verifier::external_body]
#[verifier::reject_recursive_types(K)]
#[verifier::reject_recursive_types(V)]
#[verifier::reject_recursive_types(S)]
pub struct ExDashMap<K, V, S>(DashMap<K, V, S>);

/// What a map of documents holds: for every key, the document stored under
/// it.
pub uninterp spec fn documents_of(map: DashMap<String, Document>) -> Map<Seq<char>, DocumentView>;

/// `DashMap::new`: a map that holds nothing.
#[verifier::external_body]
fn new_map() -> (map: DashMap<String, Document>)
    ensures
        documents_of(map) == no_documents(),
{
    DashMap::new()
}

/// `DashMap::insert`: afterwards the map holds `document` under `id`, in
/// place of what it held there, and everything else as before. The wrapper
/// has the map to itself, so no reference into it is alive during the call.
#[verifier::external_body]
fn insert(map: &mut DashMap<String, Document>, id: String, document: Document)
    ensures
        documents_of(*final(map)) == documents_of(*old(map)).insert(id@, document@),
{
    map.insert(id, document);
}

/// `DashMap::get`, followed by a copy of the value found: the document that
/// the map holds under `id`, if it holds one.
#[verifier::external_body]
fn get_copy(map: &DashMap<String, Document>, id: &str) -> (found: Option<Document>)
    ensures
        match found {
            Some(document) => documents_of(*map).contains_key(id@) && document@ == documents_of(
                *map,
            )[id@],
            None => !documents_of(*map).contains_key(id@),
        },
{
    match map.get(id) {
        Some(entry) => Some(entry.value().clone()),
        None => None,
    }
}

/// The store of documents.
#[derive(Debug)]
pub struct DocumentStore {
    documents: DashMap<String, Document>,
}

impl View for DocumentStore {
    type V = Map<Seq<char>, DocumentView>;

    closed spec fn view(&self) -> Map<Seq<char>, DocumentView> {
        documents_of(self.documents)
    }
}

impl DocumentStore {
    /// A store that has seen no document.
    pub fn new() -> (store: DocumentStore)
        ensures
            store@ == no_documents(),
    {
        DocumentStore { documents: new_map() }
    }

    /// What the store keeps of `id`; a blank document where it keeps nothing.
    pub fn document(&self, id: &str) -> (found: Document)
        ensures
            found@ == document(self@, id@),
    {
        match get_copy(&self.documents, id) {
            Some(found) => found,
            None => {
                let scope: Vec<String> = Vec::new();
                assert(scope.deep_view() == Seq::<Seq<char>>::empty());
                Document { text: String::new(), cursor: Position { line: 0, character: 0 }, scope }
            },
        }
    }

    /// Replaces the text of `id`. The cursor and the scope kept for `id`
    /// stay as they are.
    pub fn put(&mut self, id: &str, text: &str)
        ensures
            final(self)@ == with_text(old(self)@, id@, text@),
    {
        let mut changed = self.document(id);
        changed.text = String::from_str(text);
        insert(&mut self.documents, String::from_str(id), changed);
    }

    /// Replaces the scope path kept for `id`.
    pub fn set_scope(&mut self, id: &str, path: Vec<String>)
        ensures
            final(self)@ == with_scope(old(self)@, id@, path.deep_view()),
    {
        let mut changed = self.document(id);
        changed.scope = path;
        insert(&mut self.documents, String::from_str(id), changed);
    }

    /// Replaces the cursor position kept for `id`.
    pub fn set_cursor(&mut self, id: &str, position: Position)
        ensures
            final(self)@ == with_cursor(old(self)@, id@, position),
    {
        let mut changed = self.document(id);
        changed.cursor = position;
        insert(&mut self.documents, String::from_str(id), changed);
    }

    /// The text of `id`; the empty text where `id` has never been seen.
    pub fn get(&self, id: &str) -> (text: String)
        ensures
            text@ == document(self@, id@).text,
    {
        self.document(id).text
    }

    /// The scope path kept for `id`; the empty path where none is kept.
    pub fn get_scope(&self, id: &str) -> (path: Vec<String>)
        ensures
            path.deep_view() == document(self@, id@).scope,
    {
        self.document(id).scope
    }

    /// The cursor position kept for `id`; the origin where none is kept.
    pub fn get_cursor(&self, id: &str) -> (position: Position)
        ensures
            position == document(self@, id@).cursor,
    {
        self.document(id).cursor
    }
}

} // verus!
