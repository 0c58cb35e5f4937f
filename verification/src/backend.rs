//! The completion engine: it keeps the documents and the option schema, takes
//! note of changes, and answers completion requests.

use crate::lines::{line_prefix, line_prefix_of, point_column};
use crate::parser::{nix_node_at, nix_nodes, resolve_scope};
use crate::path::{dotted_path, get_path, partial_word, trailing_word};
use crate::schema::{Candidate, OptionSchema, SchemaView};
use crate::store::{
    document, no_documents, with_cursor, with_scope, with_text, DocumentStore, DocumentView,
    Position,
};
use crate::syntax::scope_path;
use vstd::prelude::*;
use vstd::string::*;

verus! {

/// One entry of a completion list: the name of an option and, as detail,
/// its description or the empty text.
#[derive(Clone, Debug, PartialEq, Eq)]
pub struct CompletionItem {
    pub label: String,
    pub detail: String,
}

/// A completion entry as contracts speak of it.
pub struct CompletionItemView {
    pub label: Seq<char>,
    pub detail: Seq<char>,
}

impl View for CompletionItem {
    type V = CompletionItemView;

    open spec fn view(&self) -> CompletionItemView {
        CompletionItemView { label: self.label@, detail: self.detail@ }
    }
}

impl DeepView for CompletionItem {
    type V = CompletionItemView;

    open spec fn deep_view(&self) -> CompletionItemView {
        self@
    }
}

/// The completion engine.
#[derive(Debug)]
pub struct Backend {
    documents: DocumentStore,
    completion_json: OptionSchema,
}

/// A candidate as a completion entry: the key as label, the description as
/// detail, the empty text where there is no description.
pub open spec fn rendered(candidate: Candidate) -> CompletionItemView {
    CompletionItemView {
        label: candidate.0,
        detail: match candidate.1 {
            Some(description) => description,
            None => Seq::empty(),
        },
    }
}

/// The answer to a completion request on document `id` at `position`, with
/// the schema `schema` and the documents `documents`: the candidates that
/// the schema has under the scope path kept for the document, followed by
/// the dotted path typed before the cursor, for the word in progress there.
pub open spec fn completion_of(
    schema: SchemaView,
    documents: Map<Seq<char>, DocumentView>,
    id: Seq<char>,
    position: Position,
) -> Seq<CompletionItemView> {
    let kept = document(documents, id);
    let typed = line_prefix_of(kept.text, position.line as nat, position.character as nat);
    let path = kept.scope + dotted_path(typed);
    schema.search(path, trailing_word(typed)).map_values(|c: Candidate| rendered(c))
}

/// The scope path at `cursor` in `text`: the one that the walk gives on the
/// syntax tree of `text`, from the node that the parser finds at the cursor.
pub open spec fn scope_at(text: Seq<char>, cursor: Position) -> Seq<Seq<char>> {
    scope_path(
        nix_nodes(text),
        text,
        nix_node_at(
            text,
            cursor.line as usize,
            point_column(text, cursor.line as nat, cursor.character as nat),
        ),
    )
}

/// `documents` after a change of document `id` to `text`, for which the
/// scope path `scope` was found: text and scope are replaced, the cursor
/// stays.
pub open spec fn changed(
    documents: Map<Seq<char>, DocumentView>,
    id: Seq<char>,
    text: Seq<char>,
    scope: Seq<Seq<char>>,
) -> Map<Seq<char>, DocumentView> {
    with_scope(with_text(documents, id, text), id, scope)
}

/// A completion request changes no answer: whatever is asked afterwards, of
/// the same document or of another, is answered as it would have been
/// before.
pub proof fn lemma_completion_changes_no_answer(
    schema: SchemaView,
    documents: Map<Seq<char>, DocumentView>,
    id: Seq<char>,
    position: Position,
    other: Seq<char>,
    elsewhere: Position,
)
    ensures
        completion_of(schema, with_cursor(documents, id, position), other, elsewhere)
            == completion_of(schema, documents, other, elsewhere),
{
    let once = with_cursor(documents, id, position);
    assert(document(once, other).text == document(documents, other).text);
    assert(document(once, other).scope == document(documents, other).scope);
}

/// Completion is idempotent: the same request, made again with no change in
/// between, has the same answer and leaves the documents as the first one
/// left them.
pub proof fn lemma_completion_is_idempotent(
    schema: SchemaView,
    documents: Map<Seq<char>, DocumentView>,
    id: Seq<char>,
    position: Position,
)
    ensures
        completion_of(schema, with_cursor(documents, id, position), id, position) == completion_of(
            schema,
            documents,
            id,
            position,
        ),
        with_cursor(with_cursor(documents, id, position), id, position) == with_cursor(
            documents,
            id,
            position,
        ),
{
    lemma_completion_changes_no_answer(schema, documents, id, position, id, position);
    let once = with_cursor(documents, id, position);
    assert(with_cursor(once, id, position) == once);
}

/// The candidates as completion entries, in the same order.
fn render(found: Vec<(String, Option<String>)>) -> (items: Vec<CompletionItem>)
    ensures
        items.deep_view() == found.deep_view().map_values(|c: Candidate| rendered(c)),
{
    let mut items: Vec<CompletionItem> = Vec::new();
    let mut i: usize = 0;
    while i < found.len()
        invariant
            i <= found.len(),
            items@.len() == i,
            forall|k: int| 0 <= k < i ==> #[trigger] items@[k]@ == rendered(found.deep_view()[k]),
        decreases found.len() - i,
    {
        let label = found[i].0.clone();
        let detail = match &found[i].1 {
            Some(description) => description.clone(),
            None => String::new(),
        };
        items.push(CompletionItem { label, detail });
        i += 1;
    }
    assert(items.deep_view() == found.deep_view().map_values(|c: Candidate| rendered(c)));
    items
}

impl Backend {
    /// An engine with the schema `completion_json` that has seen no document.
    pub fn new(completion_json: OptionSchema) -> (backend: Backend)
        ensures
            backend.schema() == completion_json@,
            backend.documents() == no_documents(),
    {
        Backend { documents: DocumentStore::new(), completion_json }
    }

    /// The option schema of the engine.
    pub closed spec fn schema(self) -> SchemaView {
        self.completion_json@
    }

    /// What the engine keeps of every document.
    pub closed spec fn documents(self) -> Map<Seq<char>, DocumentView> {
        self.documents@
    }

    /// The store of the engine.
    pub fn store(&self) -> (store: &DocumentStore)
        ensures
            store@ == self.documents(),
    {
        &self.documents
    }

    /// Takes note of a change for which the scope path is known: `text`
    /// becomes the text of document `uri` and `scope` its scope path. The
    /// cursor kept for the document stays, and so does every other document.
    pub fn store_change(&mut self, uri: &str, text: &str, scope: Vec<String>)
        ensures
            final(self).schema() == old(self).schema(),
            final(self).documents() == changed(
                old(self).documents(),
                uri@,
                text@,
                scope.deep_view(),
            ),
    {
        self.documents.put(uri, text);
        self.documents.set_scope(uri, scope);
    }

    /// Takes note of a change: `text` becomes the text of document `uri`,
    /// and its scope path becomes the one found in `text` at the cursor
    /// position kept for the document, which is the origin before the first
    /// completion request. The cursor stays, and so does every other
    /// document.
    pub fn did_change(&mut self, uri: &str, text: &str)
        ensures
            final(self).schema() == old(self).schema(),
            final(self).documents() == changed(
                old(self).documents(),
                uri@,
                text@,
                scope_at(text@, document(old(self).documents(), uri@).cursor),
            ),
    {
        let position = self.documents.get_cursor(uri);
        let scope = resolve_scope(text, position.line as usize, position.character as usize);
        self.store_change(uri, text, scope);
    }

    /// Answers a completion request on document `uri` at `position`, and
    /// keeps `position` as the cursor of the document. Text and scope path
    /// of the document stay, and so does every other document.
    pub fn completion(&mut self, uri: &str, position: Position) -> (items: Vec<CompletionItem>)
        ensures
            final(self).schema() == old(self).schema(),
            final(self).documents() == with_cursor(old(self).documents(), uri@, position),
            items.deep_view() == completion_of(
                old(self).schema(),
                old(self).documents(),
                uri@,
                position,
            ),
    {
        let text = self.documents.get(uri);
        let typed = line_prefix(text.as_str(), position.line as usize, position.character as usize);
        let word = partial_word(typed.as_str());
        let mut dotted = get_path(typed.as_str());
        self.documents.set_cursor(uri, position);
        let mut path = self.documents.get_scope(uri);
        let ghost scope = path.deep_view();
        let ghost typed_path = dotted.deep_view();
        path.append(&mut dotted);
        assert(path.deep_view() == scope + typed_path);
        let found = self.completion_json.search_json(path.as_slice(), word.as_str());
        render(found)
    }
}

} // verus!
