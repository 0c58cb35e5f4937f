//! The Nix parser: `tree-sitter` with the Nix grammar turns a document into
//! a tree, and the tree is copied node by node into a `SyntaxTree`.

use crate::lines::{byte_column, point_column};
use crate::syntax::{fits, scope_path, well_linked, NodeView, SyntaxNode, SyntaxTree};
use tree_sitter::{Parser, Point, Tree};
use vstd::prelude::*;

verus! {

/// `tree_sitter::Tree`, the tree of a parsed text; what it holds is spoken
/// of through `tree_text`.
#[verifier::external_type_specification]
#[verifier::external_body]
pub struct ExTree(Tree);

/// A node as the parser hands it over: its kind, its span in the source and
/// the position of its parent among the nodes in document order.
struct ParserNode {
    kind: String,
    start_byte: usize,
    end_byte: usize,
    parent: Option<usize>,
}

/// A node of the parser as contracts speak of it.
pub struct ParserNodeView {
    pub kind: Seq<char>,
    pub start_byte: usize,
    pub end_byte: usize,
    pub parent: Option<usize>,
}

impl View for ParserNode {
    type V = ParserNodeView;

    closed spec fn view(&self) -> ParserNodeView {
        ParserNodeView {
            kind: self.kind@,
            start_byte: self.start_byte,
            end_byte: self.end_byte,
            parent: self.parent,
        }
    }
}

/// The nodes that the parser makes of `text` with the Nix grammar, in
/// document order; none where it makes no tree.
pub uninterp spec fn nix_parse(text: Seq<char>) -> Seq<ParserNodeView>;

/// The position, among the nodes that the parser makes of `text`, of the
/// smallest node that it finds at row `line` and column `column`, where a
/// column is a byte.
pub uninterp spec fn nix_node_at(text: Seq<char>, line: usize, column: usize) -> Option<usize>;

/// The text that a tree was parsed from.
pub uninterp spec fn tree_text(tree: Tree) -> Seq<char>;

/// The latest node before position `before` whose parent is `parent`.
pub open spec fn latest_child(
    nodes: Seq<ParserNodeView>,
    parent: Option<usize>,
    before: int,
) -> Option<usize>
    decreases before,
{
    if before <= 0 || before > nodes.len() {
        None
    } else if nodes[before - 1].parent == parent {
        Some((before - 1) as usize)
    } else {
        latest_child(nodes, parent, before - 1)
    }
}

/// Node `at` of `nodes` with the sibling before it: the latest earlier node
/// with the same parent.
pub open spec fn with_sibling(nodes: Seq<ParserNodeView>, at: int) -> NodeView {
    NodeView {
        kind: nodes[at].kind,
        start_byte: nodes[at].start_byte,
        end_byte: nodes[at].end_byte,
        parent: nodes[at].parent,
        prev_sibling: latest_child(nodes, nodes[at].parent, at),
    }
}

/// `nodes`, every node with the sibling before it.
pub open spec fn with_siblings(nodes: Seq<ParserNodeView>) -> Seq<NodeView> {
    Seq::new(nodes.len(), |at: int| with_sibling(nodes, at))
}

/// The syntax tree of `text`: the nodes that the parser makes of it, every
/// node with the sibling before it.
pub open spec fn nix_nodes(text: Seq<char>) -> Seq<NodeView> {
    with_siblings(nix_parse(text))
}

/// `found`, if it is a position before `len`.
pub open spec fn within(found: Option<usize>, len: nat) -> Option<usize> {
    match found {
        Some(at) => if at < len {
            Some(at)
        } else {
            None
        },
        None => None,
    }
}

/// Every parent among the first `upto` nodes stands before its child.
pub open spec fn parents_first(nodes: Seq<ParserNodeView>, upto: int) -> bool {
    forall|j: int|
        0 <= j < upto && j < nodes.len() ==> ((#[trigger] nodes[j]).parent matches Some(parent)
            ==> parent < j)
}

/// The latest child of a parent stands before the position up to which it
/// was looked for, and has that parent.
pub proof fn lemma_latest_child(nodes: Seq<ParserNodeView>, parent: Option<usize>, before: int)
    requires
        nodes.len() <= usize::MAX,
    ensures
        latest_child(nodes, parent, before) matches Some(child) ==> child < before && child
            < nodes.len() && nodes[child as int].parent == parent,
    decreases before,
{
    if 0 < before <= nodes.len() && nodes[before - 1].parent != parent {
        lemma_latest_child(nodes, parent, before - 1);
    }
}

/// Where parents stand before their children, a node has no child among
/// the nodes up to itself.
pub proof fn lemma_no_child_yet(nodes: Seq<ParserNodeView>, parent: usize, before: int)
    requires
        parents_first(nodes, before),
        before <= parent + 1,
    ensures
        latest_child(nodes, Some(parent), before) is None,
    decreases before,
{
    if 0 < before <= nodes.len() {
        assert(nodes[before - 1].parent != Some(parent));
        lemma_no_child_yet(nodes, parent, before - 1);
    }
}

/// `Parser::parse` on `text`, after `Parser::new` and `Parser::set_language`
/// with `tree_sitter_nix::LANGUAGE`. The tree is one of `text`. There is
/// none where the parser refuses the grammar or gives no tree, and then
/// `text` has no nodes. Nothing but `text` decides it: no earlier tree, no
/// time limit and no cancellation flag is given.
#[verifier::external_body]
fn parse_nix(text: &str) -> (tree: Option<Tree>)
    ensures
        match tree {
            Some(made) => tree_text(made) == text@,
            None => nix_parse(text@).len() == 0,
        },
{
    let mut parser = Parser::new();
    match parser.set_language(&tree_sitter_nix::LANGUAGE.into()) {
        Ok(()) => parser.parse(text, None),
        Err(_) => None,
    }
}

/// `Node::descendant_count` of the root: how many nodes the tree has.
#[verifier::external_body]
fn node_count(tree: &Tree) -> (count: usize)
    ensures
        count == nix_parse(tree_text(*tree)).len(),
{
    tree.root_node().descendant_count()
}

/// The node at position `index`, reached by `TreeCursor::goto_descendant`
/// on a cursor that `Tree::walk` made: its `Node::kind`, `Node::start_byte`
/// and `Node::end_byte`, and as parent the `TreeCursor::descendant_index`
/// that the cursor has after `TreeCursor::goto_parent`, if it moved. A
/// parent stands before its child.
#[verifier::external_body]
fn node_copy(tree: &Tree, index: usize) -> (copy: ParserNode)
    requires
        index < nix_parse(tree_text(*tree)).len(),
    ensures
        copy@ == nix_parse(tree_text(*tree))[index as int],
        copy.parent matches Some(parent) ==> parent < index,
{
    let mut cursor = tree.walk();
    cursor.goto_descendant(index);
    let node = cursor.node();
    let parent = if cursor.goto_parent() {
        Some(cursor.descendant_index())
    } else {
        None
    };
    ParserNode {
        kind: node.kind().to_string(),
        start_byte: node.start_byte(),
        end_byte: node.end_byte(),
        parent,
    }
}

/// Whether the node at position `index`, reached as in `node_copy`, is the
/// one that `Node::descendant_for_point_range` finds from the root for the
/// `Point` at `line` and `column`.
#[verifier::external_body]
fn is_found_at(tree: &Tree, index: usize, line: usize, column: usize) -> (found: bool)
    requires
        index < nix_parse(tree_text(*tree)).len(),
    ensures
        found == (nix_node_at(tree_text(*tree), line, column) == Some(index)),
{
    let mut cursor = tree.walk();
    cursor.goto_descendant(index);
    let point = Point::new(line, column);
    tree.root_node().descendant_for_point_range(point, point) == Some(cursor.node())
}

/// A parsed document: the parser's own tree and its nodes, copied in
/// document order.
pub struct ParsedSource {
    tree: Tree,
    nodes: SyntaxTree,
}

/// Copies the nodes of `tree` in document order and gives every node the
/// sibling before it.
fn flatten(tree: &Tree) -> (nodes: SyntaxTree)
    ensures
        nodes@ == nix_nodes(tree_text(*tree)),
{
    let ghost parsed = nix_parse(tree_text(*tree));
    let count = node_count(tree);
    let mut nodes = SyntaxTree::new();
    let mut last_child: Vec<Option<usize>> = Vec::new();
    let mut last_top: Option<usize> = None;
    let mut at: usize = 0;
    assert(nodes@ == with_siblings(parsed).take(0));
    while at < count
        invariant
            parsed == nix_parse(tree_text(*tree)),
            count == parsed.len(),
            at <= count,
            nodes@ == with_siblings(parsed).take(at as int),
            parents_first(parsed, at as int),
            last_child@.len() == at,
            last_top == latest_child(parsed, None, at as int),
            forall|parent: int|
                0 <= parent < at ==> #[trigger] last_child@[parent] == latest_child(
                    parsed,
                    Some(parent as usize),
                    at as int,
                ),
        decreases count - at,
    {
        let copy = node_copy(tree, at);
        let prev_sibling = match copy.parent {
            Some(parent) => last_child[parent],
            None => last_top,
        };
        let parent = copy.parent;
        let node = SyntaxNode {
            kind: copy.kind,
            start_byte: copy.start_byte,
            end_byte: copy.end_byte,
            parent,
            prev_sibling,
        };
        proof {
            lemma_latest_child(parsed, parsed[at as int].parent, at as int);
            assert(node@ == with_sibling(parsed, at as int));
            assert(fits(nodes@, node@)) by {
                if let Some(sibling) = prev_sibling {
                    assert(nodes@[sibling as int] == with_sibling(parsed, sibling as int));
                }
            }
            assert(with_siblings(parsed).take(at as int).push(node@) == with_siblings(parsed).take(
                at + 1,
            ));
            assert(parents_first(parsed, at + 1));
            lemma_no_child_yet(parsed, at, at + 1);
        }
        let _ = nodes.push(node);
        match parent {
            Some(parent) => {
                last_child.set(parent, Some(at));
            },
            None => {
                last_top = Some(at);
            },
        }
        last_child.push(None);
        at += 1;
    }
    assert(with_siblings(parsed).take(count as int) == with_siblings(parsed));
    nodes
}

impl ParsedSource {
    /// What holds of every parsed document: its nodes are those that the
    /// parser makes of its text.
    #[verifier::type_invariant]
    spec fn copied(self) -> bool {
        self.nodes@ == nix_nodes(tree_text(self.tree))
    }

    /// The text that the document was parsed from.
    pub closed spec fn text(self) -> Seq<char> {
        tree_text(self.tree)
    }

    /// The nodes of the document.
    pub closed spec fn syntax_nodes(self) -> Seq<NodeView> {
        self.nodes@
    }

    /// Parses `text` as Nix. The nodes of the result are the syntax tree of
    /// `text`. There is no result where the parser makes no tree, and then
    /// the syntax tree of `text` is empty.
    pub fn parse(text: &str) -> (parsed: Option<ParsedSource>)
        ensures
            match parsed {
                Some(source) => source.text() == text@ && source.syntax_nodes() == nix_nodes(
                    text@,
                ),
                None => nix_nodes(text@).len() == 0,
            },
    {
        match parse_nix(text) {
            Some(tree) => {
                let nodes = flatten(&tree);
                Some(ParsedSource { tree, nodes })
            },
            None => None,
        }
    }

    /// The nodes of the document, which are well linked as those of every
    /// tree are.
    pub fn syntax(&self) -> (nodes: &SyntaxTree)
        ensures
            nodes@ == self.syntax_nodes(),
            nodes@ == nix_nodes(self.text()),
            well_linked(nodes@),
    {
        proof {
            use_type_invariant(self);
            use_type_invariant(&self.nodes);
        }
        &self.nodes
    }

    /// The position, among the nodes of the document, of the smallest node
    /// that the parser finds at row `line` and column `column`, where a
    /// column is a byte: the first position that it gives, if it is one of
    /// a node of the document.
    pub fn node_at(&self, line: usize, column: usize) -> (found: Option<usize>)
        ensures
            found == within(nix_node_at(self.text(), line, column), self.syntax_nodes().len()),
    {
        proof {
            use_type_invariant(self);
        }
        let count = self.nodes.len();
        let mut at: usize = 0;
        while at < count
            invariant
                at <= count,
                count == self.nodes@.len(),
                count == nix_parse(tree_text(self.tree)).len(),
                nix_node_at(tree_text(self.tree), line, column) matches Some(place) ==> place
                    >= at,
            decreases count - at,
        {
            if is_found_at(&self.tree, at, line, column) {
                return Some(at);
            }
            at += 1;
        }
        None
    }
}

/// Resolves the scope at line `line` and column `column` of `text`, where
/// columns count characters: parses `text`, finds the node at that point
/// and walks back from it. Where the parser makes no tree, and where it
/// finds no node there, the path is empty.
pub fn resolve_scope(text: &str, line: usize, column: usize) -> (path: Vec<String>)
    ensures
        path.deep_view() == scope_path(
            nix_nodes(text@),
            text@,
            nix_node_at(text@, line, point_column(text@, line as nat, column as nat)),
        ),
{
    let bytes = byte_column(text, line, column);
    let ghost start = nix_node_at(text@, line, bytes);
    match ParsedSource::parse(text) {
        Some(parsed) => {
            let found = parsed.node_at(line, bytes);
            let path = parsed.syntax().get_scope(found, text);
            proof {
                lemma_start_outside(nix_nodes(text@), text@, start);
            }
            path
        },
        None => {
            let path: Vec<String> = Vec::new();
            proof {
                lemma_start_outside(nix_nodes(text@), text@, start);
                assert(path.deep_view() == scope_path(nix_nodes(text@), text@, None));
            }
            path
        },
    }
}

/// A start that is no node of the tree gives the same path as no start:
/// the empty one.
pub proof fn lemma_start_outside(nodes: Seq<NodeView>, source: Seq<char>, start: Option<usize>)
    ensures
        scope_path(nodes, source, start) == scope_path(nodes, source, within(start, nodes.len())),
{
    if let Some(at) = start {
        if at >= nodes.len() {
            assert(Seq::<Seq<char>>::empty().reverse() == Seq::<Seq<char>>::empty());
        }
    }
}

} // verus!
