//! The syntax tree of a document, held as a flat list of nodes, and the
//! scope resolver that walks it backwards from the cursor.

use vstd::prelude::*;
use vstd::string::*;
use vstd::utf8::*;

verus! {

/// A node of a syntax tree. `parent` and `prev_sibling` are positions in the
/// list of nodes of the tree; `start_byte` and `end_byte` delimit the node's
/// text in the source.
#[derive(Clone, Debug, PartialEq, Eq)]
pub struct SyntaxNode {
    pub kind: String,
    pub start_byte: usize,
    pub end_byte: usize,
    pub parent: Option<usize>,
    pub prev_sibling: Option<usize>,
}

/// A node as contracts speak of it.
pub struct NodeView {
    pub kind: Seq<char>,
    pub start_byte: usize,
    pub end_byte: usize,
    pub parent: Option<usize>,
    pub prev_sibling: Option<usize>,
}

impl View for SyntaxNode {
    type V = NodeView;

    open spec fn view(&self) -> NodeView {
        NodeView {
            kind: self.kind@,
            start_byte: self.start_byte,
            end_byte: self.end_byte,
            parent: self.parent,
            prev_sibling: self.prev_sibling,
        }
    }
}

/// A syntax tree: its nodes in document order, every node after its parent
/// and after the siblings that precede it.
pub struct SyntaxTree {
    nodes: Vec<SyntaxNode>,
}

/// `link` is absent or points to a position before `at`.
pub open spec fn points_back(link: Option<usize>, at: int) -> bool {
    match link {
        Some(target) => target < at,
        None => true,
    }
}

/// `node` can stand behind `nodes`: its links point to nodes of `nodes`, and
/// the sibling before it has the same parent.
pub open spec fn fits(nodes: Seq<NodeView>, node: NodeView) -> bool {
    &&& points_back(node.parent, nodes.len() as int)
    &&& points_back(node.prev_sibling, nodes.len() as int)
    &&& node.prev_sibling matches Some(sibling) ==> nodes[sibling as int].parent == node.parent
}

/// Every node of `nodes` fits behind the nodes before it.
pub open spec fn well_linked(nodes: Seq<NodeView>) -> bool {
    forall|i: int| 0 <= i < nodes.len() ==> fits(nodes.take(i), #[trigger] nodes[i])
}

/// The text that `source` holds from byte `start` up to byte `end`, where
/// both offsets lie in `source`, in this order, and between characters.
pub open spec fn span_text(source: Seq<char>, start: int, end: int) -> Option<Seq<char>> {
    let bytes = encode_utf8(source);
    if 0 <= start <= end <= bytes.len() && is_char_boundary(bytes, start) && is_char_boundary(
        bytes,
        end,
    ) {
        Some(decode_utf8(bytes.subrange(start, end)))
    } else {
        None
    }
}

/// What `node` adds to a scope path: its text in `source`, if it is an
/// attribute path and its span delimits text; nothing otherwise.
pub open spec fn segment(node: NodeView, source: Seq<char>) -> Seq<Seq<char>> {
    if node.kind == "attrpath"@ {
        match span_text(source, node.start_byte as int, node.end_byte as int) {
            Some(text) => seq![text],
            None => Seq::empty(),
        }
    } else {
        Seq::empty()
    }
}

/// The node visited after `node` on the way back: the sibling before it, or
/// else its parent.
pub open spec fn step_back(node: NodeView) -> Option<usize> {
    match node.prev_sibling {
        Some(sibling) => Some(sibling),
        None => node.parent,
    }
}

/// The segments met on the way back from node `at` until no step is left,
/// in the order in which they are met: innermost first.
pub open spec fn walk_back(nodes: Seq<NodeView>, source: Seq<char>, at: int) -> Seq<Seq<char>>
    decreases at,
{
    if 0 <= at < nodes.len() {
        let here = segment(nodes[at], source);
        match step_back(nodes[at]) {
            Some(next) => if next < at {
                here + walk_back(nodes, source, next as int)
            } else {
                here
            },
            None => here,
        }
    } else {
        Seq::empty()
    }
}

/// The scope path at node `start`: the segments met on the way back from it,
/// outermost first. Without a node to start from the path is empty.
pub open spec fn scope_path(nodes: Seq<NodeView>, source: Seq<char>, start: Option<usize>) -> Seq<
    Seq<char>,
> {
    match start {
        Some(at) => walk_back(nodes, source, at as int).reverse(),
        None => Seq::empty(),
    }
}

/// The positions of the nodes met on the way back from node `at`, in the
/// order in which they are met.
pub open spec fn trail(nodes: Seq<NodeView>, at: int) -> Seq<int>
    decreases at,
{
    if 0 <= at < nodes.len() {
        match step_back(nodes[at]) {
            Some(next) => if next < at {
                seq![at] + trail(nodes, next as int)
            } else {
                seq![at]
            },
            None => seq![at],
        }
    } else {
        Seq::empty()
    }
}

/// What the nodes at `positions` add to a scope path, one after the other.
pub open spec fn segments_of(nodes: Seq<NodeView>, source: Seq<char>, positions: Seq<int>) -> Seq<
    Seq<char>,
>
    decreases positions.len(),
{
    if positions.len() == 0 {
        Seq::empty()
    } else {
        segments_of(nodes, source, positions.drop_last()) + segment(
            nodes[positions.last()],
            source,
        )
    }
}

/// The way back meets every node before the one met last: positions fall
/// from the start on.
pub proof fn lemma_trail_falls(nodes: Seq<NodeView>, at: int)
    ensures
        forall|i: int| 0 <= i < trail(nodes, at).len() ==> 0 <= #[trigger] trail(nodes, at)[i] <= at,
        forall|i: int, j: int|
            0 <= i < j < trail(nodes, at).len() ==> #[trigger] trail(nodes, at)[i] > #[trigger] trail(
                nodes,
                at,
            )[j],
    decreases at,
{
    if 0 <= at < nodes.len() {
        match step_back(nodes[at]) {
            Some(next) => {
                if next < at {
                    lemma_trail_falls(nodes, next as int);
                    let rest = trail(nodes, next as int);
                    let whole = trail(nodes, at);
                    assert forall|i: int| 0 <= i < whole.len() implies 0 <= #[trigger] whole[i]
                        <= at by {
                        if i > 0 {
                            assert(whole[i] == rest[i - 1]);
                        }
                    }
                    assert forall|i: int, j: int| 0 <= i < j < whole.len() implies #[trigger] whole[i]
                        > #[trigger] whole[j] by {
                        assert(whole[j] == rest[j - 1]);
                        if i > 0 {
                            assert(whole[i] == rest[i - 1]);
                        }
                    }
                }
            },
            None => {},
        }
    }
}

/// The scope path holds the segments in document order: it is what the
/// nodes met on the way back add, taken from the node that stands first in
/// the document to the one at which the walk started. So the key of a
/// binding stands before every key inside the value bound to it.
pub proof fn lemma_scope_path_in_document_order(
    nodes: Seq<NodeView>,
    source: Seq<char>,
    at: usize,
)
    ensures
        scope_path(nodes, source, Some(at)) == segments_of(
            nodes,
            source,
            trail(nodes, at as int).reverse(),
        ),
        forall|i: int, j: int|
            0 <= i < j < trail(nodes, at as int).len() ==> #[trigger] trail(
                nodes,
                at as int,
            ).reverse()[i] < #[trigger] trail(nodes, at as int).reverse()[j],
{
    lemma_walk_back_along_trail(nodes, source, at as int);
    lemma_trail_falls(nodes, at as int);
    let met = trail(nodes, at as int);
    assert forall|i: int, j: int| 0 <= i < j < met.len() implies #[trigger] met.reverse()[i]
        < #[trigger] met.reverse()[j] by {
        assert(met[met.len() - 1 - j] > met[met.len() - 1 - i]);
    }
}

/// Read from its end, the way back gives what the nodes met add, taken
/// from the one met last to the one met first.
pub proof fn lemma_walk_back_along_trail(nodes: Seq<NodeView>, source: Seq<char>, at: int)
    ensures
        walk_back(nodes, source, at).reverse() == segments_of(
            nodes,
            source,
            trail(nodes, at).reverse(),
        ),
    decreases at,
{
    let empty = Seq::<Seq<char>>::empty();
    if 0 <= at < nodes.len() {
        let here = segment(nodes[at], source);
        assert(here.reverse() == here);
        let next = match step_back(nodes[at]) {
            Some(next) => if next < at {
                next as int
            } else {
                -1
            },
            None => -1,
        };
        if next >= 0 {
            lemma_walk_back_along_trail(nodes, source, next);
        }
        let rest = trail(nodes, next);
        let after = walk_back(nodes, source, next);
        assert(trail(nodes, at) == seq![at] + rest);
        assert(walk_back(nodes, source, at) == here + after);
        assert((seq![at] + rest).reverse() == rest.reverse().push(at));
        assert(rest.reverse().push(at).drop_last() == rest.reverse());
        assert((here + after).reverse() == after.reverse() + here);
        assert(after.reverse() == segments_of(nodes, source, rest.reverse())) by {
            if next < 0 {
                assert(rest.reverse() == Seq::<int>::empty());
                assert(after.reverse() == empty);
            }
        }
    } else {
        assert(trail(nodes, at).reverse() == Seq::<int>::empty());
        assert(walk_back(nodes, source, at).reverse() == empty);
    }
}

/// Whether node `inner` hangs on node `outer`: whether the parents of
/// `inner`, taken one after the other, reach `outer`.
pub open spec fn hangs_on(nodes: Seq<NodeView>, inner: int, outer: int) -> bool
    decreases inner,
{
    0 <= inner < nodes.len() && match nodes[inner].parent {
        Some(parent) => parent < inner && (parent == outer || hangs_on(
            nodes,
            parent as int,
            outer,
        )),
        None => false,
    }
}

/// Whether node `later` follows node `earlier` among the children of one
/// node: whether the siblings before `later`, taken one after the other,
/// reach `earlier`.
pub open spec fn follows(nodes: Seq<NodeView>, later: int, earlier: int) -> bool
    decreases later,
{
    0 <= later < nodes.len() && match nodes[later].prev_sibling {
        Some(sibling) => sibling < later && (sibling == earlier || follows(
            nodes,
            sibling as int,
            earlier,
        )),
        None => false,
    }
}

/// A node stands behind every node that it hangs on and behind every
/// sibling that it follows. So the key of a binding, which the bound value
/// follows, stands before every node inside that value; and a scope path
/// holds its segments by the places of their nodes.
pub proof fn lemma_nested_key_stands_later(nodes: Seq<NodeView>, key: int, value: int, inner: int)
    requires
        follows(nodes, value, key),
        inner == value || hangs_on(nodes, inner, value),
    ensures
        key < value <= inner,
{
    lemma_follows_later(nodes, value, key);
    if inner != value {
        lemma_hangs_later(nodes, inner, value);
    }
}

/// A node stands behind every node that it hangs on.
pub proof fn lemma_hangs_later(nodes: Seq<NodeView>, inner: int, outer: int)
    requires
        hangs_on(nodes, inner, outer),
    ensures
        outer < inner,
    decreases inner,
{
    let parent = nodes[inner].parent->0;
    if parent != outer {
        lemma_hangs_later(nodes, parent as int, outer);
    }
}

/// A node stands behind every sibling that it follows.
pub proof fn lemma_follows_later(nodes: Seq<NodeView>, later: int, earlier: int)
    requires
        follows(nodes, later, earlier),
    ensures
        earlier < later,
    decreases later,
{
    let sibling = nodes[later].prev_sibling->0;
    if sibling != earlier {
        lemma_follows_later(nodes, sibling as int, earlier);
    }
}

/// The scope resolver is deterministic: two trees that hold the same nodes
/// give the same scope path for the same start and the same text.
pub proof fn lemma_scope_path_is_determined(
    tree: SyntaxTree,
    same_tree: SyntaxTree,
    source: Seq<char>,
    start: Option<usize>,
)
    requires
        tree@ == same_tree@,
    ensures
        scope_path(tree@, source, start) == scope_path(same_tree@, source, start),
{
}

/// In valid UTF-8, a position is between characters in the whole exactly if
/// it is so in the part that starts at an earlier position between
/// characters.
proof fn lemma_boundary_in_tail(bytes: Seq<u8>, start: int, end: int)
    requires
        valid_utf8(bytes),
        0 <= start <= end <= bytes.len(),
        is_char_boundary(bytes, start),
    ensures
        valid_utf8(bytes.subrange(start, bytes.len() as int)),
        is_char_boundary(bytes, end) <==> is_char_boundary(
            bytes.subrange(start, bytes.len() as int),
            end - start,
        ),
{
    let tail = bytes.subrange(start, bytes.len() as int);
    valid_utf8_split(bytes, start);
    if end < bytes.len() {
        is_char_boundary_iff_not_is_continuation_byte(bytes, end);
        is_char_boundary_iff_not_is_continuation_byte(tail, end - start);
        assert(tail[end - start] == bytes[end]);
    } else {
        is_char_boundary_start_end_of_seq(bytes);
        is_char_boundary_start_end_of_seq(tail);
    }
}

/// The text of `source` from byte `start` up to byte `end`, if the two
/// offsets delimit text.
pub fn slice_text(source: &str, start: usize, end: usize) -> (text: Option<String>)
    ensures
        text.deep_view() == span_text(source@, start as int, end as int),
{
    broadcast use encode_utf8_valid_utf8, encode_utf8_decode_utf8;

    let ghost bytes = source.spec_bytes();
    let length = source.as_bytes().len();
    if start <= end && end <= length && source.is_char_boundary(start)
        && source.is_char_boundary(end) {
        let (_, tail) = source.split_at(start);
        proof {
            lemma_boundary_in_tail(bytes, start as int, end as int);
        }
        let (middle, _) = tail.split_at(end - start);
        proof {
            assert(middle.spec_bytes() == bytes.subrange(start as int, end as int));
            assert(decode_utf8(encode_utf8(middle@)) == middle@);
        }
        Some(String::from_str(middle))
    } else {
        None
    }
}

impl View for SyntaxTree {
    type V = Seq<NodeView>;

    closed spec fn view(&self) -> Seq<NodeView> {
        self.nodes@.map_values(|node: SyntaxNode| node@)
    }
}

impl SyntaxTree {
    /// What holds of every tree: its nodes are well linked.
    #[verifier::type_invariant]
    pub open spec fn linked(self) -> bool {
        well_linked(self@)
    }

    /// The tree without nodes.
    pub fn new() -> (tree: SyntaxTree)
        ensures
            tree@.len() == 0,
    {
        SyntaxTree { nodes: Vec::new() }
    }

    /// How many nodes the tree has.
    pub fn len(&self) -> (n: usize)
        ensures
            n == self@.len(),
    {
        self.nodes.len()
    }

    /// The node at position `at`.
    pub fn node(&self, at: usize) -> (node: Option<&SyntaxNode>)
        ensures
            match node {
                Some(found) => at < self@.len() && found@ == self@[at as int],
                None => at >= self@.len(),
            },
    {
        if at < self.nodes.len() {
            Some(&self.nodes[at])
        } else {
            None
        }
    }

    /// Adds `node` behind the nodes of the tree and returns its position.
    /// A node that does not fit there is not added.
    pub fn push(&mut self, node: SyntaxNode) -> (at: Option<usize>)
        ensures
            match at {
                Some(position) => {
                    &&& fits(old(self)@, node@)
                    &&& position == old(self)@.len()
                    &&& final(self)@ == old(self)@.push(node@)
                },
                None => !fits(old(self)@, node@) && final(self)@ == old(self)@,
            },
    {
        proof {
            use_type_invariant(&*self);
        }
        let n = self.nodes.len();
        let parent_fits = match node.parent {
            Some(parent) => parent < n,
            None => true,
        };
        let sibling_fits = match node.prev_sibling {
            Some(sibling) => sibling < n && same_link(self.nodes[sibling].parent, node.parent),
            None => true,
        };
        if parent_fits && sibling_fits {
            let ghost before = self@;
            let ghost added = node@;
            let mut nodes: Vec<SyntaxNode> = Vec::new();
            core::mem::swap(&mut self.nodes, &mut nodes);
            nodes.push(node);
            proof {
                let after = nodes@.map_values(|node: SyntaxNode| node@);
                assert(after == before.push(added));
                assert forall|i: int| 0 <= i < after.len() implies fits(
                    after.take(i),
                    #[trigger] after[i],
                ) by {
                    if i < n {
                        assert(after.take(i) == before.take(i));
                    } else {
                        assert(after.take(i) == before);
                    }
                }
            }
            core::mem::swap(&mut self.nodes, &mut nodes);
            Some(n)
        } else {
            None
        }
    }

    /// Resolves the scope at node `start`: walks back from it, to the
    /// sibling before the current node where there is one and to the parent
    /// otherwise, and collects the text that `source` holds for every
    /// attribute path on the way. The path comes outermost first. Without a
    /// start, or with one that is no node of the tree, it is empty.
    pub fn get_scope(&self, start: Option<usize>, source: &str) -> (path: Vec<String>)
        ensures
            path.deep_view() == scope_path(self@, source@, start),
    {
        proof {
            use_type_invariant(self);
        }
        let mut found: Vec<String> = Vec::new();
        let attrpath = String::from_str("attrpath");
        let mut at: Option<usize> = match start {
            Some(first) => if first < self.nodes.len() {
                Some(first)
            } else {
                None
            },
            None => None,
        };
        let ghost whole = match start {
            Some(first) => walk_back(self@, source@, first as int),
            None => Seq::empty(),
        };
        assert(found.deep_view() + whole == whole);
        while at.is_some()
            invariant
                well_linked(self@),
                attrpath@ == "attrpath"@,
                at matches Some(i) ==> i < self.nodes@.len(),
                found.deep_view() + (match at {
                    Some(i) => walk_back(self@, source@, i as int),
                    None => Seq::empty(),
                }) == whole,
            decreases
                match at {
                    Some(i) => i + 1,
                    None => 0,
                },
        {
            let i = at.unwrap();
            let node = &self.nodes[i];
            let ghost before = found.deep_view();
            let ghost here = segment(node@, source@);
            assert(self@[i as int] == node@);
            if node.kind == attrpath {
                match slice_text(source, node.start_byte, node.end_byte) {
                    Some(text) => {
                        found.push(text);
                        assert(found.deep_view() == before.push(text@));
                    },
                    None => {},
                }
            }
            assert(found.deep_view() == before + here);
            let next = match node.prev_sibling {
                Some(sibling) => Some(sibling),
                None => node.parent,
            };
            proof {
                assert(fits(self@.take(i as int), self@[i as int]));
                assert(next == step_back(node@));
                let rest = match next {
                    Some(j) => walk_back(self@, source@, j as int),
                    None => Seq::empty(),
                };
                assert(walk_back(self@, source@, i as int) == here + rest);
                assert((before + here) + rest == before + (here + rest));
            }
            at = next;
        }
        let ghost inner_first = found.deep_view();
        assert(inner_first == whole);
        let mut path: Vec<String> = Vec::new();
        while found.len() > 0
            invariant
                found.deep_view() == inner_first.take(found@.len() as int),
                path@.len() + found@.len() == inner_first.len(),
                forall|k: int|
                    0 <= k < path@.len() ==> #[trigger] path@[k]@ == inner_first[inner_first.len()
                        - 1 - k],
            decreases found.len(),
        {
            let ghost remaining = found.deep_view();
            let last = found.pop().unwrap();
            assert(last@ == remaining[remaining.len() - 1]);
            assert(found.deep_view() == remaining.drop_last());
            path.push(last);
        }
        assert(path.deep_view() == inner_first.reverse());
        path
    }
}

/// Whether two links are the same.
fn same_link(a: Option<usize>, b: Option<usize>) -> (same: bool)
    ensures
        same == (a == b),
{
    match (a, b) {
        (Some(x), Some(y)) => x == y,
        (None, None) => true,
        _ => false,
    }
}

} // verus!
