use vstd::prelude::*;
use crate::span::Span;
use vstd::utf8::is_char_boundary;
use crate::splice::{in_bounds, on_boundaries, ordered};

verus! {

/// The syntactic categories that the erasure rules tell apart.
#[derive(Debug, Clone, Copy, PartialEq, Eq, Structural)]
pub enum NodeKind {
    /// A type expression.
    TsType,
    /// A declaration (variable, function, class, type alias, interface, ...).
    Declaration,
    ImportDeclaration,
    ImportSpecifier,
    ExportNamedDeclaration,
    ExportSpecifier,
    /// A type annotation on a binding, parameter or return position.
    TypeAnnotation,
    /// A generic parameter list on a declaration.
    TypeParameterDeclaration,
    /// A generic argument list at a use site.
    TypeParameterInstantiation,
    /// Any other node.
    Other,
}

/// One node of a parsed tree, stored in pre-order.
#[derive(Debug, Clone, Copy, PartialEq, Eq, Structural)]
pub struct Node {
    pub kind: NodeKind,
    /// The node is marked as type-system-only (a `type` import or export, a
    /// type alias, interface or ambient declaration).
    pub type_only: bool,
    pub span: Span,
    /// Index one past the node's last descendant in the pre-order sequence.
    pub subtree_end: usize,
}

/// A parsed tree as the pre-order sequence of its nodes.
#[derive(Debug)]
pub struct SyntaxTree {
    pub nodes: Vec<Node>,
}

/// What the collector does on meeting a node.
#[derive(Debug, Clone, Copy, PartialEq, Eq, Structural)]
pub enum Action {
    /// Record the node's span and skip its descendants.
    Erase,
    /// Look at the node's descendants.
    Descend,
    /// Skip the node and its descendants.
    Skip,
}

/// The erasure rule for one node.
pub open spec fn spec_action(n: Node) -> Action {
    match n.kind {
        NodeKind::TsType => Action::Erase,
        NodeKind::TypeAnnotation => Action::Erase,
        NodeKind::TypeParameterDeclaration => Action::Erase,
        NodeKind::TypeParameterInstantiation => Action::Erase,
        NodeKind::Declaration => if n.type_only { Action::Erase } else { Action::Descend },
        NodeKind::ImportDeclaration => if n.type_only { Action::Erase } else { Action::Descend },
        NodeKind::ExportNamedDeclaration => if n.type_only {
            Action::Erase
        } else {
            Action::Descend
        },
        NodeKind::ImportSpecifier => if n.type_only { Action::Erase } else { Action::Skip },
        NodeKind::ExportSpecifier => if n.type_only { Action::Erase } else { Action::Skip },
        NodeKind::Other => Action::Descend,
    }
}

/// Where the walk goes after skipping the subtree of node `i`: past its last
/// descendant, and always forward, never past the end.
pub open spec fn after_subtree(nodes: Seq<Node>, i: int) -> int {
    let e = nodes[i].subtree_end as int;
    if e <= i {
        i + 1
    } else if e > nodes.len() {
        nodes.len() as int
    } else {
        e
    }
}

/// The spans that a pre-order walk from node `i` records.
pub open spec fn collected_from(nodes: Seq<Node>, i: int) -> Seq<Span>
    decreases nodes.len() - i,
{
    if i < 0 || i >= nodes.len() {
        Seq::empty()
    } else {
        match spec_action(nodes[i]) {
            Action::Erase => seq![nodes[i].span] + collected_from(
                nodes,
                after_subtree(nodes, i),
            ),
            Action::Skip => collected_from(nodes, after_subtree(nodes, i)),
            Action::Descend => collected_from(nodes, i + 1),
        }
    }
}

/// The spans that the walk of the whole tree records, in walk order.
pub open spec fn collected(nodes: Seq<Node>) -> Seq<Span> {
    collected_from(nodes, 0)
}

/// Node `j` is a proper descendant of node `i`.
pub open spec fn descends(nodes: Seq<Node>, i: int, j: int) -> bool {
    i < j < nodes[i].subtree_end
}

/// The nodes form a pre-order tree over a text of `len` bytes: subtrees nest,
/// a descendant's span lies inside its ancestor's, and a node that follows a
/// subtree starts where that subtree's root ends or later.
pub open spec fn well_formed(nodes: Seq<Node>, len: nat) -> bool {
    &&& forall|i: int|
        0 <= i < nodes.len() ==> i < (#[trigger] nodes[i]).subtree_end <= nodes.len()
    &&& forall|i: int|
        0 <= i < nodes.len() ==> (#[trigger] nodes[i]).span.start <= nodes[i].span.end <= len
    &&& forall|i: int, j: int|
        0 <= i < nodes.len() && 0 <= j < nodes.len() && #[trigger] descends(nodes, i, j)
            ==> nodes[j].subtree_end <= nodes[i].subtree_end && nodes[i].span.start
            <= nodes[j].span.start && nodes[j].span.end <= nodes[i].span.end
    &&& forall|i: int, j: int|
        0 <= i < j < nodes.len() && (#[trigger] nodes[i]).subtree_end <= j ==> nodes[i].span.end
            <= (#[trigger] nodes[j]).span.start
}

/// The erasure rule for one node.
pub fn classify(node: &Node) -> (r: Action)
    ensures
        r == spec_action(*node),
{
    match node.kind {
        NodeKind::TsType | NodeKind::TypeAnnotation | NodeKind::TypeParameterDeclaration
        | NodeKind::TypeParameterInstantiation => Action::Erase,
        NodeKind::Declaration | NodeKind::ImportDeclaration
        | NodeKind::ExportNamedDeclaration => {
            if node.type_only {
                Action::Erase
            } else {
                Action::Descend
            }
        },
        NodeKind::ImportSpecifier | NodeKind::ExportSpecifier => {
            if node.type_only {
                Action::Erase
            } else {
                Action::Skip
            }
        },
        NodeKind::Other => Action::Descend,
    }
}

/// Index of the node that follows the subtree of node `i`.
pub fn skip_subtree(nodes: &Vec<Node>, i: usize) -> (r: usize)
    requires
        i < nodes@.len(),
    ensures
        r == after_subtree(nodes@, i as int),
{
    let n = nodes.len();
    let e = nodes[i].subtree_end;
    if e <= i {
        i + 1
    } else if e > n {
        n
    } else {
        e
    }
}

/// On a well-formed tree the walk from node `i` records spans that are in
/// order, disjoint and inside the text, and that start after the span of any
/// node whose subtree ends at or before `i`.
pub proof fn lemma_collected_from(nodes: Seq<Node>, len: nat, i: int)
    requires
        well_formed(nodes, len),
        0 <= i <= nodes.len(),
    ensures
        ordered(collected_from(nodes, i)),
        in_bounds(collected_from(nodes, i), len),
        forall|m: int, k: int|
            0 <= m < nodes.len() && nodes[m].subtree_end <= i && 0 <= k < collected_from(
                nodes,
                i,
            ).len() ==> (#[trigger] nodes[m]).span.end <= (#[trigger] collected_from(nodes, i)[k]).start,
    decreases nodes.len() - i,
{
    if i < nodes.len() {
        let node = nodes[i];
        let e = after_subtree(nodes, i);
        assert(e == node.subtree_end);
        match spec_action(node) {
            Action::Descend => {
                lemma_collected_from(nodes, len, i + 1);
            },
            Action::Skip => {
                lemma_collected_from(nodes, len, e);
            },
            Action::Erase => {
                lemma_collected_from(nodes, len, e);
                let tail = collected_from(nodes, e);
                let all = collected_from(nodes, i);
                assert(all == seq![node.span] + tail);
                assert forall|k: int| 0 < k < all.len() implies all[k] == tail[k - 1] by {}
                assert forall|a: int, b: int| 0 <= a < b < all.len() implies all[a].end
                    <= all[b].start by {
                    if a == 0 {
                        assert(tail[b - 1] == all[b]);
                    } else {
                        assert(tail[a - 1] == all[a]);
                        assert(tail[b - 1] == all[b]);
                    }
                }
                assert forall|m: int, k: int|
                    0 <= m < nodes.len() && nodes[m].subtree_end <= i && 0 <= k
                        < all.len() implies (#[trigger] nodes[m]).span.end <= (#[trigger] all[k]).start by {
                    if k == 0 {
                        assert(nodes[m].span.end <= nodes[i].span.start);
                    } else {
                        assert(tail[k - 1] == all[k]);
                    }
                }
                assert(ordered(all));
            },
        }
    }
}

/// On a well-formed tree the collected spans never partially overlap: they
/// are in increasing order, pairwise disjoint, and all inside the text.
pub proof fn lemma_collected_ordered(tree: &SyntaxTree, len: nat)
    requires
        well_formed(tree.nodes@, len),
    ensures
        ordered(collected(tree.nodes@)),
        in_bounds(collected(tree.nodes@), len),
{
    lemma_collected_from(tree.nodes@, len, 0);
}

/// Every node's span starts and ends on a character boundary of `text`.
pub open spec fn nodes_on_boundaries(nodes: Seq<Node>, text: Seq<u8>) -> bool {
    forall|i: int|
        0 <= i < nodes.len() ==> is_char_boundary(text, (#[trigger] nodes[i]).span.start as int)
            && is_char_boundary(text, nodes[i].span.end as int)
}

/// The walk records only spans of nodes, so spans of nodes on character
/// boundaries give recorded spans on character boundaries.
pub proof fn lemma_collected_from_boundaries(nodes: Seq<Node>, text: Seq<u8>, i: int)
    requires
        nodes_on_boundaries(nodes, text),
    ensures
        on_boundaries(text, collected_from(nodes, i)),
    decreases nodes.len() - i,
{
    if 0 <= i < nodes.len() {
        let e = after_subtree(nodes, i);
        match spec_action(nodes[i]) {
            Action::Descend => {
                lemma_collected_from_boundaries(nodes, text, i + 1);
            },
            Action::Skip => {
                lemma_collected_from_boundaries(nodes, text, e);
            },
            Action::Erase => {
                lemma_collected_from_boundaries(nodes, text, e);
                let tail = collected_from(nodes, e);
                let all = collected_from(nodes, i);
                assert(all == seq![nodes[i].span] + tail);
                assert forall|k: int| 0 <= k < all.len() implies is_char_boundary(
                    text,
                    (#[trigger] all[k]).start as int,
                ) && is_char_boundary(text, all[k].end as int) by {
                    if k > 0 {
                        assert(all[k] == tail[k - 1]);
                    }
                }
            },
        }
    }
}

/// A tree with no node that the rules erase whole yields no span at all, so
/// erasing leaves the text as it was.
pub proof fn lemma_nothing_to_erase(nodes: Seq<Node>, i: int)
    requires
        forall|j: int| 0 <= j < nodes.len() ==> spec_action(#[trigger] nodes[j]) != Action::Erase,
    ensures
        collected_from(nodes, i) == Seq::<Span>::empty(),
    decreases nodes.len() - i,
{
    if 0 <= i < nodes.len() {
        let e = after_subtree(nodes, i);
        match spec_action(nodes[i]) {
            Action::Descend => {
                lemma_nothing_to_erase(nodes, i + 1);
            },
            Action::Skip => {
                lemma_nothing_to_erase(nodes, e);
            },
            Action::Erase => {},
        }
    }
}

} // verus!
