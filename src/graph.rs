//! The relationship graph: one node per table, held in an arena and addressed
//! by index, with one edge per linked table that keeps every relation behind it.
use la_arena::{Arena, Idx, RawIdx};
use vstd::prelude::*;

use crate::schema::Schema;

verus! {

#[verifier::external_type_specification]
#[verifier::external_body]
#[verifier::reject_recursive_types(T)]
pub struct ExArena<T>(Arena<T>);

/// An edge to the node at index `to`, with the positions (in the schema's
/// relation list, ascending) of every relation that links the two tables.
#[derive(Debug, Clone)]
pub struct Edge {
    pub to: usize,
    pub relations: Vec<usize>,
}

/// A table of the graph and its edges, ascending by the index of the node reached.
#[derive(Debug, Clone)]
pub struct TableNode {
    pub name: String,
    pub relations: Vec<Edge>,
}

/// The nodes that an arena holds, in order of allocation.
pub uninterp spec fn arena_nodes(a: Arena<TableNode>) -> Seq<TableNode>;

/// The index of the node reached by each edge.
pub open spec fn edge_targets(edges: Seq<Edge>) -> Seq<int> {
    edges.map_values(|e: Edge| e.to as int)
}

/// Relation positions as integers.
pub open spec fn positions(v: Seq<usize>) -> Seq<int> {
    v.map_values(|k: usize| k as int)
}

/// `node` is the node of table `a` in the graph of `s`.
pub open spec fn node_of(s: Schema, a: int, node: TableNode) -> bool {
    &&& node.name@ == s.tables@[a].name@
    &&& edge_targets(node.relations@) == s.neighbors(a)
    &&& forall|e: int|
        0 <= e < node.relations@.len() ==> positions((#[trigger] node.relations@[e]).relations@)
            == s.edge_relations(a, node.relations@[e].to as int)
}

/// `nodes` is the graph of `s`: one node per table, in table order.
pub open spec fn graph_of(s: Schema, nodes: Seq<TableNode>) -> bool {
    &&& nodes.len() == s.tables@.len()
    &&& forall|a: int| 0 <= a < nodes.len() ==> node_of(s, a, #[trigger] nodes[a])
}

/// Relies on la_arena::Arena::new: a new arena holds nothing.
#[verifier::external_body]
pub(crate) fn new_arena() -> (r: Arena<TableNode>)
    ensures
        arena_nodes(r) == Seq::<TableNode>::empty(),
{
    Arena::new()
}

/// Relies on la_arena::Arena::alloc: the node is appended and its index is the
/// former length (exact while that length fits in a `u32`).
#[verifier::external_body]
pub(crate) fn alloc_node(arena: &mut Arena<TableNode>, node: TableNode) -> (r: usize)
    requires
        arena_nodes(*old(arena)).len() < u32::MAX,
    ensures
        arena_nodes(*final(arena)) == arena_nodes(*old(arena)).push(node),
        r == arena_nodes(*old(arena)).len(),
{
    arena.alloc(node).into_raw().into_u32() as usize
}

/// Relies on la_arena's `Index<Idx<T>>` for `Arena<T>`: the node at index `i`.
#[verifier::external_body]
pub(crate) fn node_at(arena: &Arena<TableNode>, i: usize) -> (r: &TableNode)
    requires
        i < arena_nodes(*arena).len(),
        i <= u32::MAX,
    ensures
        *r == arena_nodes(*arena)[i as int],
{
    &arena[Idx::from_raw(RawIdx::from_u32(i as u32))]
}

} // verus!
