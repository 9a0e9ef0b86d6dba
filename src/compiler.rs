//! Graph building, depth-first traversal and query synthesis.
use la_arena::Arena;
use vstd::prelude::*;

use crate::graph::{
    alloc_node, arena_nodes, edge_targets, graph_of, new_arena, node_at, node_of, positions, Edge,
    TableNode,
};
use crate::schema::{find_table, lemma_index_below, table_index, Schema};
use crate::sqlgen::{
    join_view, lemma_same_plan_same_sql, names, same_plan, select_sql, Filter, Join, On, Select,
};
use crate::walk::{
    first_oriented, lemma_first_oriented, lemma_first_oriented_tail, lemma_start_inv,
    lemma_step_for, lemma_step_inv, lemma_walk_chains, lemma_walk_complete, lemma_walk_no_repeat, reachable, lemma_walk_result, reached_of, step_for,
    walk_after, walk_inv, walk_input, walk_reached, walk_ends, frames_weight, chain_ok, step_valid,
    JoinStep, Walk,
};

verus! {

/// Why a schema or a root table could not be compiled.
#[derive(Debug, Clone, Copy, PartialEq, Eq, Structural)]
pub enum CompileError {
    /// The relation at this position names a table that the schema lacks.
    UnresolvedRelation(usize),
    /// The requested root table is not in the schema.
    UnknownRoot,
}

/// Turns a schema into the queries that export one row and everything related to it.
#[derive(Debug, Clone)]
pub struct Compiler {
    pub schema: Schema,
}

/// The node index of each end of each relation.
pub open spec fn ends_of(s: Schema, ends: Seq<(usize, usize)>) -> bool {
    &&& ends.len() == s.relations@.len()
    &&& forall|k: int|
        0 <= k < ends.len() ==> (#[trigger] ends[k]).0 as int == s.source_of(k) && ends[k].1 as int
            == s.target_of(k) && ends[k].0 < s.tables@.len() && ends[k].1 < s.tables@.len()
}

/// The positions of every relation that links `a` and `b`, ascending.
fn relations_between(s: &Schema, ends: &Vec<(usize, usize)>, a: usize, b: usize) -> (r: Vec<usize>)
    requires
        ends_of(*s, ends@),
    ensures
        positions(r@) == s.edge_relations(a as int, b as int),
{
    let mut rels: Vec<usize> = Vec::new();
    let mut k: usize = 0;
    while k < ends.len()
        invariant
            ends_of(*s, ends@),
            k <= ends.len(),
            positions(rels@) == s.relations_below(a as int, b as int, k as nat),
        decreases ends.len() - k,
    {
        let (x, y) = ends[k];
        if (x == a && y == b) || (x == b && y == a) {
            rels.push(k);
        }
        assert(positions(rels@) =~= s.relations_below(a as int, b as int, (k + 1) as nat));
        k += 1;
    }
    rels
}

/// The edges of node `a`, ascending by the node they reach.
fn edges_of(s: &Schema, ends: &Vec<(usize, usize)>, a: usize) -> (r: Vec<Edge>)
    requires
        ends_of(*s, ends@),
    ensures
        edge_targets(r@) == s.neighbors(a as int),
        forall|e: int|
            0 <= e < r@.len() ==> positions((#[trigger] r@[e]).relations@) == s.edge_relations(
                a as int,
                r@[e].to as int,
            ),
{
    let n = s.tables.len();
    let mut edges: Vec<Edge> = Vec::new();
    let mut b: usize = 0;
    while b < n
        invariant
            ends_of(*s, ends@),
            n == s.tables@.len(),
            b <= n,
            edge_targets(edges@) == s.neighbors_below(a as int, b as nat),
            forall|e: int|
                0 <= e < edges@.len() ==> positions((#[trigger] edges@[e]).relations@)
                    == s.edge_relations(a as int, edges@[e].to as int),
        decreases n - b,
    {
        let rels = relations_between(s, ends, a, b);
        proof {
            s.lemma_relations_below(a as int, b as int, s.relations@.len());
            if s.linked(a as int, b as int) {
                let k = choose|k: int|
                    0 <= k < s.relations@.len() && #[trigger] s.connects(k, a as int, b as int);
                assert(!(forall|k: int|
                    0 <= k < s.relations@.len() ==> !#[trigger] s.connects(k, a as int, b as int)));
            }
            assert(positions(rels@).len() == rels@.len());
        }
        let ghost old_edges = edges@;
        if rels.len() > 0 {
            edges.push(Edge { to: b, relations: rels });
        }
        assert(edge_targets(edges@) =~= s.neighbors_below(a as int, (b + 1) as nat)) by {
            if rels@.len() > 0 {
                assert(edge_targets(old_edges.push(edges@.last())) =~= edge_targets(old_edges).push(
                    b as int,
                ));
            }
        }
        b += 1;
    }
    edges
}

impl Compiler {
    pub fn new(schema: Schema) -> (r: Self)
        ensures
            r.schema == schema,
    {
        Self { schema }
    }

    /// Builds the relationship graph: node `i` is table `i`; an edge joins two
    /// tables for every relation between them and keeps all such relations.
    pub fn build(&self) -> (r: Result<Arena<TableNode>, CompileError>)
        requires
            self.schema.tables@.len() < u32::MAX,
        ensures
            r is Ok <==> self.schema.resolves(),
            match r {
                Ok(arena) => graph_of(self.schema, arena_nodes(arena)),
                Err(e) => match e {
                    CompileError::UnresolvedRelation(k) => {
                        &&& k < self.schema.relations@.len()
                        &&& !self.schema.relation_resolves(k as int)
                        &&& forall|j: int| 0 <= j < k ==> self.schema.relation_resolves(j)
                    },
                    CompileError::UnknownRoot => false,
                },
            },
    {
        let s = &self.schema;
        let n = s.tables.len();
        let mut ends: Vec<(usize, usize)> = Vec::new();
        let mut k: usize = 0;
        while k < s.relations.len()
            invariant
                *s == self.schema,
                n == s.tables@.len(),
                k <= s.relations@.len(),
                ends@.len() == k,
                forall|j: int| 0 <= j < k ==> s.relation_resolves(j),
                forall|j: int|
                    0 <= j < k ==> (#[trigger] ends@[j]).0 as int == s.source_of(j) && ends@[j].1 as int
                        == s.target_of(j) && ends@[j].0 < n && ends@[j].1 < n,
            decreases s.relations@.len() - k,
        {
            let a = find_table(&s.tables, &s.relations[k].table_name);
            let b = find_table(&s.tables, &s.relations[k].foreign_table_name);
            proof {
                lemma_index_below(s.tables@, s.relations@[k as int].table_name@, n as nat);
                lemma_index_below(
                    s.tables@,
                    s.relations@[k as int].foreign_table_name@,
                    n as nat,
                );
            }
            match (a, b) {
                (Some(a), Some(b)) => {
                    ends.push((a, b));
                },
                _ => {
                    assert(!s.relation_resolves(k as int));
                    return Err(CompileError::UnresolvedRelation(k));
                },
            }
            k += 1;
        }
        let mut arena = new_arena();
        let mut a: usize = 0;
        while a < n
            invariant
                *s == self.schema,
                n == s.tables@.len(),
                n < u32::MAX,
                ends_of(*s, ends@),
                a <= n,
                arena_nodes(arena).len() == a,
                forall|x: int| 0 <= x < a ==> node_of(*s, x, #[trigger] arena_nodes(arena)[x]),
            decreases n - a,
        {
            let edges = edges_of(s, &ends, a);
            let node = TableNode { name: s.tables[a].name.clone(), relations: edges };
            alloc_node(&mut arena, node);
            a += 1;
        }
        Ok(arena)
    }
}

/// A table that the walk reached, with the chain of joins from the root to it.
#[derive(Debug, Clone)]
pub struct Reached {
    pub table: usize,
    pub path: Vec<JoinStep>,
}

/// The tables and join chains, as values.
pub open spec fn reached_view(r: Seq<Reached>) -> Seq<(usize, Seq<JoinStep>)> {
    r.map_values(|x: Reached| (x.table, x.path@))
}

/// The join chains, as values.
pub open spec fn paths_view(p: Seq<Vec<JoinStep>>) -> Seq<Seq<JoinStep>> {
    p.map_values(|x: Vec<JoinStep>| x@)
}

/// The node indices of the two tables that relation `k` names.
fn relation_ends(s: &Schema, k: usize) -> (r: (usize, usize))
    requires
        k < s.relations@.len(),
        s.relation_resolves(k as int),
    ensures
        r.0 as int == s.source_of(k as int),
        r.1 as int == s.target_of(k as int),
{
    let a = find_table(&s.tables, &s.relations[k].table_name);
    let b = find_table(&s.tables, &s.relations[k].foreign_table_name);
    match (a, b) {
        (Some(a), Some(b)) => (a, b),
        _ => {
            proof {
                assert(false);
            }
            (0, 0)
        },
    }
}

/// The relation to join on when the walk goes from `a` to `b` (see `step_for`).
fn choose_relation(s: &Schema, rels: &Vec<usize>, a: usize, b: usize) -> (r: (usize, bool))
    requires
        s.resolves(),
        s.linked(a as int, b as int),
        positions(rels@) == s.edge_relations(a as int, b as int),
    ensures
        (r.0 as int, r.1) == step_for(*s, a as int, b as int),
{
    let ghost ps = positions(rels@);
    proof {
        s.lemma_relations_below(a as int, b as int, s.relations@.len());
        lemma_step_for(*s, a as int, b as int);
        lemma_first_oriented(*s, ps, a as int, b as int, ps.len());
        lemma_first_oriented(*s, ps, b as int, a as int, ps.len());
    }
    let mut j: usize = 0;
    while j < rels.len()
        invariant
            s.resolves(),
            ps == positions(rels@),
            ps == s.edge_relations(a as int, b as int),
            forall|i: int| 0 <= i < ps.len() ==> 0 <= #[trigger] ps[i] < s.relations@.len(),
            j <= rels.len(),
            first_oriented(*s, ps, a as int, b as int, j as nat) == -1,
        decreases rels.len() - j,
    {
        let k = rels[j];
        assert(ps[j as int] == k as int);
        let (x, y) = relation_ends(s, k);
        if x == a && y == b {
            proof {
                lemma_first_oriented_tail(*s, ps, a as int, b as int, (j + 1) as nat);
            }
            return (k, true);
        }
        j += 1;
    }
    let mut j: usize = 0;
    while j < rels.len()
        invariant
            s.resolves(),
            ps == positions(rels@),
            ps == s.edge_relations(a as int, b as int),
            forall|i: int| 0 <= i < ps.len() ==> 0 <= #[trigger] ps[i] < s.relations@.len(),
            first_oriented(*s, ps, a as int, b as int, ps.len()) == -1,
            first_oriented(*s, ps, b as int, a as int, ps.len()) >= 0,
            j <= rels.len(),
            first_oriented(*s, ps, b as int, a as int, j as nat) == -1,
        decreases rels.len() - j,
    {
        let k = rels[j];
        assert(ps[j as int] == k as int);
        let (x, y) = relation_ends(s, k);
        if x == b && y == a {
            proof {
                lemma_first_oriented_tail(*s, ps, b as int, a as int, (j + 1) as nat);
            }
            return (k, false);
        }
        j += 1;
    }
    proof {
        assert(false);
    }
    (0, false)
}

/// A copy of `p` with `st` appended.
fn extend_path(p: &Vec<JoinStep>, st: Option<JoinStep>) -> (r: Vec<JoinStep>)
    ensures
        r@ == match st {
            Some(x) => p@.push(x),
            None => p@,
        },
{
    let mut r: Vec<JoinStep> = Vec::new();
    let mut j: usize = 0;
    while j < p.len()
        invariant
            j <= p.len(),
            r@ == p@.subrange(0, j as int),
        decreases p.len() - j,
    {
        r.push(p[j]);
        assert(r@ =~= p@.subrange(0, (j + 1) as int));
        j += 1;
    }
    assert(p@.subrange(0, p.len() as int) =~= p@);
    if let Some(x) = st {
        r.push(x);
    }
    r
}

impl Compiler {
    /// Depth-first walk from `root` over the graph that `build` returned: every
    /// table reachable from the root is visited once, each with the chain of
    /// joins by which it was first reached. The edges of a node are followed in
    /// the schema's table order, so two runs on one schema agree.
    pub fn traversal(&self, arena: &Arena<TableNode>, root: usize) -> (r: Vec<Reached>)
        requires
            graph_of(self.schema, arena_nodes(*arena)),
            self.schema.resolves(),
            root < self.schema.tables@.len(),
            self.schema.tables@.len() < u32::MAX,
        ensures
            walk_ends(self.schema, root as int),
            reached_view(r@) == walk_reached(self.schema, root as int),
    {
        let s = &self.schema;
        let n = s.tables.len();
        let ghost g = arena_nodes(*arena);
        let mut visited: Vec<bool> = Vec::new();
        let mut paths: Vec<Vec<JoinStep>> = Vec::new();
        let mut v: usize = 0;
        while v < n
            invariant
                v <= n,
                root < n,
                visited@ == Seq::new(v as nat, |x: int| x == root),
                paths_view(paths@) == Seq::new(v as nat, |x: int| Seq::<JoinStep>::empty()),
            decreases n - v,
        {
            let ghost before = paths@;
            visited.push(v == root);
            paths.push(Vec::new());
            assert(paths_view(paths@) =~= paths_view(before).push(Seq::<JoinStep>::empty()));
            assert(visited@ =~= Seq::new((v + 1) as nat, |x: int| x == root));
            assert(paths_view(paths@) =~= Seq::new((v + 1) as nat, |x: int| Seq::<JoinStep>::empty()));
            v += 1;
        }
        let mut order: Vec<usize> = Vec::new();
        order.push(root);
        let mut frames: Vec<(usize, usize)> = Vec::new();
        frames.push((root, 0));
        let ghost mut k: nat = 0;
        let nr = s.relations.len();
        proof {
            lemma_start_inv(*s, root as int);
            let w0 = crate::walk::walk_start(*s, root as int);
            assert(visited@ =~= w0.visited);
            assert(paths_view(paths@) =~= w0.paths);
            assert(walk_after(*s, root as int, 0) == w0);
            assert(order@ =~= seq![root]);
            assert(frames@ =~= seq![(root, 0usize)]);
        }
        while frames.len() > 0
            invariant
                *s == self.schema,
                g == arena_nodes(*arena),
                graph_of(*s, g),
                s.resolves(),
                n == s.tables@.len(),
                n < u32::MAX,
                (Walk { frames: frames@, visited: visited@, order: order@, paths: paths_view(paths@) })
                    == walk_after(*s, root as int, k),
                walk_inv(*s, root as int, walk_after(*s, root as int, k)),
            decreases n - order@.len(), frames_weight(*s, frames@),
        {
            let ghost w = walk_after(*s, root as int, k);
            proof {
                lemma_step_inv(*s, root as int, w);
            }
            let top = frames[frames.len() - 1];
            let u = top.0;
            let i = top.1;
            proof {
                assert(crate::walk::frame_ok(*s, w, frames@.len() - 1));
                assert(node_of(*s, u as int, g[u as int]));
            }
            let node = node_at(arena, u);
            assert(node.relations@.len() == s.neighbors(u as int).len()) by {
                assert(edge_targets(node.relations@).len() == node.relations@.len());
            }
            if i >= node.relations.len() {
                frames.pop();
                proof {
                    assert(frames@ =~= w.frames.drop_last());
                }
            } else {
                let e = &node.relations[i];
                let v = e.to;
                assert(v as int == s.neighbors(u as int)[i as int]) by {
                    assert(edge_targets(node.relations@)[i as int] == v as int);
                }
                proof {
                    s.lemma_neighbors_below(u as int, n as nat);
                }
                let last = frames.len() - 1;
                frames.set(last, (u, i + 1));
                if !visited[v] {
                    let (r, fwd) = choose_relation(s, &e.relations, u, v);
                    let st = JoinStep { from: u, to: v, relation: r, forward: fwd };
                    let p = extend_path(&paths[u], Some(st));
                    visited.set(v, true);
                    order.push(v);
                    paths.set(v, p);
                    frames.push((v, 0));
                    proof {
                        lemma_step_for(*s, u as int, v as int);
                        assert(paths_view(paths@) =~= w.paths.update(v as int, w.paths[u as int].push(st)));
                    }
                }
            }
            proof {
                k = k + 1;
                assert(walk_after(*s, root as int, k) == crate::walk::walk_step(*s, w));
            }
            assert((Walk { frames: frames@, visited: visited@, order: order@, paths: paths_view(paths@) })
                == walk_after(*s, root as int, k));
        }
        proof {
            lemma_walk_result(*s, root as int, k);
        }
        let ghost w = walk_after(*s, root as int, k);
        let mut out: Vec<Reached> = Vec::new();
        let mut j: usize = 0;
        while j < order.len()
            invariant
                walk_inv(*s, root as int, w),
                w.order == order@,
                w.paths == paths_view(paths@),
                j <= order@.len(),
                reached_view(out@) == reached_of(w).subrange(0, j as int),
            decreases order@.len() - j,
        {
            let t = order[j];
            assert(t < paths@.len());
            let p = extend_path(&paths[t], None);
            let ghost before = out@;
            out.push(Reached { table: t, path: p });
            assert(reached_view(out@) =~= reached_view(before).push((t, w.paths[t as int])));
            assert(reached_view(out@) =~= reached_of(w).subrange(0, (j + 1) as int));
            j += 1;
        }
        assert(reached_of(w).subrange(0, order@.len() as int) =~= reached_of(w));
        out
    }
}

/// The relation at position `k` is the first that names a table the schema lacks.
pub open spec fn first_unresolved(s: Schema, k: int) -> bool {
    &&& 0 <= k < s.relations@.len()
    &&& !s.relation_resolves(k)
    &&& forall|j: int| 0 <= j < k ==> s.relation_resolves(j)
}


/// `j` is the join that step `st` contributes: it brings in table `st.to` on the
/// columns of the step's relation, each on the side of the table it belongs to.
pub open spec fn join_of(s: Schema, st: JoinStep, j: Join) -> bool {
    let rel = s.relations@[st.relation as int];
    let from = s.tables@[st.from as int].name@;
    let to = s.tables@[st.to as int].name@;
    &&& j.table@ == to
    &&& j.on.left_table@ == from
    &&& j.on.right_table@ == to
    &&& j.on.left@ == (if st.forward {
        rel.column_name@
    } else {
        rel.foreign_column_name@
    })
    &&& j.on.right@ == (if st.forward {
        rel.foreign_column_name@
    } else {
        rel.column_name@
    })
}

/// `q` is the plan for table `t` reached by the chain `path`: all columns of
/// `t`, one join per step in chain order, and the filter on the root row.
pub open spec fn plan_of(
    s: Schema,
    root: int,
    id_column: Seq<char>,
    id_value: Seq<char>,
    t: int,
    path: Seq<JoinStep>,
    q: Select,
) -> bool {
    &&& names(q.columns@) == names(s.tables@[t].columns@)
    &&& q.from@ == s.tables@[t].name@
    &&& q.joins@.len() == path.len()
    &&& forall|j: int| 0 <= j < path.len() ==> join_of(s, path[j], #[trigger] q.joins@[j])
    &&& q.filter.table@ == s.tables@[root].name@
    &&& q.filter.column@ == id_column
    &&& q.filter.value@ == id_value
}

/// `plans` holds one plan per table that the walk from `root` reaches, in order of visit.
pub open spec fn plans_of(
    s: Schema,
    root: int,
    id_column: Seq<char>,
    id_value: Seq<char>,
    plans: Seq<Select>,
) -> bool {
    let r = walk_reached(s, root);
    &&& plans.len() == r.len()
    &&& forall|j: int|
        0 <= j < plans.len() ==> plan_of(s, root, id_column, id_value, r[j].0 as int, r[j].1, #[trigger] plans[j])
}

fn copy_names(v: &Vec<String>) -> (r: Vec<String>)
    ensures
        names(r@) == names(v@),
{
    let mut r: Vec<String> = Vec::new();
    let mut i: usize = 0;
    while i < v.len()
        invariant
            i <= v@.len(),
            names(r@) == names(v@.subrange(0, i as int)),
        decreases v@.len() - i,
    {
        let c = v[i].clone();
        let ghost before = r@;
        r.push(c);
        assert(names(r@) =~= names(v@.subrange(0, (i + 1) as int))) by {
            assert(names(r@) =~= names(before).push(c@));
        }
        i += 1;
    }
    assert(v@.subrange(0, v@.len() as int) =~= v@);
    r
}

impl Compiler {
    /// The join that a step of the walk contributes.
    fn join_for(&self, st: JoinStep) -> (r: Join)
        requires
            step_valid(self.schema, st),
        ensures
            join_of(self.schema, st, r),
    {
        let s = &self.schema;
        proof {
            lemma_step_for(*s, st.from as int, st.to as int);
        }
        let rel = &s.relations[st.relation];
        let from = s.tables[st.from].name.clone();
        let to = s.tables[st.to].name.clone();
        let (left, right) = if st.forward {
            (rel.column_name.clone(), rel.foreign_column_name.clone())
        } else {
            (rel.foreign_column_name.clone(), rel.column_name.clone())
        };
        Join { table: to.clone(), on: On { left_table: from, left, right_table: to, right } }
    }

    /// One query plan per reached table, in the order given: all columns of the
    /// table, the joins of its chain from the root, and the filter
    /// `root.id_column = id_value`.
    pub fn synthesize(&self, root: usize, id_column: &String, id_value: &String, reached: &Vec<Reached>) -> (r: Vec<Select>)
        requires
            root < self.schema.tables@.len(),
            forall|j: int|
                0 <= j < reached@.len() ==> (#[trigger] reached@[j]).table < self.schema.tables@.len()
                    && chain_ok(self.schema, root as int, reached@[j].table as int, reached@[j].path@),
        ensures
            r@.len() == reached@.len(),
            forall|j: int|
                0 <= j < r@.len() ==> plan_of(
                    self.schema,
                    root as int,
                    id_column@,
                    id_value@,
                    reached@[j].table as int,
                    reached@[j].path@,
                    #[trigger] r@[j],
                ),
    {
        let s = &self.schema;
        let mut out: Vec<Select> = Vec::new();
        let mut i: usize = 0;
        while i < reached.len()
            invariant
                *s == self.schema,
                root < s.tables@.len(),
                forall|j: int|
                    0 <= j < reached@.len() ==> (#[trigger] reached@[j]).table < s.tables@.len()
                        && chain_ok(*s, root as int, reached@[j].table as int, reached@[j].path@),
                i <= reached@.len(),
                out@.len() == i,
                forall|j: int|
                    0 <= j < i ==> plan_of(
                        *s,
                        root as int,
                        id_column@,
                        id_value@,
                        reached@[j].table as int,
                        reached@[j].path@,
                        #[trigger] out@[j],
                    ),
            decreases reached@.len() - i,
        {
            let entry = &reached[i];
            assert(chain_ok(*s, root as int, entry.table as int, entry.path@));
            let t = entry.table;
            let mut joins: Vec<Join> = Vec::new();
            let mut j: usize = 0;
            while j < entry.path.len()
                invariant
                    *s == self.schema,
                    chain_ok(*s, root as int, entry.table as int, entry.path@),
                    j <= entry.path@.len(),
                    joins@.len() == j,
                    forall|x: int| 0 <= x < j ==> join_of(*s, entry.path@[x], #[trigger] joins@[x]),
                decreases entry.path@.len() - j,
            {
                assert(step_valid(*s, entry.path@[j as int]));
                let jn = self.join_for(entry.path[j]);
                joins.push(jn);
                j += 1;
            }
            let q = Select {
                columns: copy_names(&s.tables[t].columns),
                from: s.tables[t].name.clone(),
                joins,
                filter: Filter {
                    table: s.tables[root].name.clone(),
                    column: id_column.clone(),
                    value: id_value.clone(),
                },
            };
            out.push(q);
            i += 1;
        }
        out
    }

    /// Every query that exports the row `id_value` (matched on `id_column`) of
    /// table `table_name` and all rows related to it: one plan per table
    /// reachable from it, in order of visit.
    pub fn compile_to_selects(&self, table_name: String, id_column: String, id_value: String) -> (r: Result<Vec<Select>, CompileError>)
        requires
            self.schema.tables@.len() < u32::MAX,
        ensures
            match r {
                Ok(plans) => {
                    &&& self.schema.resolves()
                    &&& table_index(self.schema.tables@, table_name@) >= 0
                    &&& plans_of(
                        self.schema,
                        table_index(self.schema.tables@, table_name@),
                        id_column@,
                        id_value@,
                        plans@,
                    )
                },
                Err(CompileError::UnresolvedRelation(k)) => first_unresolved(self.schema, k as int),
                Err(CompileError::UnknownRoot) => self.schema.resolves() && table_index(
                    self.schema.tables@,
                    table_name@,
                ) == -1,
            },
    {
        let arena = match self.build() {
            Ok(a) => a,
            Err(e) => {
                return Err(e);
            },
        };
        let root = match find_table(&self.schema.tables, &table_name) {
            Some(i) => i,
            None => {
                return Err(CompileError::UnknownRoot);
            },
        };
        let nr = self.schema.relations.len();
        proof {
            lemma_index_below(self.schema.tables@, table_name@, self.schema.tables@.len());
            lemma_walk_chains(self.schema, root as int);
        }
        let reached = self.traversal(&arena, root);
        proof {
            assert forall|j: int| 0 <= j < reached@.len() implies (#[trigger] reached@[j]).table
                < self.schema.tables@.len() && chain_ok(self.schema, root as int, reached@[j].table as int, reached@[j].path@) by {
                assert(reached_view(reached@)[j] == walk_reached(self.schema, root as int)[j]);
            }
        }
        let plans = self.synthesize(root, &id_column, &id_value, &reached);
        proof {
            assert forall|j: int| 0 <= j < plans@.len() implies plan_of(
                self.schema,
                root as int,
                id_column@,
                id_value@,
                walk_reached(self.schema, root as int)[j].0 as int,
                walk_reached(self.schema, root as int)[j].1,
                #[trigger] plans@[j],
            ) by {
                assert(reached_view(reached@)[j] == walk_reached(self.schema, root as int)[j]);
            }
        }
        Ok(plans)
    }
}

/// Two runs of traversal and synthesis on one schema, one root and one row give
/// the same plans in the same order, joins and their order included, down to
/// the SQL text.
pub proof fn lemma_plans_deterministic(
    s: Schema,
    root: int,
    id_column: Seq<char>,
    id_value: Seq<char>,
    a: Seq<Select>,
    b: Seq<Select>,
)
    requires
        plans_of(s, root, id_column, id_value, a),
        plans_of(s, root, id_column, id_value, b),
    ensures
        a.len() == b.len(),
        forall|j: int| 0 <= j < a.len() ==> same_plan(#[trigger] a[j], b[j]) && select_sql(a[j]) == select_sql(b[j]),
{
    let r = walk_reached(s, root);
    assert forall|j: int| 0 <= j < a.len() implies same_plan(#[trigger] a[j], b[j]) && select_sql(a[j]) == select_sql(b[j]) by {
        assert(plan_of(s, root, id_column, id_value, r[j].0 as int, r[j].1, a[j]));
        assert(plan_of(s, root, id_column, id_value, r[j].0 as int, r[j].1, b[j]));
        let ja = a[j].joins@.map_values(|x: Join| join_view(x));
        let jb = b[j].joins@.map_values(|x: Join| join_view(x));
        assert forall|x: int| 0 <= x < ja.len() implies ja[x] == jb[x] by {
            assert(join_of(s, r[j].1[x], a[j].joins@[x]));
            assert(join_of(s, r[j].1[x], b[j].joins@[x]));
        }
        assert(ja =~= jb);
        lemma_same_plan_same_sql(a[j], b[j]);
    }
}

/// Every table reachable from the root through foreign keys, in either
/// direction, has exactly one plan among the plans for that root.
pub proof fn lemma_plans_complete(
    s: Schema,
    root: int,
    id_column: Seq<char>,
    id_value: Seq<char>,
    plans: Seq<Select>,
    v: int,
)
    requires
        walk_input(s, root),
        plans_of(s, root, id_column, id_value, plans),
        reachable(s, root, v),
    ensures
        exists|j: int|
            0 <= j < plans.len() && plan_of(s, root, id_column, id_value, v, walk_reached(s, root)[j].1, plans[j])
                && forall|i: int| 0 <= i < plans.len() && i != j ==> walk_reached(s, root)[i].0 != v,
{
    let r = walk_reached(s, root);
    lemma_walk_complete(s, root, v);
    lemma_walk_no_repeat(s, root);
    let j = choose|j: int| 0 <= j < r.len() && r[j].0 == v;
    assert(plan_of(s, root, id_column, id_value, r[j].0 as int, r[j].1, plans[j]));
    assert forall|i: int| 0 <= i < plans.len() && i != j implies r[i].0 != v by {
        if i < j {
            assert(r[i].0 != r[j].0);
        } else {
            assert(r[j].0 != r[i].0);
        }
    }
}

} // verus!
