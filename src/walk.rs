//! The depth-first walk over the relationship graph, as a state machine.
//!
//! One step looks at the frame on top of the stack: it pops the frame once all
//! edges of its node are seen, or follows the next edge and, where that edge
//! reaches an unvisited table, records the table, its join chain and a new frame.
use vstd::prelude::*;

use crate::schema::Schema;

verus! {

/// One link of a join chain: the walk went from table `from` to table `to`
/// over the relation at position `relation`; `forward` when that relation runs
/// from `from` to `to`, as declared.
#[derive(Debug, Clone, Copy, PartialEq, Eq, Structural)]
pub struct JoinStep {
    pub from: usize,
    pub to: usize,
    pub relation: usize,
    pub forward: bool,
}

/// The state of the walk: stack frames (node, next edge), the visited flags,
/// the tables in order of visit, and the join chain of each visited table.
pub struct Walk {
    pub frames: Seq<(usize, usize)>,
    pub visited: Seq<bool>,
    pub order: Seq<usize>,
    pub paths: Seq<Seq<JoinStep>>,
}

/// The first position below `n` in `rels` of a relation that runs from `a` to `b`, or -1.
pub open spec fn first_oriented(s: Schema, rels: Seq<int>, a: int, b: int, n: nat) -> int
    decreases n,
{
    if n == 0 {
        -1
    } else {
        let r = first_oriented(s, rels, a, b, (n - 1) as nat);
        if r >= 0 {
            r
        } else if s.oriented(rels[n - 1], a, b) {
            n - 1
        } else {
            -1
        }
    }
}

/// The relation that joins `a` to `b` when the walk goes from `a` to `b`: the
/// first one (by position) declared from `a` to `b`; failing that, the first one
/// declared from `b` to `a`. The flag tells which of the two it is.
pub open spec fn step_for(s: Schema, a: int, b: int) -> (int, bool) {
    let rels = s.edge_relations(a, b);
    let f = first_oriented(s, rels, a, b, rels.len());
    if f >= 0 {
        (rels[f], true)
    } else {
        (rels[first_oriented(s, rels, b, a, rels.len())], false)
    }
}

/// `st` is the step that the walk takes from `st.from` to `st.to`.
pub open spec fn step_valid(s: Schema, st: JoinStep) -> bool {
    &&& st.from < s.tables@.len()
    &&& st.to < s.tables@.len()
    &&& s.linked(st.from as int, st.to as int)
    &&& step_for(s, st.from as int, st.to as int) == (st.relation as int, st.forward)
}

/// `p` is a chain of steps from table `root` to table `v`.
pub open spec fn chain_ok(s: Schema, root: int, v: int, p: Seq<JoinStep>) -> bool {
    &&& p.len() == 0 ==> v == root
    &&& p.len() > 0 ==> p[0].from == root && p.last().to == v
    &&& forall|j: int| 0 <= j < p.len() - 1 ==> (#[trigger] p[j]).to == p[j + 1].from
    &&& forall|j: int| 0 <= j < p.len() ==> step_valid(s, #[trigger] p[j])
}

/// The walk before its first step: only the root is visited.
pub open spec fn walk_start(s: Schema, root: int) -> Walk {
    Walk {
        frames: seq![(root as usize, 0usize)],
        visited: Seq::new(s.tables@.len(), |v: int| v == root),
        order: seq![root as usize],
        paths: Seq::new(s.tables@.len(), |v: int| Seq::<JoinStep>::empty()),
    }
}

/// One step of the walk; a walk with an empty stack stays as it is.
pub open spec fn walk_step(s: Schema, w: Walk) -> Walk {
    if w.frames.len() == 0 {
        w
    } else {
        let u = w.frames.last().0;
        let i = w.frames.last().1;
        let nb = s.neighbors(u as int);
        if i >= nb.len() {
            Walk { frames: w.frames.drop_last(), visited: w.visited, order: w.order, paths: w.paths }
        } else {
            let v = nb[i as int];
            let frames = w.frames.update(w.frames.len() - 1, (u, (i + 1) as usize));
            if w.visited[v] {
                Walk { frames, visited: w.visited, order: w.order, paths: w.paths }
            } else {
                let (r, fwd) = step_for(s, u as int, v);
                let st = JoinStep { from: u, to: v as usize, relation: r as usize, forward: fwd };
                Walk {
                    frames: frames.push((v as usize, 0usize)),
                    visited: w.visited.update(v, true),
                    order: w.order.push(v as usize),
                    paths: w.paths.update(v, w.paths[u as int].push(st)),
                }
            }
        }
    }
}

/// The walk after `k` steps.
pub open spec fn walk_after(s: Schema, root: int, k: nat) -> Walk
    decreases k,
{
    if k == 0 {
        walk_start(s, root)
    } else {
        walk_step(s, walk_after(s, root, (k - 1) as nat))
    }
}

/// After `k` steps the stack is empty: the walk is over.
pub open spec fn walk_ends_at(s: Schema, root: int, k: nat) -> bool {
    walk_after(s, root, k).frames.len() == 0
}

/// The walk from `root` comes to an end.
pub open spec fn walk_ends(s: Schema, root: int) -> bool {
    exists|k: nat| walk_ends_at(s, root, k)
}

/// The finished walk from `root`.
pub open spec fn walk_result(s: Schema, root: int) -> Walk {
    walk_after(s, root, choose|k: nat| walk_ends_at(s, root, k))
}

/// Once over, the walk stays as it is.
pub proof fn lemma_walk_stays(s: Schema, root: int, k: nat, m: nat)
    requires
        walk_ends_at(s, root, k),
        k <= m,
    ensures
        walk_after(s, root, m) == walk_after(s, root, k),
    decreases m - k,
{
    if k < m {
        lemma_walk_stays(s, root, k, (m - 1) as nat);
    }
}

/// The walk has one outcome.
pub proof fn lemma_walk_result(s: Schema, root: int, k: nat)
    requires
        walk_ends_at(s, root, k),
    ensures
        walk_ends(s, root),
        walk_result(s, root) == walk_after(s, root, k),
{
    let j = choose|j: nat| walk_ends_at(s, root, j);
    if j <= k {
        lemma_walk_stays(s, root, j, k);
    } else {
        lemma_walk_stays(s, root, k, j);
    }
}

/// Frame `f` is in range and every edge of its node before its position reaches a visited table.
pub open spec fn frame_ok(s: Schema, w: Walk, f: int) -> bool {
    let u = w.frames[f].0 as int;
    &&& u < s.tables@.len()
    &&& w.visited[u]
    &&& w.frames[f].1 <= s.neighbors(u).len()
    &&& forall|j: int| 0 <= j < w.frames[f].1 ==> w.visited[#[trigger] s.neighbors(u)[j]]
}

/// Table `v` has a frame on the stack.
pub open spec fn on_stack(w: Walk, v: int) -> bool {
    exists|f: int| 0 <= f < w.frames.len() && w.frames[f].0 as int == v
}

/// Every table linked to `v` is visited.
pub open spec fn explored(s: Schema, w: Walk, v: int) -> bool {
    forall|j: int| 0 <= j < s.neighbors(v).len() ==> w.visited[#[trigger] s.neighbors(v)[j]]
}

/// What holds of the walk from `root` before and after every step.
pub open spec fn walk_inv(s: Schema, root: int, w: Walk) -> bool {
    let n = s.tables@.len();
    &&& n <= usize::MAX
    &&& s.relations@.len() <= usize::MAX
    &&& 0 <= root < n
    &&& w.visited.len() == n
    &&& w.paths.len() == n
    &&& w.visited[root]
    &&& w.paths[root].len() == 0
    &&& w.order.len() > 0 && w.order[0] == root
    &&& w.order.no_duplicates()
    &&& forall|j: int| 0 <= j < w.order.len() ==> (#[trigger] w.order[j]) < n && w.visited[w.order[j] as int]
    &&& forall|v: int| 0 <= v < n && #[trigger] w.visited[v] ==> w.order.contains(v as usize)
    &&& forall|f: int| 0 <= f < w.frames.len() ==> #[trigger] frame_ok(s, w, f)
    &&& forall|v: int| 0 <= v < n && #[trigger] w.visited[v] ==> on_stack(w, v) || explored(s, w, v)
    &&& forall|v: int| 0 <= v < n && #[trigger] w.visited[v] ==> chain_ok(s, root, v, w.paths[v])
}

/// What is left of the frames: the edges still to look at, and one pop each.
pub open spec fn frames_weight(s: Schema, frames: Seq<(usize, usize)>) -> int
    decreases frames.len(),
{
    if frames.len() == 0 {
        0
    } else {
        frames_weight(s, frames.drop_last()) + s.neighbors(frames.last().0 as int).len() - frames.last().1 + 1
    }
}

/// A repetition-free list of indices below `n` has at most `n` entries.
pub proof fn lemma_distinct_bound(o: Seq<usize>, n: nat)
    requires
        o.no_duplicates(),
        forall|j: int| 0 <= j < o.len() ==> #[trigger] o[j] < n,
    ensures
        o.len() <= n,
{
    let o2 = o.map_values(|x: usize| x as int);
    assert(o2.no_duplicates()) by {
        assert forall|i: int, j: int| 0 <= i < o2.len() && 0 <= j < o2.len() && i != j implies o2[i] != o2[j] by {
            assert(o[i] != o[j]);
        }
    }
    o2.unique_seq_to_set();
    assert(o2.to_set().subset_of(vstd::set_lib::set_int_range(0, n as int))) by {
        assert forall|x: int| o2.to_set().contains(x) implies 0 <= x < n by {
            let j = choose|j: int| 0 <= j < o2.len() && o2[j] == x;
            assert(o[j] < n);
        }
    }
    vstd::set_lib::lemma_int_range(0, n as int);
    vstd::set_lib::lemma_len_subset(o2.to_set(), vstd::set_lib::set_int_range(0, n as int));
}

pub proof fn lemma_start_inv(s: Schema, root: int)
    requires
        0 <= root < s.tables@.len(),
        s.tables@.len() <= usize::MAX,
        s.relations@.len() <= usize::MAX,
    ensures
        walk_inv(s, root, walk_start(s, root)),
{
    let w = walk_start(s, root);
    assert(on_stack(w, root)) by {
        assert(w.frames[0].0 as int == root);
    }
    assert(w.order.contains(root as usize)) by {
        assert(w.order[0] == root as usize);
    }
    assert forall|f: int| 0 <= f < w.frames.len() implies #[trigger] frame_ok(s, w, f) by {
        assert(f == 0);
    }
}

/// A step keeps the invariant, and a step on a non-empty stack brings the
/// visited count up, or keeps it and brings the frames' weight down.
pub proof fn lemma_step_inv(s: Schema, root: int, w: Walk)
    requires
        walk_inv(s, root, w),
    ensures
        walk_inv(s, root, walk_step(s, w)),
        w.order.len() <= s.tables@.len(),
        w.frames.len() > 0 ==> w.order.len() < walk_step(s, w).order.len() || (w.order.len()
            == walk_step(s, w).order.len() && frames_weight(s, walk_step(s, w).frames)
            < frames_weight(s, w.frames)),
        frames_weight(s, w.frames) >= 0,
        walk_step(s, w).order.len() <= s.tables@.len(),
        frames_weight(s, walk_step(s, w).frames) >= 0,
{
    let n = s.tables@.len();
    lemma_distinct_bound(w.order, n as nat);
    lemma_weight_nonneg(s, root, w, w.frames.len() as int);
    if w.frames.len() == 0 {
        return;
    }
    lemma_step_cases(s, root, w);
    lemma_distinct_bound(walk_step(s, w).order, n as nat);
    lemma_weight_nonneg(s, root, walk_step(s, w), walk_step(s, w).frames.len() as int);
}

proof fn lemma_step_cases(s: Schema, root: int, w: Walk)
    requires
        walk_inv(s, root, w),
        w.frames.len() > 0,
    ensures
        walk_inv(s, root, walk_step(s, w)),
        w.order.len() < walk_step(s, w).order.len() || (w.order.len()
            == walk_step(s, w).order.len() && frames_weight(s, walk_step(s, w).frames)
            < frames_weight(s, w.frames)),
{
    let n = s.tables@.len();
    let last = w.frames.len() - 1;
    let u = w.frames.last().0 as int;
    let i = w.frames.last().1 as int;
    assert(frame_ok(s, w, last));
    s.lemma_neighbors_below(u, n as nat);
    if i >= s.neighbors(u).len() {
        lemma_step_pop(s, root, w);
    } else {
        let v = s.neighbors(u)[i];
        assert(0 <= v < n && s.linked(u, v));
        if w.visited[v] {
            lemma_step_seen(s, root, w);
        } else {
            lemma_step_new(s, root, w);
        }
    }
}

proof fn lemma_step_pop(s: Schema, root: int, w: Walk)
    requires
        walk_inv(s, root, w),
        w.frames.len() > 0,
        w.frames.last().1 >= s.neighbors(w.frames.last().0 as int).len(),
    ensures
        walk_inv(s, root, walk_step(s, w)),
        w.order == walk_step(s, w).order,
        frames_weight(s, walk_step(s, w).frames) < frames_weight(s, w.frames),
{
    let n = s.tables@.len();
    let last = w.frames.len() - 1;
    let u = w.frames.last().0 as int;
    let w2 = walk_step(s, w);
    assert(frame_ok(s, w, last));
    assert forall|f: int| 0 <= f < w2.frames.len() implies #[trigger] frame_ok(s, w2, f) by {
        assert(w2.frames[f] == w.frames[f]);
        assert(frame_ok(s, w, f));
    }
    assert forall|v: int| 0 <= v < n && #[trigger] w2.visited[v] implies on_stack(w2, v) || explored(s, w2, v) by {
        if v == u {
            if !on_stack(w2, v) {
                assert(explored(s, w, v));
            }
        } else {
            if on_stack(w, v) {
                let f = choose|f: int| 0 <= f < w.frames.len() && w.frames[f].0 as int == v;
                assert(f != last);
                assert(w2.frames[f].0 as int == v);
            }
        }
    }
}

proof fn lemma_step_seen(s: Schema, root: int, w: Walk)
    requires
        walk_inv(s, root, w),
        w.frames.len() > 0,
        w.frames.last().1 < s.neighbors(w.frames.last().0 as int).len(),
        w.visited[s.neighbors(w.frames.last().0 as int)[w.frames.last().1 as int]],
    ensures
        walk_inv(s, root, walk_step(s, w)),
        w.order == walk_step(s, w).order,
        frames_weight(s, walk_step(s, w).frames) < frames_weight(s, w.frames),
{
    let n = s.tables@.len();
    let last = w.frames.len() - 1;
    let u = w.frames.last().0 as int;
    let i = w.frames.last().1 as int;
    assert(frame_ok(s, w, last));
    s.lemma_neighbors_below(u, n as nat);
    let w2 = walk_step(s, w);
    assert(w2.frames.drop_last() =~= w.frames.drop_last());
    assert(w2.frames.last() == (u as usize, (i + 1) as usize));
    assert(frames_weight(s, w2.frames) == frames_weight(s, w2.frames.drop_last()) + s.neighbors(u).len() - (i + 1) + 1);
    assert forall|x: int| on_stack(w, x) implies on_stack(w2, x) by {
        let f = choose|f: int| 0 <= f < w.frames.len() && w.frames[f].0 as int == x;
        assert(w2.frames[f].0 as int == x);
    }
    assert forall|f: int| 0 <= f < w2.frames.len() implies #[trigger] frame_ok(s, w2, f) by {
        assert(frame_ok(s, w, f));
    }
    assert forall|x: int| 0 <= x < n && #[trigger] w2.visited[x] implies on_stack(w2, x) || explored(s, w2, x) by {
        if on_stack(w, x) {
        }
    }
}

#[verifier::rlimit(30)]
proof fn lemma_step_new(s: Schema, root: int, w: Walk)
    requires
        walk_inv(s, root, w),
        w.frames.len() > 0,
        w.frames.last().1 < s.neighbors(w.frames.last().0 as int).len(),
        !w.visited[s.neighbors(w.frames.last().0 as int)[w.frames.last().1 as int]],
    ensures
        walk_inv(s, root, walk_step(s, w)),
        w.order.len() < walk_step(s, w).order.len(),
{
    let n = s.tables@.len();
    let last = w.frames.len() - 1;
    let u = w.frames.last().0 as int;
    let i = w.frames.last().1 as int;
    assert(frame_ok(s, w, last));
    s.lemma_neighbors_below(u, n as nat);
    let v = s.neighbors(u)[i];
    assert(0 <= v < n && s.linked(u, v));
    let w2 = walk_step(s, w);
    let (r, fwd) = step_for(s, u, v);
    let st = JoinStep { from: u as usize, to: v as usize, relation: r as usize, forward: fwd };
    assert forall|x: int| on_stack(w, x) implies on_stack(w2, x) by {
        let f = choose|f: int| 0 <= f < w.frames.len() && w.frames[f].0 as int == x;
        assert(w2.frames[f].0 as int == x);
    }
    assert(!w.order.contains(v as usize));
    assert(w2.order.no_duplicates());
    assert forall|f: int| 0 <= f < w2.frames.len() implies #[trigger] frame_ok(s, w2, f) by {
        if f < w.frames.len() {
            assert(frame_ok(s, w, f));
            let uf = w2.frames[f].0 as int;
            s.lemma_neighbors_below(uf, n as nat);
            assert forall|j: int| 0 <= j < w2.frames[f].1 implies w2.visited[#[trigger] s.neighbors(uf)[j]] by {
                if f < last || j < i {
                    assert(w.visited[s.neighbors(uf)[j]]);
                }
            }
        }
    }
    assert(on_stack(w2, v)) by {
        assert(w2.frames[w.frames.len() as int].0 as int == v);
    }
    assert forall|x: int| 0 <= x < n && #[trigger] w2.visited[x] implies on_stack(w2, x) || explored(s, w2, x) by {
        if x != v {
            assert(w.visited[x]);
            if !on_stack(w, x) {
                assert(explored(s, w, x));
                s.lemma_neighbors_below(x, n as nat);
                assert forall|j: int| 0 <= j < s.neighbors(x).len() implies w2.visited[#[trigger] s.neighbors(x)[j]] by {
                    assert(w.visited[s.neighbors(x)[j]]);
                }
            }
        }
    }
    assert forall|x: int| 0 <= x < n && #[trigger] w2.visited[x] implies w2.order.contains(x as usize) by {
        if x == v {
            assert(w2.order[w.order.len() as int] == v as usize);
        } else {
            assert(w.visited[x]);
            let j = choose|j: int| 0 <= j < w.order.len() && w.order[j] == x as usize;
            assert(w2.order[j] == x as usize);
        }
    }
    lemma_step_for(s, u, v);
    assert(step_valid(s, st));
    assert(chain_ok(s, root, u, w.paths[u]));
    assert(chain_ok(s, root, v, w.paths[u].push(st)));
    assert forall|x: int| 0 <= x < n && #[trigger] w2.visited[x] implies chain_ok(s, root, x, w2.paths[x]) by {
        if x != v {
            assert(w.visited[x]);
        }
    }
}

proof fn lemma_weight_nonneg(s: Schema, root: int, w: Walk, m: int)
    requires
        walk_inv(s, root, w),
        0 <= m <= w.frames.len(),
    ensures
        frames_weight(s, w.frames.subrange(0, m)) >= 0,
        m == w.frames.len() ==> frames_weight(s, w.frames) >= 0,
    decreases m,
{
    if m > 0 {
        lemma_weight_nonneg(s, root, w, m - 1);
        assert(w.frames.subrange(0, m).drop_last() =~= w.frames.subrange(0, m - 1));
        assert(frame_ok(s, w, m - 1));
    }
    if m == w.frames.len() {
        assert(w.frames.subrange(0, m) =~= w.frames);
    }
}

pub proof fn lemma_first_oriented(s: Schema, rels: Seq<int>, a: int, b: int, n: nat)
    requires
        n <= rels.len(),
    ensures
        -1 <= first_oriented(s, rels, a, b, n) < n,
        first_oriented(s, rels, a, b, n) >= 0 ==> s.oriented(rels[first_oriented(s, rels, a, b, n)], a, b),
        first_oriented(s, rels, a, b, n) >= 0 ==> forall|j: int|
            0 <= j < first_oriented(s, rels, a, b, n) ==> !s.oriented(rels[j], a, b),
        first_oriented(s, rels, a, b, n) == -1 <==> forall|j: int| 0 <= j < n ==> !s.oriented(rels[j], a, b),
    decreases n,
{
    if n > 0 {
        lemma_first_oriented(s, rels, a, b, (n - 1) as nat);
    }
}

/// The relation that the walk uses from `a` to `b` links them, in the stated direction.
pub proof fn lemma_step_for(s: Schema, a: int, b: int)
    requires
        s.linked(a, b),
    ensures
        0 <= step_for(s, a, b).0 < s.relations@.len(),
        s.edge_relations(a, b).contains(step_for(s, a, b).0),
        step_for(s, a, b).1 ==> s.oriented(step_for(s, a, b).0, a, b),
        !step_for(s, a, b).1 ==> s.oriented(step_for(s, a, b).0, b, a),
{
    let rels = s.edge_relations(a, b);
    s.lemma_relations_below(a, b, s.relations@.len());
    lemma_first_oriented(s, rels, a, b, rels.len());
    lemma_first_oriented(s, rels, b, a, rels.len());
    let k = choose|k: int| 0 <= k < s.relations@.len() && #[trigger] s.connects(k, a, b);
    assert(rels.len() > 0);
    if first_oriented(s, rels, a, b, rels.len()) < 0 {
        assert(!s.oriented(rels[0], a, b));
        assert(s.connects(rels[0], a, b));
    }
}

pub proof fn lemma_first_oriented_tail(s: Schema, rels: Seq<int>, a: int, b: int, n: nat)
    requires
        n <= rels.len(),
        first_oriented(s, rels, a, b, n) >= 0,
    ensures
        first_oriented(s, rels, a, b, rels.len()) == first_oriented(s, rels, a, b, n),
    decreases rels.len() - n,
{
    if n < rels.len() {
        lemma_first_oriented_tail(s, rels, a, b, n + 1);
    }
}

/// Each visited table, in order of visit, with its join chain.
pub open spec fn reached_of(w: Walk) -> Seq<(usize, Seq<JoinStep>)> {
    w.order.map_values(|v: usize| (v, w.paths[v as int]))
}

/// What the walk from `root` reaches: each table in order of visit, with its join chain.
pub open spec fn walk_reached(s: Schema, root: int) -> Seq<(usize, Seq<JoinStep>)> {
    reached_of(walk_result(s, root))
}

/// The conditions on a schema and a root under which the walk is studied:
/// the root is a table, and the table and relation counts fit in a `usize`.
pub open spec fn walk_input(s: Schema, root: int) -> bool {
    &&& 0 <= root < s.tables@.len()
    &&& s.tables@.len() <= usize::MAX
    &&& s.relations@.len() <= usize::MAX
}

/// `p` is a sequence of tables from `root` to `v`, each linked to the next.
pub open spec fn linked_route(s: Schema, root: int, v: int, p: Seq<int>) -> bool {
    &&& p.len() > 0
    &&& p[0] == root
    &&& p.last() == v
    &&& forall|j: int| 0 <= j < p.len() ==> 0 <= #[trigger] p[j] < s.tables@.len()
    &&& forall|j: int| 0 <= j < p.len() - 1 ==> s.linked(#[trigger] p[j], p[j + 1])
}

/// Table `v` is reachable from `root` through foreign keys, followed either way.
pub open spec fn reachable(s: Schema, root: int, v: int) -> bool {
    exists|p: Seq<int>| linked_route(s, root, v, p)
}

pub proof fn lemma_inv_after(s: Schema, root: int, k: nat)
    requires
        walk_input(s, root),
    ensures
        walk_inv(s, root, walk_after(s, root, k)),
    decreases k,
{
    if k == 0 {
        lemma_start_inv(s, root);
    } else {
        lemma_inv_after(s, root, (k - 1) as nat);
        lemma_step_inv(s, root, walk_after(s, root, (k - 1) as nat));
    }
}

proof fn lemma_ends_from(s: Schema, root: int, k: nat)
    requires
        walk_input(s, root),
    ensures
        walk_ends(s, root),
    decreases s.tables@.len() - walk_after(s, root, k).order.len(), frames_weight(
        s,
        walk_after(s, root, k).frames,
    ),
{
    lemma_inv_after(s, root, k);
    lemma_step_inv(s, root, walk_after(s, root, k));
    if walk_after(s, root, k).frames.len() > 0 {
        assert(walk_after(s, root, k + 1) == walk_step(s, walk_after(s, root, k)));
        lemma_ends_from(s, root, k + 1);
    } else {
        assert(walk_ends_at(s, root, k));
    }
}

/// The walk from any table of the schema comes to an end, and what it holds
/// then keeps the invariant.
pub proof fn lemma_walk_terminates(s: Schema, root: int)
    requires
        walk_input(s, root),
    ensures
        walk_ends(s, root),
        walk_inv(s, root, walk_result(s, root)),
        walk_result(s, root).frames.len() == 0,
{
    lemma_ends_from(s, root, 0);
    let k = choose|k: nat| walk_ends_at(s, root, k);
    lemma_inv_after(s, root, k);
}

/// Every table reachable from the root through foreign keys, in either
/// direction, is among the tables that the walk reaches.
pub proof fn lemma_walk_complete(s: Schema, root: int, v: int)
    requires
        walk_input(s, root),
        reachable(s, root, v),
    ensures
        exists|j: int| 0 <= j < walk_reached(s, root).len() && walk_reached(s, root)[j].0 == v,
{
    lemma_walk_terminates(s, root);
    let w = walk_result(s, root);
    let n = s.tables@.len();
    let p = choose|p: Seq<int>| linked_route(s, root, v, p);
    lemma_route_visited(s, root, w, p, v, p.len() - 1);
    assert(w.visited[v]);
    let i = choose|i: int| 0 <= i < w.order.len() && w.order[i] == v as usize;
    assert(walk_reached(s, root)[i].0 == v);
}

/// The walk reaches no table twice, reaches the root first, and so reaches at
/// most as many tables as the schema has.
pub proof fn lemma_walk_no_repeat(s: Schema, root: int)
    requires
        walk_input(s, root),
    ensures
        walk_reached(s, root).len() <= s.tables@.len(),
        walk_reached(s, root)[0] == (root as usize, Seq::<JoinStep>::empty()),
        forall|i: int, j: int|
            0 <= i < j < walk_reached(s, root).len() ==> walk_reached(s, root)[i].0
                != walk_reached(s, root)[j].0,
{
    lemma_walk_terminates(s, root);
    let w = walk_result(s, root);
    lemma_distinct_bound(w.order, s.tables@.len() as nat);
    assert forall|i: int, j: int| 0 <= i < j < walk_reached(s, root).len() implies walk_reached(
        s,
        root,
    )[i].0 != walk_reached(s, root)[j].0 by {
        assert(w.order[i] != w.order[j]);
    }
}

/// Each table that the walk reaches comes with a chain of joins from the root
/// to it, each join over a relation that links its two tables.
pub proof fn lemma_walk_chains(s: Schema, root: int)
    requires
        walk_input(s, root),
    ensures
        forall|j: int|
            0 <= j < walk_reached(s, root).len() ==> (#[trigger] walk_reached(s, root)[j]).0
                < s.tables@.len() && chain_ok(s, root, walk_reached(s, root)[j].0 as int, walk_reached(s, root)[j].1),
{
    lemma_walk_terminates(s, root);
    let w = walk_result(s, root);
    assert forall|j: int| 0 <= j < walk_reached(s, root).len() implies (#[trigger] walk_reached(s, root)[j]).0
                < s.tables@.len() && chain_ok(s, root, walk_reached(s, root)[j].0 as int, walk_reached(s, root)[j].1) by {
        assert(w.order[j] < s.tables@.len());
        assert(w.visited[w.order[j] as int]);
    }
}

/// A table whose foreign key points at itself is reached exactly once, when it
/// is reachable at all.
pub proof fn lemma_self_reference_once(s: Schema, root: int, k: int)
    requires
        walk_input(s, root),
        0 <= k < s.relations@.len(),
        s.source_of(k) == s.target_of(k),
        reachable(s, root, s.source_of(k)),
    ensures
        exists|j: int|
            0 <= j < walk_reached(s, root).len() && walk_reached(s, root)[j].0 == s.source_of(k) && forall|i: int|
                0 <= i < walk_reached(s, root).len() && i != j ==> walk_reached(s, root)[i].0 != s.source_of(k),
{
    lemma_walk_complete(s, root, s.source_of(k));
    lemma_walk_no_repeat(s, root);
    let r = walk_reached(s, root);
    let j = choose|j: int| 0 <= j < r.len() && r[j].0 == s.source_of(k);
    assert forall|i: int| 0 <= i < r.len() && i != j implies r[i].0 != s.source_of(k) by {
        if i < j {
            assert(r[i].0 != r[j].0);
        } else {
            assert(r[j].0 != r[i].0);
        }
    }
}

/// Where a relation is declared from `a` to `b`, the walk from `a` to `b` joins
/// on a relation declared in that direction, never on one declared the other way.
pub proof fn lemma_direction_kept(s: Schema, a: int, b: int, k: int)
    requires
        0 <= k < s.relations@.len(),
        s.oriented(k, a, b),
    ensures
        step_for(s, a, b).1,
        s.oriented(step_for(s, a, b).0, a, b),
        s.edge_relations(a, b).contains(step_for(s, a, b).0),
{
    assert(s.connects(k, a, b));
    lemma_step_for(s, a, b);
    if !step_for(s, a, b).1 {
        let rels = s.edge_relations(a, b);
        s.lemma_relations_below(a, b, s.relations@.len());
        lemma_first_oriented(s, rels, a, b, rels.len());
        lemma_relations_complete(s, a, b, k, s.relations@.len());
        let j = choose|j: int| 0 <= j < rels.len() && rels[j] == k;
        assert(s.oriented(rels[j], a, b));
    }
}

/// Every relation that connects `a` and `b` is kept on their edge.
pub proof fn lemma_relations_complete(s: Schema, a: int, b: int, k: int, n: nat)
    requires
        0 <= k < n,
        s.connects(k, a, b),
    ensures
        s.relations_below(a, b, n).contains(k),
    decreases n,
{
    if k < n - 1 {
        lemma_relations_complete(s, a, b, k, (n - 1) as nat);
        let p = s.relations_below(a, b, (n - 1) as nat);
        let j = choose|j: int| 0 <= j < p.len() && p[j] == k;
        if s.connects(n - 1, a, b) {
            assert(p.push(n - 1)[j] == k);
        }
    } else {
        let p = s.relations_below(a, b, (n - 1) as nat);
        assert(p.push(n - 1)[p.len() as int] == k);
    }
}

proof fn lemma_route_visited(s: Schema, root: int, w: Walk, p: Seq<int>, v: int, j: int)
    requires
        walk_inv(s, root, w),
        w.frames.len() == 0,
        linked_route(s, root, v, p),
        0 <= j < p.len(),
    ensures
        w.visited[p[j]],
    decreases j,
{
    if j > 0 {
        lemma_route_visited(s, root, w, p, v, j - 1);
        let a = p[j - 1];
        let b = p[j];
        assert(s.linked(a, b));
        s.lemma_neighbors_below(a, s.tables@.len() as nat);
        let i = choose|i: int| 0 <= i < s.neighbors(a).len() && s.neighbors(a)[i] == b;
        assert(!on_stack(w, a));
        assert(explored(s, w, a));
        assert(w.visited[s.neighbors(a)[i]]);
    }
}

} // verus!
