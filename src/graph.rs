//! The dependency graph of a requirements document: one node per inline
//! requirement, one edge from each requirement to each resolvable child.
use vstd::prelude::*;
use vstd::string::*;
use petgraph::graph::DiGraph;
use crate::digraph::{
    add_edge, add_node, edge_list, has_cycle, has_edge, is_cycle, is_cyclic, is_topo_order,
    new_graph, node_labels, out_targets, successors, topo_order, INDEX_LIMIT,
};
use crate::error::Error;
use crate::text::text_eq;
use crate::types::{derefs, RequirementConfig, Requirement, RequirementReference};

verus! {

/// Index of the last requirement of `flat` whose summary is `s`, or -1
/// where there is none.
pub open spec fn lookup(flat: Seq<Requirement>, s: Seq<char>) -> int
    decreases flat.len(),
{
    if flat.len() == 0 {
        -1
    } else if flat.last().summary@ == s {
        flat.len() - 1
    } else {
        lookup(flat.drop_last(), s)
    }
}

/// The summary a child names: its own for an inline child, the referenced
/// one for a reference.
pub open spec fn child_key(c: RequirementReference) -> Seq<char> {
    match c {
        RequirementReference::Full(b) => b.summary@,
        RequirementReference::Reference(s) => s@,
    }
}

/// Edges from `src` to each child among `children` that resolves, in order.
pub open spec fn child_edges(
    flat: Seq<Requirement>,
    src: int,
    children: Seq<RequirementReference>,
) -> Seq<(int, int)>
    decreases children.len(),
{
    if children.len() == 0 {
        seq![]
    } else {
        let t = lookup(flat, child_key(children.last()));
        child_edges(flat, src, children.drop_last()) + if t >= 0 {
            seq![(src, t)]
        } else {
            seq![]
        }
    }
}

/// Edges contributed by the first `k` requirements of `flat`. A
/// requirement's edges leave the node that its summary resolves to.
pub open spec fn edges_upto(flat: Seq<Requirement>, k: int) -> Seq<(int, int)>
    decreases k,
{
    if k <= 0 || k > flat.len() {
        seq![]
    } else {
        edges_upto(flat, k - 1) + child_edges(
            flat,
            lookup(flat, flat[k - 1].summary@),
            flat[k - 1].requirements@,
        )
    }
}

/// All edges of the graph built from the flattened requirements `flat`.
pub open spec fn graph_edges(flat: Seq<Requirement>) -> Seq<(int, int)> {
    edges_upto(flat, flat.len() as int)
}

/// Child `j` of requirement `i` is a reference to a summary that no
/// requirement has.
pub open spec fn is_dangling(flat: Seq<Requirement>, i: int, j: int) -> bool {
    &&& 0 <= i < flat.len()
    &&& 0 <= j < flat[i].requirements@.len()
    &&& flat[i].requirements@[j] is Reference
    &&& lookup(flat, child_key(flat[i].requirements@[j])) < 0
}

/// Every reference of `flat` resolves.
pub open spec fn all_resolved(flat: Seq<Requirement>) -> bool {
    forall|i: int, j: int| !is_dangling(flat, i, j)
}

/// Child `j` of requirement `i` is the first dangling reference, in
/// document order.
pub open spec fn first_dangling(flat: Seq<Requirement>, i: int, j: int) -> bool {
    &&& is_dangling(flat, i, j)
    &&& forall|i2: int, j2: int|
        (i2 < i || (i2 == i && j2 < j)) ==> !#[trigger] is_dangling(flat, i2, j2)
}

/// Message for a reference from `src` to the unknown summary `target`.
pub open spec fn dangling_message(src: Seq<char>, target: Seq<char>) -> Seq<char> {
    "Requirement '"@ + src + "' references non-existent '"@ + target + "'"@
}

/// The requirement held for node `i`: the last one that shares its
/// summary.
pub open spec fn node_req(flat: Seq<Requirement>, i: int) -> Requirement {
    flat[lookup(flat, flat[i].summary@)]
}

/// Where the lookup of a summary lands.
pub proof fn lemma_lookup(flat: Seq<Requirement>, s: Seq<char>)
    ensures
        -1 <= lookup(flat, s) < flat.len(),
        lookup(flat, s) >= 0 ==> flat[lookup(flat, s)].summary@ == s,
        lookup(flat, s) >= 0 ==> forall|k: int|
            lookup(flat, s) < k < flat.len() ==> flat[k].summary@ != s,
        lookup(flat, s) < 0 ==> forall|k: int| 0 <= k < flat.len() ==> flat[k].summary@ != s,
    decreases flat.len(),
{
    if flat.len() > 0 {
        let p = flat.drop_last();
        lemma_lookup(p, s);
        assert forall|k: int| 0 <= k < p.len() implies p[k] == flat[k] by {}
    }
}

/// A summary held by some requirement resolves, to that one or a later one.
pub proof fn lemma_lookup_found(flat: Seq<Requirement>, i: int)
    requires
        0 <= i < flat.len(),
    ensures
        i <= lookup(flat, flat[i].summary@) < flat.len(),
{
    lemma_lookup(flat, flat[i].summary@);
}

/// The summaries of the nodes listed in `p`.
pub open spec fn summaries_of(flat: Seq<Requirement>, p: Seq<int>) -> Seq<Seq<char>> {
    p.map_values(|i: int| flat[i].summary@)
}

/// The characters of each string of `v`.
pub open spec fn texts(v: Seq<String>) -> Seq<Seq<char>> {
    v.map_values(|s: String| s@)
}

/// `c` lists the summaries along a cycle of the graph that visits no node
/// twice.
pub open spec fn names_cycle(flat: Seq<Requirement>, edges: Seq<(int, int)>, c: Seq<String>) -> bool {
    exists|p: Seq<int>|
        is_cycle(flat.len() as int, edges, p) && p.no_duplicates() && #[trigger] texts(c)
            == summaries_of(flat, p)
}

/// The node indices of `v` as integers.
pub open spec fn ints(v: Seq<usize>) -> Seq<int> {
    v.map_values(|x: usize| x as int)
}

/// A path of the depth-first search: distinct nodes, none finished, each
/// with an edge to the next.
pub open spec fn is_open_path(n: int, edges: Seq<(int, int)>, path: Seq<usize>, done: Seq<bool>) -> bool {
    &&& path.no_duplicates()
    &&& forall|i: int| 0 <= i < path.len() ==> #[trigger] path[i] < n
    &&& forall|i: int| 0 <= i < path.len() ==> !done[#[trigger] path[i] as int]
    &&& forall|i: int|
        0 <= i < path.len() - 1 ==> has_edge(edges, #[trigger] path[i] as int, path[i + 1] as int)
}

/// Finished nodes only reach finished nodes, each finished earlier.
pub open spec fn is_ranked(n: int, edges: Seq<(int, int)>, done: Seq<bool>, rank: Seq<int>) -> bool {
    forall|u: int, w: int|
        0 <= u < n && 0 <= w < n && done[u] && #[trigger] has_edge(edges, u, w) ==> done[w]
            && rank[w] < rank[u]
}

/// A graph whose edges all lower a rank has no cycle.
pub proof fn lemma_ranked_acyclic(n: int, edges: Seq<(int, int)>, rank: Seq<int>)
    requires
        forall|u: int, w: int| 0 <= u < n && 0 <= w < n && #[trigger] has_edge(edges, u, w) ==> rank[w] < rank[u],
    ensures
        !has_cycle(n, edges),
{
    if has_cycle(n, edges) {
        let p = choose|p: Seq<int>| is_cycle(n, edges, p);
        assert forall|i: int| 0 <= i < p.len() implies rank[#[trigger] p[i]] <= rank[p[0]] - i by {
            lemma_rank_along(n, edges, rank, p, i);
        }
        assert(has_edge(edges, p.last(), p[0]));
        assert(rank[p[p.len() - 1]] <= rank[p[0]] - (p.len() - 1));
    }
}

/// Along a walk whose edges lower a rank, the rank drops by one per step.
proof fn lemma_rank_along(n: int, edges: Seq<(int, int)>, rank: Seq<int>, p: Seq<int>, i: int)
    requires
        forall|u: int, w: int| 0 <= u < n && 0 <= w < n && #[trigger] has_edge(edges, u, w) ==> rank[w] < rank[u],
        is_cycle(n, edges, p),
        0 <= i < p.len(),
    ensures
        rank[p[i]] <= rank[p[0]] - i,
    decreases i,
{
    if i > 0 {
        lemma_rank_along(n, edges, rank, p, i - 1);
        assert(has_edge(edges, p[i - 1], p[i]));
    }
}

/// A list of distinct nodes below `n` has at most `n` entries.
proof fn lemma_distinct_bounded(p: Seq<usize>, n: int)
    requires
        p.no_duplicates(),
        n >= 0,
        forall|i: int| 0 <= i < p.len() ==> #[trigger] p[i] < n,
    ensures
        p.len() <= n,
{
    let q = ints(p);
    assert(q.no_duplicates()) by {
        assert forall|i: int, j: int| 0 <= i < q.len() && 0 <= j < q.len() && i != j implies q[i] != q[j] by {
            assert(p[i] != p[j]);
            assert(q[i] == p[i] as int && q[j] == p[j] as int);
        }
    }
    q.unique_seq_to_set();
    vstd::set_lib::lemma_int_range(0, n);
    assert forall|x: int| q.to_set().contains(x) implies vstd::set_lib::set_int_range(0, n).contains(x) by {
        let i = choose|i: int| 0 <= i < q.len() && q[i] == x;
        assert(q[i] == p[i] as int);
    }
    vstd::set_lib::lemma_len_subset(q.to_set(), vstd::set_lib::set_int_range(0, n));
}

/// Depth below which a traversal must stay.
pub const MAX_TRAVERSAL_DEPTH: usize = 100;

/// The depths recorded in a list of visits.
pub open spec fn depths_of(v: Seq<(&Requirement, usize)>) -> Seq<int> {
    v.map_values(|e: (&Requirement, usize)| e.1 as int)
}

/// `ids` (with `depths`) is a depth-first visit from `root`: it starts at
/// the root at depth 0, lists each node once, reaches each later node by an
/// edge from an earlier node one level up, stays within the depth limit,
/// and leaves out no successor of a listed node.
pub open spec fn is_dfs_visit(n: int, edges: Seq<(int, int)>, root: int, ids: Seq<int>, depths: Seq<int>) -> bool {
    &&& ids.len() == depths.len()
    &&& ids.len() > 0
    &&& ids[0] == root
    &&& depths[0] == 0
    &&& ids.no_duplicates()
    &&& forall|k: int| 0 <= k < ids.len() ==> 0 <= #[trigger] ids[k] < n
    &&& forall|k: int| 0 <= k < ids.len() ==> 0 <= #[trigger] depths[k] <= MAX_TRAVERSAL_DEPTH
    &&& forall|k: int|
        0 < k < ids.len() ==> exists|k2: int|
            0 <= k2 < k && depths[k2] + 1 == #[trigger] depths[k] && has_edge(edges, ids[k2], ids[k])
    &&& forall|k: int, w: int|
        0 <= k < ids.len() && 0 <= w < n && #[trigger] has_edge(edges, ids[k], w) ==> ids.contains(w)
}

/// `p` starts at `root` and each node has an edge to the next.
pub open spec fn is_path_from(edges: Seq<(int, int)>, root: int, p: Seq<usize>) -> bool {
    &&& p.len() > 0 ==> p[0] as int == root
    &&& forall|i: int| 0 <= i < p.len() - 1 ==> has_edge(edges, #[trigger] p[i] as int, p[i + 1] as int)
}

/// `p` is a depth-first path from `root` that reaches the depth limit with
/// a step still to take: distinct nodes, one per level from 0 to the limit,
/// the last with a successor.
pub open spec fn is_too_deep(n: int, edges: Seq<(int, int)>, root: int, p: Seq<usize>) -> bool {
    &&& p.len() == MAX_TRAVERSAL_DEPTH + 1
    &&& p.no_duplicates()
    &&& forall|i: int| 0 <= i < p.len() ==> #[trigger] p[i] < n
    &&& is_path_from(edges, root, p)
    &&& exists|w: int| 0 <= w < n && has_edge(edges, p.last() as int, w)
}

/// Extending a path from `root` by an edge keeps it a path from `root`.
proof fn lemma_path_push(edges: Seq<(int, int)>, root: int, p: Seq<usize>, t: usize)
    requires
        is_path_from(edges, root, p),
        p.len() > 0 ==> has_edge(edges, p.last() as int, t as int),
        p.len() == 0 ==> t as int == root,
    ensures
        is_path_from(edges, root, p.push(t)),
{
    let q = p.push(t);
    assert forall|i: int| 0 <= i < q.len() - 1 implies has_edge(edges, #[trigger] q[i] as int, q[i + 1] as int) by {
        if i < p.len() - 1 {
            assert(q[i] == p[i] && q[i + 1] == p[i + 1]);
        } else {
            assert(q[i] == p.last() && q[i + 1] == t);
        }
    }
}

/// Visited nodes that are no longer in progress have all their successors
/// visited.
pub open spec fn is_closed(n: int, edges: Seq<(int, int)>, vis: Seq<bool>, stack: Seq<usize>) -> bool {
    forall|u: int, w: int|
        0 <= u < n && 0 <= w < n && vis[u] && !stack.contains(u as usize) && #[trigger] has_edge(edges, u, w)
            ==> vis[w]
}

/// Entry `k` of a visit log (with the node `t`) is reached by an edge from
/// an earlier entry one level up, among the first `len` entries.
pub open spec fn has_parent(edges: Seq<(int, int)>, out: Seq<(&Requirement, usize)>, ids: Seq<int>, depth: int, t: int, len: int) -> bool {
    exists|k2: int| 0 <= k2 < len && out[k2].1 + 1 == depth && has_edge(edges, ids[k2], t)
}

/// A log of visits: `out` lists the requirements visited with their depths,
/// `ids` the nodes behind them, `vis` marks exactly those nodes.
#[verifier::opaque]
pub open spec fn visit_log(
    flat: Seq<Requirement>,
    edges: Seq<(int, int)>,
    vis: Seq<bool>,
    out: Seq<(&Requirement, usize)>,
    ids: Seq<int>,
) -> bool {
    &&& vis.len() == flat.len()
    &&& ids.len() == out.len()
    &&& ids.no_duplicates()
    &&& forall|k: int| 0 <= k < ids.len() ==> 0 <= #[trigger] ids[k] < flat.len()
    &&& forall|v: int| 0 <= v < flat.len() ==> (vis[v] <==> #[trigger] ids.contains(v))
    &&& forall|k: int| 0 <= k < out.len() ==> *(#[trigger] out[k]).0 == node_req(flat, ids[k])
    &&& forall|k: int| 0 <= k < out.len() ==> (#[trigger] out[k]).1 <= MAX_TRAVERSAL_DEPTH
    &&& forall|k: int| 0 < k < out.len() ==> #[trigger] has_parent(edges, out, ids, out[k].1 as int, ids[k], k)
}

/// Recording a first visit of `t` keeps the log well formed.
proof fn lemma_log_push(
    flat: Seq<Requirement>,
    edges: Seq<(int, int)>,
    vis: Seq<bool>,
    out: Seq<(&Requirement, usize)>,
    ids: Seq<int>,
    t: int,
    r: &Requirement,
    depth: int,
)
    requires
        visit_log(flat, edges, vis, out, ids),
        0 <= t < flat.len(),
        !vis[t],
        *r == node_req(flat, t),
        0 <= depth <= MAX_TRAVERSAL_DEPTH,
        depth == 0 ==> out.len() == 0,
        depth > 0 ==> has_parent(edges, out, ids, depth, t, out.len() as int),
    ensures
        visit_log(flat, edges, vis.update(t, true), out.push((r, depth as usize)), ids.push(t)),
{
    reveal(visit_log);
    {
        let o2 = out.push((r, depth as usize));
        let i2 = ids.push(t);
        let v2 = vis.update(t, true);
        assert forall|v: int| 0 <= v < flat.len() implies (v2[v] <==> #[trigger] i2.contains(v)) by {
            if ids.contains(v) {
                let k = choose|k: int| 0 <= k < ids.len() && ids[k] == v;
                assert(i2[k] == v);
            }
            if i2.contains(v) && v != t {
                let k = choose|k: int| 0 <= k < i2.len() && i2[k] == v;
                assert(ids[k] == v);
            }
            if v == t {
                assert(i2[ids.len() as int] == v);
            }
        }
        assert(i2.no_duplicates()) by {
            assert forall|i: int, j: int| 0 <= i < i2.len() && 0 <= j < i2.len() && i != j implies i2[i] != i2[j] by {
                if i < ids.len() && j < ids.len() {
                    assert(ids[i] != ids[j]);
                } else if i < ids.len() {
                    assert(ids.contains(i2[i]));
                } else {
                    assert(ids.contains(i2[j]));
                }
            }
        }
        assert forall|k: int| 0 < k < o2.len() implies #[trigger] has_parent(edges, o2, i2, o2[k].1 as int, i2[k], k) by {
            if k < out.len() {
                assert(has_parent(edges, out, ids, out[k].1 as int, ids[k], k));
                let k2 = choose|k2: int| 0 <= k2 < k && out[k2].1 + 1 == out[k].1 as int && has_edge(edges, ids[k2], ids[k]);
                assert(o2[k2] == out[k2] && i2[k2] == ids[k2]);
            } else {
                let k2 = choose|k2: int| 0 <= k2 < out.len() && out[k2].1 + 1 == depth && has_edge(edges, ids[k2], t);
                assert(o2[k2] == out[k2] && i2[k2] == ids[k2]);
            }
        }
        assert forall|k: int| 0 <= k < o2.len() implies *(#[trigger] o2[k]).0 == node_req(flat, i2[k]) by {
            if k < out.len() {
                assert(o2[k] == out[k]);
            }
        }
        assert forall|k: int| 0 <= k < o2.len() implies (#[trigger] o2[k]).1 <= MAX_TRAVERSAL_DEPTH by {
            if k < out.len() {
                assert(o2[k] == out[k]);
            }
        }
    }
}

/// Entering `t` keeps the stack of nodes in progress distinct and visited,
/// and the finished nodes closed.
proof fn lemma_stack_push(n: int, edges: Seq<(int, int)>, vis: Seq<bool>, stack: Seq<usize>, t: usize)
    requires
        0 <= t < n <= INDEX_LIMIT,
        vis.len() == n,
        !vis[t as int],
        stack.no_duplicates(),
        forall|i: int| 0 <= i < stack.len() ==> #[trigger] stack[i] < n,
        forall|i: int| 0 <= i < stack.len() ==> vis[#[trigger] stack[i] as int],
        is_closed(n, edges, vis, stack),
    ensures
        stack.push(t).no_duplicates(),
        forall|i: int| 0 <= i < stack.push(t).len() ==> #[trigger] stack.push(t)[i] < n,
        forall|i: int| 0 <= i < stack.push(t).len() ==> vis.update(t as int, true)[#[trigger] stack.push(t)[i] as int],
        is_closed(n, edges, vis.update(t as int, true), stack.push(t)),
{
    let inner = stack.push(t);
    let v2 = vis.update(t as int, true);
    assert(inner.no_duplicates()) by {
        assert forall|i: int, j: int| 0 <= i < inner.len() && 0 <= j < inner.len() && i != j implies inner[i] != inner[j] by {
            if i < stack.len() && j < stack.len() {
                assert(stack[i] != stack[j]);
            } else if i < stack.len() {
                assert(vis[stack[i] as int]);
            } else {
                assert(vis[stack[j] as int]);
            }
        }
    }
    assert forall|i: int| 0 <= i < inner.len() implies v2[#[trigger] inner[i] as int] by {
        if i < stack.len() {
            assert(inner[i] == stack[i]);
        }
    }
    assert forall|u: int, w: int|
        0 <= u < n && 0 <= w < n && v2[u] && !inner.contains(u as usize) && #[trigger] has_edge(edges, u, w)
            implies v2[w] by {
        if u == t as int {
            assert(inner[stack.len() as int] == t);
        }
        assert(!stack.contains(u as usize)) by {
            if stack.contains(u as usize) {
                let i = choose|i: int| 0 <= i < stack.len() && stack[i] == u as usize;
                assert(inner[i] == u as usize);
            }
        }
    }
}

/// Leaving `t` once all its successors are visited keeps the finished nodes
/// closed.
proof fn lemma_stack_pop(n: int, edges: Seq<(int, int)>, vis: Seq<bool>, stack: Seq<usize>, t: usize, succ: Seq<int>)
    requires
        0 <= t < n <= INDEX_LIMIT,
        vis.len() == n,
        succ == out_targets(edges, t as int),
        forall|q: int| 0 <= q < succ.len() ==> vis[#[trigger] succ[q]],
        is_closed(n, edges, vis, stack.push(t)),
    ensures
        is_closed(n, edges, vis, stack),
{
    let inner = stack.push(t);
    assert forall|u: int, w: int|
        0 <= u < n && 0 <= w < n && vis[u] && !stack.contains(u as usize) && #[trigger] has_edge(edges, u, w)
            implies vis[w] by {
        if u == t as int {
            lemma_out_targets(edges, u, w);
            let q = choose|q: int| 0 <= q < succ.len() && succ[q] == w;
            assert(vis[succ[q]]);
        } else {
            assert(!inner.contains(u as usize)) by {
                if inner.contains(u as usize) {
                    let i = choose|i: int| 0 <= i < inner.len() && inner[i] == u as usize;
                    if i < stack.len() {
                        assert(stack[i] == u as usize);
                    } else {
                        assert(inner[stack.len() as int] == t);
                    }
                }
            }
        }
    }
}

/// A finished log from the root, closed under edges, is a depth-first
/// visit.
proof fn lemma_log_complete(
    flat: Seq<Requirement>,
    edges: Seq<(int, int)>,
    vis: Seq<bool>,
    out: Seq<(&Requirement, usize)>,
    ids: Seq<int>,
    root: int,
)
    requires
        visit_log(flat, edges, vis, out, ids),
        out.len() > 0,
        ids[0] == root,
        out[0].1 == 0,
        is_closed(flat.len() as int, edges, vis, Seq::empty()),
    ensures
        is_dfs_visit(flat.len() as int, edges, root, ids, depths_of(out)),
        forall|k: int| 0 <= k < ids.len() ==> *(#[trigger] out[k]).0 == node_req(flat, ids[k]),
{
    reveal(visit_log);
    let n = flat.len() as int;
    let d = depths_of(out);
    assert forall|k: int| 0 <= k < ids.len() implies 0 <= #[trigger] d[k] <= MAX_TRAVERSAL_DEPTH by {
        assert(out[k].1 <= MAX_TRAVERSAL_DEPTH);
    }
    assert forall|k: int| 0 < k < ids.len() implies exists|k2: int|
        0 <= k2 < k && d[k2] + 1 == #[trigger] d[k] && has_edge(edges, ids[k2], ids[k]) by {
        assert(has_parent(edges, out, ids, out[k].1 as int, ids[k], k));
        let k2 = choose|k2: int| 0 <= k2 < k && out[k2].1 + 1 == out[k].1 as int && has_edge(edges, ids[k2], ids[k]);
        assert(d[k2] == out[k2].1 && d[k] == out[k].1);
    }
    assert forall|k: int, w: int|
        0 <= k < ids.len() && 0 <= w < n && #[trigger] has_edge(edges, ids[k], w) implies ids.contains(w) by {
        assert(ids.contains(ids[k]));
        assert(vis[ids[k]]);
        assert(!Seq::<usize>::empty().contains(ids[k] as usize));
    }
}

/// Position of `x` in `v`, if it is there.
fn position(v: &Vec<usize>, x: usize) -> (r: Option<usize>)
    ensures
        r is Some ==> r->Some_0 < v@.len() && v@[r->Some_0 as int] == x,
        r is None ==> !v@.contains(x),
{
    let mut i: usize = 0;
    while i < v.len()
        invariant
            i <= v@.len(),
            forall|k: int| 0 <= k < i ==> v@[k] != x,
        decreases v@.len() - i,
    {
        if v[i] == x {
            return Some(i);
        }
        i = i + 1;
    }
    None
}

/// Adjacency entries, as values.
pub open spec fn adjacency_view(v: Seq<(String, Vec<String>)>) -> Seq<(Seq<char>, Seq<Seq<char>>)> {
    v.map_values(|e: (String, Vec<String>)| (e.0@, e.1@.map_values(|s: String| s@)))
}

/// The adjacency entries a requirement adds, in order: those of each inline
/// child's subtree, then its own, listing the summaries its children name.
pub open spec fn adjacency_of(r: Requirement) -> Seq<(Seq<char>, Seq<Seq<char>>)>
    decreases r,
{
    adjacency_of_children(r.requirements@) + seq![
        (r.summary@, r.requirements@.map_values(|c: RequirementReference| child_key(c))),
    ]
}

/// The adjacency entries added by the subtrees of the inline children among
/// `refs`, in order.
pub open spec fn adjacency_of_children(refs: Seq<RequirementReference>) -> Seq<(Seq<char>, Seq<Seq<char>>)>
    decreases refs,
{
    if refs.len() == 0 {
        seq![]
    } else {
        adjacency_of_children(refs.drop_last()) + match refs.last() {
            RequirementReference::Full(b) => adjacency_of(*b),
            RequirementReference::Reference(_) => seq![],
        }
    }
}

/// Collect the adjacency of `req` and its inline subtree: for each
/// requirement, the summaries its children name. Entries are appended in
/// order; a later entry for a summary overrides an earlier one.
pub fn collect_graph_edges(req: &Requirement, adj_map: &mut Vec<(String, Vec<String>)>)
    ensures
        adjacency_view(final(adj_map)@) == adjacency_view(old(adj_map)@) + adjacency_of(*req),
    decreases req,
{
    let mut deps: Vec<String> = Vec::new();
    let mut i: usize = 0;
    while i < req.requirements.len()
        invariant
            i <= req.requirements@.len(),
            deps@.map_values(|s: String| s@) == req.requirements@.subrange(0, i as int).map_values(
                |c: RequirementReference| child_key(c),
            ),
            adjacency_view(adj_map@) == adjacency_view(old(adj_map)@) + adjacency_of_children(
                req.requirements@.subrange(0, i as int),
            ),
        decreases req.requirements@.len() - i,
    {
        let ghost pre = req.requirements@.subrange(0, i as int);
        assert(req.requirements@.subrange(0, i + 1).drop_last() == pre);
        let ghost prev_deps = deps@;
        match &req.requirements[i] {
            RequirementReference::Full(full_req) => {
                deps.push(full_req.summary.clone());
                assert(decreases_to!(*req => req.requirements));
                assert(decreases_to!(req.requirements => req.requirements@[i as int]));
                collect_graph_edges(full_req, adj_map);
            },
            RequirementReference::Reference(summary) => {
                deps.push(summary.clone());
            },
        }
        assert(deps@.map_values(|s: String| s@) =~= prev_deps.map_values(|s: String| s@).push(
            child_key(req.requirements@[i as int]),
        ));
        assert(req.requirements@.subrange(0, i + 1).map_values(|c: RequirementReference| child_key(c))
            =~= pre.map_values(|c: RequirementReference| child_key(c)).push(child_key(req.requirements@[i as int])));
        i = i + 1;
    }
    assert(req.requirements@.subrange(0, i as int) == req.requirements@);
    let ghost prev = adj_map@;
    adj_map.push((req.summary.clone(), deps));
    assert(adjacency_view(adj_map@) =~= adjacency_view(prev).push(adjacency_of(*req).last()));
}

/// A graph of requirements with cycle detection and dependency queries.
pub struct RequirementGraph<'a> {
    graph: DiGraph<String, ()>,
    nodes: Vec<&'a Requirement>,
}

/// Index of the last node whose summary is `s`.
fn find_node(nodes: &Vec<&Requirement>, s: &str) -> (r: Option<usize>)
    ensures
        r is Some <==> lookup(derefs(nodes@), s@) >= 0,
        r is Some ==> r->Some_0 == lookup(derefs(nodes@), s@),
        r is Some ==> r->Some_0 < nodes@.len(),
{
    let ghost flat = derefs(nodes@);
    proof {
        lemma_lookup(flat, s@);
    }
    let mut i = nodes.len();
    while i > 0
        invariant
            i <= nodes@.len(),
            flat == derefs(nodes@),
            forall|k: int| i <= k < flat.len() ==> flat[k].summary@ != s@,
            -1 <= lookup(flat, s@) < flat.len(),
            lookup(flat, s@) >= 0 ==> flat[lookup(flat, s@)].summary@ == s@,
            lookup(flat, s@) >= 0 ==> forall|k: int|
                lookup(flat, s@) < k < flat.len() ==> flat[k].summary@ != s@,
            lookup(flat, s@) < 0 ==> forall|k: int| 0 <= k < flat.len() ==> flat[k].summary@ != s@,
        decreases i,
    {
        if text_eq(nodes[i - 1].summary.as_str(), s) {
            assert(flat[i - 1].summary@ == s@);
            proof {
                let l = lookup(flat, s@);
                let last = i - 1;
                if l < 0 {
                    assert(flat[last].summary@ != s@);
                } else if l < last {
                    assert(flat[last].summary@ != s@);
                } else if l > last {
                    assert(flat[l].summary@ != s@);
                }
            }
            return Some(i - 1);
        }
        i = i - 1;
    }
    None
}

/// `"Requirement '" + src + "' references non-existent '" + target + "'"`.
fn dangling_text(src: &String, target: &String) -> (r: String)
    ensures
        r@ == dangling_message(src@, target@),
{
    let mut r = String::from_str("Requirement '");
    r.append(src.as_str());
    r.append("' references non-existent '");
    r.append(target.as_str());
    r.append("'");
    r
}

impl<'a> RequirementGraph<'a> {
    /// The requirements behind the nodes, by node index.
    pub closed spec fn flat(&self) -> Seq<Requirement> {
        derefs(self.nodes@)
    }

    /// The edges of the graph, in order of insertion.
    pub closed spec fn edges(&self) -> Seq<(int, int)> {
        edge_list(self.graph)
    }

    /// The graph's labels are the node summaries and its edges are those the
    /// document asks for.
    pub closed spec fn wf(&self) -> bool {
        &&& node_labels(self.graph).len() == self.nodes@.len()
        &&& forall|i: int|
            0 <= i < self.nodes@.len() ==> #[trigger] node_labels(self.graph)[i]
                == self.nodes@[i].summary@
        &&& edge_list(self.graph) == graph_edges(derefs(self.nodes@))
        &&& self.nodes@.len() < INDEX_LIMIT
    }

    /// Build a graph from a RequirementConfig.
    pub fn from_config(config: &'a RequirementConfig) -> (r: Result<RequirementGraph<'a>, Error>)
        requires
            config.flat().len() < INDEX_LIMIT,
            graph_edges(config.flat()).len() < INDEX_LIMIT,
        ensures
            r is Ok <==> all_resolved(config.flat()),
            r is Ok ==> r->Ok_0.wf() && r->Ok_0.flat() == config.flat() && r->Ok_0.edges()
                == graph_edges(config.flat()),
            r is Err ==> exists|i: int, j: int|
                first_dangling(config.flat(), i, j) && r->Err_0 == Error::InvalidReference(
                    r->Err_0->InvalidReference_0,
                ) && r->Err_0->InvalidReference_0@ == dangling_message(
                    config.flat()[i].summary@,
                    child_key(config.flat()[i].requirements@[j]),
                ),
    {
        let nodes = config.all_requirements();
        let ghost flat = derefs(nodes@);
        let mut graph = new_graph();
        let mut i: usize = 0;
        while i < nodes.len()
            invariant
                flat == derefs(nodes@),
                flat == config.flat(),
                flat.len() < INDEX_LIMIT,
                i <= nodes@.len(),
                node_labels(graph).len() == i,
                forall|k: int| 0 <= k < i ==> #[trigger] node_labels(graph)[k] == nodes@[k].summary@,
                edge_list(graph) == Seq::<(int, int)>::empty(),
            decreases nodes@.len() - i,
        {
            add_node(&mut graph, nodes[i].summary.clone());
            i = i + 1;
        }
        let mut i: usize = 0;
        while i < nodes.len()
            invariant
                flat == derefs(nodes@),
                flat == config.flat(),
                graph_edges(flat).len() < INDEX_LIMIT,
                i <= nodes@.len(),
                node_labels(graph).len() == nodes@.len(),
                forall|k: int|
                    0 <= k < nodes@.len() ==> #[trigger] node_labels(graph)[k] == nodes@[k].summary@,
                edge_list(graph) == edges_upto(flat, i as int),
                forall|i2: int, j2: int| i2 < i ==> !#[trigger] is_dangling(flat, i2, j2),
            decreases nodes@.len() - i,
        {
            let req = nodes[i];
            proof {
                lemma_lookup_found(flat, i as int);
            }
            let src = find_node(&nodes, req.summary.as_str()).unwrap();
            let ghost children = req.requirements@;
            let mut j: usize = 0;
            while j < req.requirements.len()
                invariant
                    flat == derefs(nodes@),
                    flat == config.flat(),
                    graph_edges(flat).len() < INDEX_LIMIT,
                    i < nodes@.len(),
                    *req == flat[i as int],
                    children == req.requirements@,
                    src == lookup(flat, req.summary@),
                    src < nodes@.len(),
                    j <= children.len(),
                    node_labels(graph).len() == nodes@.len(),
                    forall|k: int|
                        0 <= k < nodes@.len() ==> #[trigger] node_labels(graph)[k]
                            == nodes@[k].summary@,
                    edge_list(graph) == edges_upto(flat, i as int) + child_edges(
                        flat,
                        src as int,
                        children.subrange(0, j as int),
                    ),
                    forall|i2: int, j2: int| i2 < i ==> !#[trigger] is_dangling(flat, i2, j2),
                    forall|j2: int| 0 <= j2 < j ==> !#[trigger] is_dangling(flat, i as int, j2),
                decreases children.len() - j,
            {
                assert(children.subrange(0, j + 1).drop_last() == children.subrange(0, j as int));
                proof {
                    lemma_child_edges_prefix(flat, src as int, children, j + 1);
                    lemma_edges_upto_mono(flat, i + 1, flat.len() as int);
                }
                match &req.requirements[j] {
                    RequirementReference::Full(child) => {
                        if let Some(t) = find_node(&nodes, child.summary.as_str()) {
                            add_edge(&mut graph, src, t);
                        }
                    },
                    RequirementReference::Reference(s) => {
                        match find_node(&nodes, s.as_str()) {
                            Some(t) => {
                                add_edge(&mut graph, src, t);
                            },
                            None => {
                                let msg = dangling_text(&req.summary, s);
                                assert(first_dangling(flat, i as int, j as int));
                                return Err(Error::InvalidReference(msg));
                            },
                        }
                    },
                }
                j = j + 1;
            }
            assert(children.subrange(0, j as int) == children);
            i = i + 1;
        }
        assert(flat.len() == i);
        Ok(RequirementGraph { graph, nodes })
    }

    /// Number of requirements in the graph.
    pub fn node_count(&self) -> (r: usize)
        ensures
            r == self.flat().len(),
    {
        self.nodes.len()
    }

    /// The requirement held for node `i`.
    fn req_of_node(&self, i: usize) -> (r: &'a Requirement)
        requires
            self.wf(),
            i < self.flat().len(),
        ensures
            *r == node_req(self.flat(), i as int),
    {
        proof {
            lemma_lookup_found(self.flat(), i as int);
        }
        let j = find_node(&self.nodes, self.nodes[i].summary.as_str()).unwrap();
        self.nodes[j]
    }

    /// The requirements held for the nodes listed in `ids`.
    fn reqs_of_nodes(&self, ids: &Vec<usize>) -> (r: Vec<&'a Requirement>)
        requires
            self.wf(),
            forall|k: int| 0 <= k < ids@.len() ==> #[trigger] ids@[k] < self.flat().len(),
        ensures
            derefs(r@) == reqs_of(self.flat(), ids@.map_values(|x: usize| x as int)),
    {
        let ghost want = reqs_of(self.flat(), ids@.map_values(|x: usize| x as int));
        let mut r: Vec<&'a Requirement> = Vec::new();
        let mut k: usize = 0;
        while k < ids.len()
            invariant
                self.wf(),
                k <= ids@.len(),
                forall|m: int| 0 <= m < ids@.len() ==> #[trigger] ids@[m] < self.flat().len(),
                want == reqs_of(self.flat(), ids@.map_values(|x: usize| x as int)),
                derefs(r@) == want.subrange(0, k as int),
            decreases ids@.len() - k,
        {
            let ghost prev = r@;
            let q = self.req_of_node(ids[k]);
            r.push(q);
            assert(derefs(r@) =~= derefs(prev).push(*q));
            assert(want.subrange(0, k + 1) =~= want.subrange(0, k as int).push(want[k as int]));
            k = k + 1;
        }
        assert(want.subrange(0, k as int) =~= want);
        r
    }

    /// Get a requirement by summary.
    pub fn get(&self, summary: &str) -> (r: Option<&'a Requirement>)
        requires
            self.wf(),
        ensures
            r is Some <==> lookup(self.flat(), summary@) >= 0,
            r is Some ==> *r->Some_0 == self.flat()[lookup(self.flat(), summary@)],
    {
        match find_node(&self.nodes, summary) {
            Some(i) => Some(self.nodes[i]),
            None => None,
        }
    }

    /// The summaries of the nodes `path[start..]`.
    fn summaries_from(&self, path: &Vec<usize>, start: usize) -> (r: Vec<String>)
        requires
            self.wf(),
            start <= path@.len(),
            forall|i: int| 0 <= i < path@.len() ==> #[trigger] path@[i] < self.flat().len(),
        ensures
            texts(r@) == summaries_of(self.flat(), ints(path@).subrange(start as int, path@.len() as int)),
    {
        let ghost want = summaries_of(self.flat(), ints(path@).subrange(start as int, path@.len() as int));
        let mut r: Vec<String> = Vec::new();
        let mut k = start;
        while k < path.len()
            invariant
                self.wf(),
                start <= k <= path@.len(),
                forall|i: int| 0 <= i < path@.len() ==> #[trigger] path@[i] < self.flat().len(),
                want == summaries_of(self.flat(), ints(path@).subrange(start as int, path@.len() as int)),
                texts(r@) == want.subrange(0, k - start),
            decreases path@.len() - k,
        {
            let ghost prev = r@;
            r.push(self.nodes[path[k]].summary.clone());
            assert(texts(r@) =~= texts(prev).push(self.flat()[path@[k as int] as int].summary@));
            assert(want.subrange(0, k + 1 - start) =~= want.subrange(0, k - start).push(want[k - start]));
            k = k + 1;
        }
        assert(want.subrange(0, k - start) =~= want);
        r
    }

    /// Depth-first search from `node` along `path`, recording a cycle each
    /// time the search steps onto a node of the current path. The ghost
    /// `rank` orders finished nodes by the time they were finished.
    fn find_cycles_from_node(
        &self,
        node: usize,
        visited: &mut Vec<bool>,
        path: &mut Vec<usize>,
        cycles: &mut Vec<Vec<String>>,
        rank: &mut Ghost<Seq<int>>,
        clock: &mut Ghost<int>,
    )
        requires
            self.wf(),
            node < self.flat().len(),
            old(visited)@.len() == self.flat().len(),
            old(rank)@.len() == self.flat().len(),
            is_open_path(self.flat().len() as int, self.edges(), old(path)@, old(visited)@),
            old(path)@.len() > 0 ==> has_edge(self.edges(), old(path)@.last() as int, node as int),
            forall|k: int| 0 <= k < old(cycles)@.len() ==> names_cycle(self.flat(), self.edges(), #[trigger] old(cycles)@[k]@),
            old(cycles)@.len() == 0 ==> is_ranked(self.flat().len() as int, self.edges(), old(visited)@, old(rank)@),
            forall|v: int| 0 <= v < self.flat().len() && old(visited)@[v] ==> old(rank)@[v] < old(clock)@,
        ensures
            final(visited)@.len() == self.flat().len(),
            final(rank)@.len() == self.flat().len(),
            final(path)@ == old(path)@,
            forall|v: int| 0 <= v < self.flat().len() && old(visited)@[v] ==> #[trigger] final(visited)@[v],
            forall|i: int| 0 <= i < old(path)@.len() ==> !final(visited)@[#[trigger] old(path)@[i] as int],
            old(cycles)@.len() <= final(cycles)@.len(),
            forall|k: int| 0 <= k < final(cycles)@.len() ==> names_cycle(self.flat(), self.edges(), #[trigger] final(cycles)@[k]@),
            final(cycles)@.len() == 0 ==> is_ranked(self.flat().len() as int, self.edges(), final(visited)@, final(rank)@),
            final(cycles)@.len() == 0 ==> final(visited)@[node as int],
            forall|v: int| 0 <= v < self.flat().len() && final(visited)@[v] ==> final(rank)@[v] < final(clock)@,
        decreases self.flat().len() - old(path)@.len(),
    {
        let ghost n = self.flat().len() as int;
        let ghost edges = self.edges();
        if let Some(start) = position(path, node) {
            let cycle = self.summaries_from(path, start);
            proof {
                let p = ints(path@).subrange(start as int, path@.len() as int);
                assert(p[0] == node as int);
                assert forall|i: int| 0 <= i < p.len() - 1 implies has_edge(edges, #[trigger] p[i], p[i + 1]) by {
                    assert(p[i] == path@[start + i] as int);
                    assert(p[i + 1] == path@[start + i + 1] as int);
                }
                assert forall|i: int| 0 <= i < p.len() implies 0 <= #[trigger] p[i] < n by {
                    assert(p[i] == path@[start + i] as int);
                }
                assert(p.last() == path@.last() as int);
                assert(p.no_duplicates()) by {
                    assert forall|i: int, j: int| 0 <= i < p.len() && 0 <= j < p.len() && i != j implies p[i] != p[j] by {
                        assert(path@[start + i] != path@[start + j]);
                    }
                }
                assert(is_cycle(n, edges, p));
                assert(names_cycle(self.flat(), edges, cycle@));
            }
            let ghost prev = cycles@;
            cycles.push(cycle);
            assert forall|k: int| 0 <= k < cycles@.len() implies names_cycle(self.flat(), self.edges(), #[trigger] cycles@[k]@) by {
                if k < prev.len() {
                    assert(cycles@[k] == prev[k]);
                }
            }
            return;
        }
        if visited[node] {
            return;
        }
        proof {
            lemma_distinct_bounded(path@, n);
            if path@.len() == n {
                lemma_distinct_bounded(path@.push(node), n);
            }
        }
        let ghost old_path = path@;
        path.push(node);
        let succ = successors(&self.graph, node);
        proof {
            lemma_targets_in_range(self.flat(), edges, node as int);
            assert(path@.no_duplicates()) by {
                assert forall|i: int, j: int| 0 <= i < path@.len() && 0 <= j < path@.len() && i != j implies path@[i] != path@[j] by {
                    if i < old_path.len() && j < old_path.len() {
                        assert(old_path[i] != old_path[j]);
                    } else if i < old_path.len() {
                        assert(old_path.contains(path@[i]));
                    } else {
                        assert(old_path.contains(path@[j]));
                    }
                }
            }
            assert forall|i: int| 0 <= i < path@.len() - 1 implies has_edge(edges, #[trigger] path@[i] as int, path@[i + 1] as int) by {
                if i < old_path.len() - 1 {
                    assert(path@[i] == old_path[i] && path@[i + 1] == old_path[i + 1]);
                } else {
                    assert(path@[i] == old_path.last());
                }
            }
        }
        let ghost succ_int = ints(succ@);
        let mut m: usize = 0;
        while m < succ.len()
            invariant
                self.wf(),
                n == self.flat().len(),
                edges == self.edges(),
                node < n,
                succ_int == ints(succ@),
                succ_int == out_targets(edges, node as int),
                forall|q: int| 0 <= q < succ_int.len() ==> 0 <= #[trigger] succ_int[q] < n,
                m <= succ@.len(),
                path@ == old_path.push(node),
                old_path == old(path)@,
                old(visited)@.len() == n,
                visited@.len() == n,
                rank@.len() == n,
                !visited@[node as int],
                is_open_path(n, edges, path@, visited@),
                forall|v: int| 0 <= v < n && old(visited)@[v] ==> #[trigger] visited@[v],
                forall|i: int| 0 <= i < old_path.len() ==> !visited@[#[trigger] old_path[i] as int],
                old(cycles)@.len() <= cycles@.len(),
                forall|k: int| 0 <= k < cycles@.len() ==> names_cycle(self.flat(), edges, #[trigger] cycles@[k]@),
                cycles@.len() == 0 ==> is_ranked(n, edges, visited@, rank@),
                cycles@.len() == 0 ==> forall|q: int| 0 <= q < m ==> visited@[#[trigger] succ_int[q]],
                forall|v: int| 0 <= v < n && visited@[v] ==> rank@[v] < clock@,
            decreases succ@.len() - m,
        {
            let w = succ[m];
            proof {
                assert(succ_int[m as int] == w as int);
                lemma_out_targets(edges, node as int, w as int);
                assert(succ_int.contains(w as int));
                lemma_distinct_bounded(path@, n);
            }
            self.find_cycles_from_node(w, visited, path, cycles, rank, clock);
            assert forall|i: int| 0 <= i < old_path.len() implies !visited@[#[trigger] old_path[i] as int] by {
                assert(path@[i] == old_path[i]);
            }
            assert(path@[old_path.len() as int] == node);
            m = m + 1;
        }
        path.pop();
        assert(path@ == old_path);
        visited.set(node, true);
        proof {
            rank@ = rank@.update(node as int, clock@);
            clock@ = clock@ + 1;
            if cycles@.len() == 0 {
                assert forall|u: int, w: int|
                    0 <= u < n && 0 <= w < n && visited@[u] && #[trigger] has_edge(edges, u, w) implies visited@[w]
                        && rank@[w] < rank@[u] by {
                    if u == node as int {
                        lemma_out_targets(edges, u, w);
                        let q = choose|q: int| 0 <= q < succ_int.len() && succ_int[q] == w;
                        assert(visited@[succ_int[q]]);
                        if w == node as int {
                            assert(false);
                        }
                    }
                }
            }
        }
    }

    /// Find cycles in the graph: a best-effort list from one depth-first
    /// search, which is non-empty exactly when the graph has a cycle.
    pub fn find_cycles(&self) -> (r: Vec<Vec<String>>)
        requires
            self.wf(),
        ensures
            r@.len() > 0 <==> has_cycle(self.flat().len() as int, self.edges()),
            forall|k: int| 0 <= k < r@.len() ==> names_cycle(self.flat(), self.edges(), #[trigger] r@[k]@),
    {
        if !self.has_cycles() {
            return Vec::new();
        }
        let n = self.nodes.len();
        let mut visited: Vec<bool> = Vec::new();
        while visited.len() < n
            invariant
                visited@.len() <= n,
                forall|v: int| 0 <= v < visited@.len() ==> !#[trigger] visited@[v],
            decreases n - visited@.len(),
        {
            visited.push(false);
        }
        let mut path: Vec<usize> = Vec::new();
        let mut cycles: Vec<Vec<String>> = Vec::new();
        let mut rank: Ghost<Seq<int>> = Ghost(Seq::new(n as nat, |i: int| 0));
        let mut clock: Ghost<int> = Ghost(0);
        let mut node: usize = 0;
        while node < n
            invariant
                self.wf(),
                n == self.flat().len(),
                node <= n,
                visited@.len() == n,
                rank@.len() == n,
                path@.len() == 0,
                forall|k: int| 0 <= k < cycles@.len() ==> names_cycle(self.flat(), self.edges(), #[trigger] cycles@[k]@),
                cycles@.len() == 0 ==> is_ranked(n as int, self.edges(), visited@, rank@),
                cycles@.len() == 0 ==> forall|v: int| 0 <= v < node ==> #[trigger] visited@[v],
                forall|v: int| 0 <= v < n && visited@[v] ==> rank@[v] < clock@,
            decreases n - node,
        {
            if !visited[node] {
                self.find_cycles_from_node(node, &mut visited, &mut path, &mut cycles, &mut rank, &mut clock);
            }
            node = node + 1;
        }
        proof {
            if cycles@.len() == 0 {
                assert forall|u: int, w: int| 0 <= u < n && 0 <= w < n && #[trigger] has_edge(self.edges(), u, w) implies rank@[w] < rank@[u] by {
                    assert(visited@[u]);
                }
                lemma_ranked_acyclic(n as int, self.edges(), rank@);
            }
        }
        cycles
    }

    /// Depth-first walk from `node` at `depth`, appending each first-time
    /// visit to `out`. `stack` holds the nodes in progress, `ids` the nodes
    /// behind the entries of `out`.
    fn traverse_recursive(
        &self,
        node: usize,
        visited: &mut Vec<bool>,
        out: &mut Vec<(&'a Requirement, usize)>,
        ids: &mut Ghost<Seq<int>>,
        stack: Ghost<Seq<usize>>,
        root: Ghost<int>,
        depth: usize,
    ) -> (r: Result<(), Error>)
        requires
            self.wf(),
            node < self.flat().len(),
            depth <= MAX_TRAVERSAL_DEPTH + 1,
            visit_log(self.flat(), self.edges(), old(visited)@, old(out)@, old(ids)@),
            depth == 0 ==> old(out)@.len() == 0,
            depth > 0 ==> has_parent(self.edges(), old(out)@, old(ids)@, depth as int, node as int, old(out)@.len() as int),
            stack@.len() == depth,
            stack@.no_duplicates(),
            forall|i: int| 0 <= i < stack@.len() ==> #[trigger] stack@[i] < self.flat().len(),
            forall|i: int| 0 <= i < stack@.len() ==> old(visited)@[#[trigger] stack@[i] as int],
            is_closed(self.flat().len() as int, self.edges(), old(visited)@, stack@),
            is_path_from(self.edges(), root@, stack@),
            stack@.len() > 0 ==> has_edge(self.edges(), stack@.last() as int, node as int),
            stack@.len() == 0 ==> node as int == root@,
        ensures
            r is Err ==> r->Err_0 is GraphError && self.flat().len() > MAX_TRAVERSAL_DEPTH && exists|p: Seq<usize>|
                is_too_deep(self.flat().len() as int, self.edges(), root@, p),
            r is Ok ==> {
                &&& visit_log(self.flat(), self.edges(), final(visited)@, final(out)@, final(ids)@)
                &&& old(out)@.len() <= final(out)@.len()
                &&& forall|k: int| 0 <= k < old(out)@.len() ==> #[trigger] final(out)@[k] == old(out)@[k] && final(ids)@[k] == old(ids)@[k]
                &&& final(visited)@[node as int]
                &&& forall|v: int| 0 <= v < self.flat().len() && old(visited)@[v] ==> #[trigger] final(visited)@[v]
                &&& is_closed(self.flat().len() as int, self.edges(), final(visited)@, stack@)
                &&& (depth == 0 ==> final(out)@.len() > 0 && final(ids)@[0] == node as int && final(out)@[0].1 == 0)
            },
        decreases MAX_TRAVERSAL_DEPTH + 1 - depth,
    {
        let ghost n = self.flat().len() as int;
        let ghost edges = self.edges();
        if depth > MAX_TRAVERSAL_DEPTH {
            proof {
                lemma_distinct_bounded(stack@, n);
                assert(is_too_deep(n, edges, root@, stack@));
            }
            return Err(Error::GraphError(String::from_str("Maximum traversal depth exceeded")));
        }
        proof {
            reveal(visit_log);
        }
        if visited[node] {
            assert(ids@.contains(node as int));
            return Ok(());
        }
        let ghost old_out = out@;
        let ghost old_ids = ids@;
        let ghost old_vis = visited@;
        let req = self.req_of_node(node);
        proof {
            lemma_log_push(self.flat(), edges, visited@, out@, ids@, node as int, req, depth as int);
        }
        visited.set(node, true);
        out.push((req, depth));
        proof {
            ids@ = ids@.push(node as int);
            assert(visited@ == old_vis.update(node as int, true));
        }
        let ghost inner = stack@.push(node);
        proof {
            lemma_stack_push(n, edges, old_vis, stack@, node);
            lemma_path_push(edges, root@, stack@, node);
        }
        let succ = successors(&self.graph, node);
        proof {
            lemma_targets_in_range(self.flat(), edges, node as int);
        }
        let ghost succ_int = ints(succ@);
        let ghost entry = old_out.len() as int;
        let mut m: usize = 0;
        while m < succ.len()
            invariant
                self.wf(),
                n == self.flat().len(),
                edges == self.edges(),
                node < n,
                depth <= MAX_TRAVERSAL_DEPTH,
                succ_int == ints(succ@),
                succ_int == out_targets(edges, node as int),
                forall|q: int| 0 <= q < succ_int.len() ==> 0 <= #[trigger] succ_int[q] < n,
                m <= succ@.len(),
                visit_log(self.flat(), edges, visited@, out@, ids@),
                entry == old_out.len(),
                entry < out@.len(),
                forall|k: int| 0 <= k < entry ==> #[trigger] out@[k] == old_out[k] && ids@[k] == old_ids[k],
                out@[entry] == (req, depth),
                ids@[entry] == node as int,
                visited@[node as int],
                forall|v: int| 0 <= v < n && old_vis[v] ==> #[trigger] visited@[v],
                inner == stack@.push(node),
                is_path_from(edges, root@, inner),
                inner.len() == depth + 1,
                inner.no_duplicates(),
                forall|i: int| 0 <= i < inner.len() ==> #[trigger] inner[i] < n,
                forall|i: int| 0 <= i < inner.len() ==> visited@[#[trigger] inner[i] as int],
                is_closed(n, edges, visited@, inner),
                forall|q: int| 0 <= q < m ==> visited@[#[trigger] succ_int[q]],
                old(visited)@ == old_vis,
                old(out)@ == old_out,
                old(ids)@ == old_ids,
            decreases succ@.len() - m,
        {
            let w = succ[m];
            proof {
                assert(succ_int[m as int] == w as int);
                lemma_out_targets(edges, node as int, w as int);
                assert(succ_int.contains(w as int));
                assert(out@[entry] == (req, depth) && ids@[entry] == node as int);
                assert(has_parent(edges, out@, ids@, depth + 1, w as int, out@.len() as int));
            }
            let ghost pre_out = out@;
            let ghost pre_ids = ids@;
            assert(inner.last() == node);
            match self.traverse_recursive(w, visited, out, ids, Ghost(inner), root, depth + 1) {
                Ok(()) => {},
                Err(e) => return Err(e),
            }
            assert(out@[entry] == pre_out[entry]);
            assert(ids@[entry] == pre_ids[entry]);
            m = m + 1;
        }
        proof {
            lemma_stack_pop(n, edges, visited@, stack@, node, succ_int);
        }
        Ok(())
    }

    /// Depth-first traversal from the requirement named `start_summary`:
    /// each requirement reached, once, in pre-order, with its depth.
    pub fn traverse(&self, start_summary: &str) -> (r: Result<Vec<(&'a Requirement, usize)>, Error>)
        requires
            self.wf(),
        ensures
            (r is Err && r->Err_0 is RequirementNotFound) <==> lookup(self.flat(), start_summary@) < 0,
            r is Err && r->Err_0 is RequirementNotFound ==> r->Err_0->RequirementNotFound_0@ == start_summary@,
            r is Err ==> r->Err_0 is RequirementNotFound || (r->Err_0 is GraphError && exists|p: Seq<usize>|
                is_too_deep(self.flat().len() as int, self.edges(), lookup(self.flat(), start_summary@), p)),
            r is Ok ==> exists|ids: Seq<int>| {
                &&& is_dfs_visit(self.flat().len() as int, self.edges(), lookup(self.flat(), start_summary@), ids, depths_of(r->Ok_0@))
                &&& forall|k: int| 0 <= k < ids.len() ==> *(#[trigger] r->Ok_0@[k]).0 == node_req(self.flat(), ids[k])
            },
    {
        let node = match find_node(&self.nodes, start_summary) {
            Some(i) => i,
            None => return Err(Error::RequirementNotFound(String::from_str(start_summary))),
        };
        let n = self.nodes.len();
        let mut visited: Vec<bool> = Vec::new();
        while visited.len() < n
            invariant
                visited@.len() <= n,
                forall|v: int| 0 <= v < visited@.len() ==> !#[trigger] visited@[v],
            decreases n - visited@.len(),
        {
            visited.push(false);
        }
        let mut out: Vec<(&'a Requirement, usize)> = Vec::new();
        let mut ids: Ghost<Seq<int>> = Ghost(Seq::empty());
        proof {
            reveal(visit_log);
        }
        match self.traverse_recursive(node, &mut visited, &mut out, &mut ids, Ghost(Seq::empty()), Ghost(node as int), 0) {
            Ok(()) => {},
            Err(e) => return Err(e),
        }
        proof {
            lemma_log_complete(self.flat(), self.edges(), visited@, out@, ids@, node as int);
            assert(node as int == lookup(self.flat(), start_summary@));
            assert(is_dfs_visit(self.flat().len() as int, self.edges(), lookup(self.flat(), start_summary@), ids@, depths_of(out@)));
            assert(forall|k: int| 0 <= k < ids@.len() ==> *(#[trigger] out@[k]).0 == node_req(self.flat(), ids@[k]));
        }
        let r: Result<Vec<(&'a Requirement, usize)>, Error> = Ok(out);
        assert(r->Ok_0@ == out@);
        r
    }

    /// Check if the graph contains cycles.
    pub fn has_cycles(&self) -> (r: bool)
        requires
            self.wf(),
        ensures
            r == has_cycle(self.flat().len() as int, self.edges()),
    {
        is_cyclic(&self.graph)
    }

    /// Get all requirements in topological order (if acyclic).
    pub fn topological_sort(&self) -> (r: Result<Vec<&'a Requirement>, Error>)
        requires
            self.wf(),
        ensures
            r is Err <==> has_cycle(self.flat().len() as int, self.edges()),
            r is Err ==> r->Err_0 is CircularReference,
            r is Ok ==> exists|order: Seq<int>|
                is_topo_order(self.flat().len() as int, self.edges(), order) && derefs(r->Ok_0@)
                    == reqs_of(self.flat(), order),
    {
        if self.has_cycles() {
            return Err(Error::CircularReference(
                String::from_str("Cannot perform topological sort on cyclic graph"),
            ));
        }
        match topo_order(&self.graph) {
            Some(order) => {
                let ghost ord = order@.map_values(|x: usize| x as int);
                assert forall|k: int| 0 <= k < order@.len() implies #[trigger] order@[k]
                    < self.flat().len() by {
                    assert(ord[k] == order@[k] as int);
                }
                Ok(self.reqs_of_nodes(&order))
            },
            None => Err(Error::GraphError(String::from_str("Topological sort failed"))),
        }
    }

    /// Get dependencies of a requirement: the targets of its outgoing edges,
    /// the most recently added first.
    pub fn dependencies(&self, summary: &str) -> (r: Result<Vec<&'a Requirement>, Error>)
        requires
            self.wf(),
        ensures
            r is Err <==> lookup(self.flat(), summary@) < 0,
            r is Err ==> r->Err_0 is RequirementNotFound && r->Err_0->RequirementNotFound_0@
                == summary@,
            r is Ok ==> derefs(r->Ok_0@) == reqs_of(
                self.flat(),
                out_targets(self.edges(), lookup(self.flat(), summary@)),
            ),
    {
        let node = match find_node(&self.nodes, summary) {
            Some(i) => i,
            None => return Err(Error::RequirementNotFound(String::from_str(summary))),
        };
        let succ = successors(&self.graph, node);
        proof {
            lemma_targets_in_range(self.flat(), self.edges(), node as int);
        }
        assert forall|k: int| 0 <= k < succ@.len() implies #[trigger] succ@[k]
            < self.flat().len() by {
            assert(succ@.map_values(|x: usize| x as int)[k] == succ@[k] as int);
        }
        Ok(self.reqs_of_nodes(&succ))
    }

    /// Get dependents (reverse dependencies) of a requirement: the nodes with
    /// an edge to it, by node index.
    pub fn dependents(&self, summary: &str) -> (r: Result<Vec<&'a Requirement>, Error>)
        requires
            self.wf(),
        ensures
            r is Err <==> lookup(self.flat(), summary@) < 0,
            r is Err ==> r->Err_0 is RequirementNotFound && r->Err_0->RequirementNotFound_0@
                == summary@,
            r is Ok ==> derefs(r->Ok_0@) == reqs_of(
                self.flat(),
                sources_upto(
                    self.edges(),
                    lookup(self.flat(), summary@),
                    self.flat().len() as int,
                ),
            ),
    {
        let node = match find_node(&self.nodes, summary) {
            Some(i) => i,
            None => return Err(Error::RequirementNotFound(String::from_str(summary))),
        };
        let mut ids: Vec<usize> = Vec::new();
        let mut n: usize = 0;
        while n < self.nodes.len()
            invariant
                self.wf(),
                n <= self.flat().len(),
                node < self.flat().len(),
                ids@.map_values(|x: usize| x as int) == sources_upto(self.edges(), node as int, n as int),
                forall|k: int| 0 <= k < ids@.len() ==> #[trigger] ids@[k] < n,
            decreases self.flat().len() - n,
        {
            let succ = successors(&self.graph, n);
            let ghost succ_int = succ@.map_values(|x: usize| x as int);
            let mut found = false;
            let mut m: usize = 0;
            while m < succ.len()
                invariant
                    m <= succ@.len(),
                    succ_int == succ@.map_values(|x: usize| x as int),
                    found == exists|q: int| 0 <= q < m && succ_int[q] == node as int,
                decreases succ@.len() - m,
            {
                assert(succ_int[m as int] == succ@[m as int] as int);
                if succ[m] == node {
                    found = true;
                }
                m = m + 1;
            }
            proof {
                lemma_out_targets(self.edges(), n as int, node as int);
                if found {
                    let q = choose|q: int| 0 <= q < m && succ_int[q] == node as int;
                    assert(succ_int.contains(node as int));
                }
                if succ_int.contains(node as int) {
                    let q = choose|q: int| 0 <= q < succ_int.len() && succ_int[q] == node as int;
                    assert(0 <= q < m);
                }
            }
            let ghost prev = ids@;
            if found {
                ids.push(n);
                assert(ids@.map_values(|x: usize| x as int) =~= prev.map_values(|x: usize| x as int).push(n as int));
            }
            n = n + 1;
        }
        Ok(self.reqs_of_nodes(&ids))
    }
}

/// Every edge of the built graph joins two nodes of it.
pub proof fn lemma_edges_in_range(flat: Seq<Requirement>, k: int)
    ensures
        forall|q: int| 0 <= q < edges_upto(flat, k).len() ==> 0 <= (#[trigger] edges_upto(flat, k)[q]).0 < flat.len()
            && 0 <= edges_upto(flat, k)[q].1 < flat.len(),
    decreases k,
{
    if 0 < k <= flat.len() {
        lemma_edges_in_range(flat, k - 1);
        lemma_lookup_found(flat, k - 1);
        let src = lookup(flat, flat[k - 1].summary@);
        lemma_child_edges_in_range(flat, src, flat[k - 1].requirements@);
        let a = edges_upto(flat, k - 1);
        let b = child_edges(flat, src, flat[k - 1].requirements@);
        assert(edges_upto(flat, k) == a + b);
        assert forall|q: int| 0 <= q < (a + b).len() implies 0 <= (#[trigger] (a + b)[q]).0 < flat.len()
            && 0 <= (a + b)[q].1 < flat.len() by {
            if q < a.len() {
                assert((a + b)[q] == a[q]);
            } else {
                assert((a + b)[q] == b[q - a.len()]);
            }
        }
    }
}

/// Edges from a node of the graph to resolved children join two nodes.
proof fn lemma_child_edges_in_range(flat: Seq<Requirement>, src: int, children: Seq<RequirementReference>)
    requires
        0 <= src < flat.len(),
    ensures
        forall|q: int| 0 <= q < child_edges(flat, src, children).len() ==> 0 <= (#[trigger] child_edges(flat, src, children)[q]).0 < flat.len()
            && 0 <= child_edges(flat, src, children)[q].1 < flat.len(),
    decreases children.len(),
{
    if children.len() > 0 {
        lemma_child_edges_in_range(flat, src, children.drop_last());
        let t = lookup(flat, child_key(children.last()));
        lemma_lookup(flat, child_key(children.last()));
        let a = child_edges(flat, src, children.drop_last());
        let b: Seq<(int, int)> = if t >= 0 { seq![(src, t)] } else { seq![] };
        assert(child_edges(flat, src, children) == a + b);
        assert forall|q: int| 0 <= q < (a + b).len() implies 0 <= (#[trigger] (a + b)[q]).0 < flat.len()
            && 0 <= (a + b)[q].1 < flat.len() by {
            if q < a.len() {
                assert((a + b)[q] == a[q]);
            } else {
                assert((a + b)[q] == b[q - a.len()]);
            }
        }
    }
}

/// The successors of a node of the built graph are nodes of it.
proof fn lemma_targets_in_range(flat: Seq<Requirement>, edges: Seq<(int, int)>, a: int)
    requires
        edges == graph_edges(flat),
    ensures
        forall|q: int| 0 <= q < out_targets(edges, a).len() ==> 0 <= #[trigger] out_targets(edges, a)[q] < flat.len(),
{
    lemma_edges_in_range(flat, flat.len() as int);
    assert forall|q: int| 0 <= q < out_targets(edges, a).len() implies 0 <= #[trigger] out_targets(edges, a)[q] < flat.len() by {
        let b = out_targets(edges, a)[q];
        lemma_out_targets(edges, a, b);
        assert(out_targets(edges, a).contains(b));
        let k = choose|k: int| 0 <= k < edges.len() && edges[k] == (a, b);
        assert(edges[k] == edges_upto(flat, flat.len() as int)[k]);
    }
}

/// Nodes below `k`, in increasing order, that have an edge to `t`.
pub open spec fn sources_upto(edges: Seq<(int, int)>, t: int, k: int) -> Seq<int>
    decreases k,
{
    if k <= 0 {
        seq![]
    } else if has_edge(edges, k - 1, t) {
        sources_upto(edges, t, k - 1).push(k - 1)
    } else {
        sources_upto(edges, t, k - 1)
    }
}

/// The requirements held for the nodes listed in `ids`.
pub open spec fn reqs_of(flat: Seq<Requirement>, ids: Seq<int>) -> Seq<Requirement> {
    ids.map_values(|i: int| node_req(flat, i))
}

/// A node is among the successors walked from `a` exactly when an edge
/// leads there from `a`.
pub proof fn lemma_out_targets(edges: Seq<(int, int)>, a: int, b: int)
    ensures
        out_targets(edges, a).contains(b) <==> has_edge(edges, a, b),
    decreases edges.len(),
{
    if edges.len() > 0 {
        let p = edges.drop_last();
        lemma_out_targets(p, a, b);
        assert forall|k: int| 0 <= k < p.len() implies p[k] == edges[k] by {}
        if has_edge(edges, a, b) {
            let k = choose|k: int| 0 <= k < edges.len() && edges[k] == (a, b);
            if k < p.len() {
                assert(p[k] == (a, b));
            }
        }
        if has_edge(p, a, b) {
            let k = choose|k: int| 0 <= k < p.len() && p[k] == (a, b);
            assert(edges[k] == (a, b));
        }
        if edges.last().0 == a {
            let o = out_targets(edges, a);
            assert(o == seq![edges.last().1] + out_targets(p, a));
            assert(edges[edges.len() - 1] == edges.last());
            if o.contains(b) {
                let i = choose|i: int| 0 <= i < o.len() && o[i] == b;
                if i > 0 {
                    assert(out_targets(p, a)[i - 1] == b);
                }
            }
            if out_targets(p, a).contains(b) {
                let i = choose|i: int| 0 <= i < out_targets(p, a).len() && out_targets(p, a)[i] == b;
                assert(o[i + 1] == b);
            }
            if edges.last().1 == b {
                assert(o[0] == b);
            }
        }
    }
}

/// Edges of a prefix of the children are no more than those of all.
proof fn lemma_child_edges_prefix(
    flat: Seq<Requirement>,
    src: int,
    children: Seq<RequirementReference>,
    j: int,
)
    requires
        0 <= j <= children.len(),
    ensures
        child_edges(flat, src, children.subrange(0, j)).len() <= child_edges(
            flat,
            src,
            children,
        ).len(),
    decreases children.len() - j,
{
    if j < children.len() {
        lemma_child_edges_prefix(flat, src, children, j + 1);
        assert(children.subrange(0, j + 1).drop_last() == children.subrange(0, j));
    } else {
        assert(children.subrange(0, j) == children);
    }
}

/// More requirements contribute no fewer edges.
proof fn lemma_edges_upto_mono(flat: Seq<Requirement>, k: int, m: int)
    requires
        0 <= k <= m <= flat.len(),
    ensures
        edges_upto(flat, k).len() <= edges_upto(flat, m).len(),
    decreases m - k,
{
    if k < m {
        lemma_edges_upto_mono(flat, k, m - 1);
    }
}

} // verus!
