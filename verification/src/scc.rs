//! Strongly connected components of the internal wiring of a chunk,
//! and the level of each component in the condensation.
//!
//! The graph and the component search are petgraph's; the numbering of
//! the nodes by component and the levels are computed here.

use vstd::prelude::*;
use petgraph::algo::kosaraju_scc;
use petgraph::graph::{DiGraph, NodeIndex};
use crate::chunk::{ChunkView, Connection, MycosChunk, Section};

verus! {

/// petgraph's adjacency-list graph. Nothing inside it is visible here;
/// what it holds is spoken of through [`graph_order`] and
/// [`graph_arcs`].
#[verifier::external_type_specification]
#[verifier::external_body]
#[verifier::reject_recursive_types(N)]
#[verifier::reject_recursive_types(E)]
#[verifier::reject_recursive_types(Ty)]
#[verifier::reject_recursive_types(Ix)]
pub struct ExGraph<N, E, Ty, Ix>(petgraph::graph::Graph<N, E, Ty, Ix>);

/// petgraph's marker for directed graphs.
#[verifier::external_type_specification]
#[verifier::external_body]
pub struct ExDirected(petgraph::Directed);

/// The number of nodes of a graph. Its nodes are `0 .. graph_order`.
pub uninterp spec fn graph_order(g: DiGraph<(), ()>) -> nat;

/// The arcs of a graph as (source, target), in the order in which they
/// were added.
pub uninterp spec fn graph_arcs(g: DiGraph<(), ()>) -> Seq<(int, int)>;

/// There is an arc from `a` to `b`.
pub open spec fn has_arc(arcs: Seq<(int, int)>, a: int, b: int) -> bool {
    exists|i: int| 0 <= i < arcs.len() && #[trigger] arcs[i] == (a, b)
}

/// `p` is a walk: a node, or nodes each joined to the next by an arc.
pub open spec fn is_walk(arcs: Seq<(int, int)>, p: Seq<int>) -> bool {
    p.len() >= 1 && forall|i: int| 0 <= i < p.len() - 1 ==> has_arc(arcs, #[trigger] p[i], p[i + 1])
}

/// Some walk leads from `a` to `b`.
pub open spec fn reaches(arcs: Seq<(int, int)>, a: int, b: int) -> bool {
    exists|p: Seq<int>| #[trigger] is_walk(arcs, p) && p.first() == a && p.last() == b
}

/// `a` and `b` lie on a common cycle, or are the same node.
pub open spec fn entangled(arcs: Seq<(int, int)>, a: int, b: int) -> bool {
    reaches(arcs, a, b) && reaches(arcs, b, a)
}

/// Lists of node numbers as mathematical sequences.
pub open spec fn node_lists(v: Seq<Vec<usize>>) -> Seq<Seq<int>> {
    Seq::new(v.len(), |c: int| Seq::new(v[c]@.len(), |k: int| v[c]@[k] as int))
}

/// List `c` of `comps` holds node `v`.
pub open spec fn comp_has(comps: Seq<Seq<int>>, c: int, v: int) -> bool {
    0 <= c < comps.len() && comps[c].contains(v)
}

/// Some list of `comps` holds node `v`.
pub open spec fn listed(comps: Seq<Seq<int>>, v: int) -> bool {
    exists|c: int| comp_has(comps, c, v)
}

/// `comps` splits the nodes `0 .. n` into non-empty lists: every entry
/// is a node, every node is in a list, and no node is in two lists.
pub open spec fn splits_nodes(comps: Seq<Seq<int>>, n: nat) -> bool {
    &&& forall|c: int| 0 <= c < comps.len() ==> (#[trigger] comps[c]).len() > 0
    &&& forall|c: int, v: int| #[trigger] comp_has(comps, c, v) ==> 0 <= v < n
    &&& forall|v: int| 0 <= v < n ==> #[trigger] listed(comps, v)
    &&& forall|c1: int, c2: int, v: int|
        #[trigger] comp_has(comps, c1, v) && #[trigger] comp_has(comps, c2, v) ==> c1 == c2
}

/// The lists are the classes of [`entangled`], and no arc leads from a
/// list to one that comes after it.
pub open spec fn strongly_splits(comps: Seq<Seq<int>>, arcs: Seq<(int, int)>) -> bool {
    &&& forall|c1: int, c2: int, u: int, v: int|
        #[trigger] comp_has(comps, c1, u) && #[trigger] comp_has(comps, c2, v) ==> (c1 == c2
            <==> entangled(arcs, u, v))
    &&& forall|c1: int, c2: int, u: int, v: int|
        #[trigger] comp_has(comps, c1, u) && #[trigger] comp_has(comps, c2, v) && has_arc(
            arcs,
            u,
            v,
        ) ==> c2 <= c1
}

/// `petgraph::graph::Graph::new`: a graph without nodes or arcs.
#[verifier::external_body]
fn graph_new() -> (g: DiGraph<(), ()>)
    ensures
        graph_order(g) == 0,
        graph_arcs(g) == Seq::<(int, int)>::empty(),
{
    DiGraph::<(), ()>::new()
}

/// `petgraph::graph::Graph::add_node`: one more node, numbered with
/// the order the graph had; the arcs stay. It panics on a graph that
/// already has `u32::MAX` nodes.
#[verifier::external_body]
fn graph_add_node(g: &mut DiGraph<(), ()>)
    requires
        graph_order(*old(g)) < u32::MAX,
    ensures
        graph_order(*final(g)) == graph_order(*old(g)) + 1,
        graph_arcs(*final(g)) == graph_arcs(*old(g)),
{
    g.add_node(());
}

/// `petgraph::graph::Graph::add_edge`: one more arc, behind those
/// there are; the nodes stay. It panics when an end is no node of the
/// graph, or on a graph that already has `u32::MAX` arcs.
#[verifier::external_body]
fn graph_add_edge(g: &mut DiGraph<(), ()>, a: usize, b: usize)
    requires
        a < graph_order(*old(g)),
        b < graph_order(*old(g)),
        graph_arcs(*old(g)).len() < u32::MAX,
    ensures
        graph_order(*final(g)) == graph_order(*old(g)),
        graph_arcs(*final(g)) == graph_arcs(*old(g)).push((a as int, b as int)),
{
    g.add_edge(NodeIndex::new(a), NodeIndex::new(b), ());
}

/// `petgraph::graph::Graph::node_count`.
#[verifier::external_body]
fn graph_node_count(g: &DiGraph<(), ()>) -> (n: usize)
    ensures
        n == graph_order(*g),
{
    g.node_count()
}

/// `petgraph::graph::Graph::neighbors`: the targets of the arcs that
/// leave node `a` of the graph, one entry per arc. A number that is no
/// node of the graph is left out: node numbers are cut to 32 bits on
/// the way in.
#[verifier::external_body]
fn graph_successors(g: &DiGraph<(), ()>, a: usize) -> (succ: Vec<usize>)
    requires
        a < graph_order(*g),
    ensures
        forall|b: int| has_arc(graph_arcs(*g), a as int, b) <==> exists|j: int|
            0 <= j < succ@.len() && #[trigger] succ@[j] == b,
{
    g.neighbors(NodeIndex::new(a)).map(|n| n.index()).collect()
}

/// `petgraph::algo::kosaraju_scc`: the strongly connected components
/// of the graph, each as a list of its nodes. Every node is in exactly
/// one list; two nodes share a list exactly when each reaches the
/// other; and the lists come in postorder, so that no arc leads from a
/// list to a later one.
#[verifier::external_body]
fn strong_components(g: &DiGraph<(), ()>) -> (comps: Vec<Vec<usize>>)
    ensures
        splits_nodes(node_lists(comps@), graph_order(*g)),
        strongly_splits(node_lists(comps@), graph_arcs(*g)),
{
    kosaraju_scc(g).into_iter().map(|c| c.into_iter().map(|n| n.index()).collect()).collect()
}

/// The arcs among the internal bits: one per Internal→Internal
/// connection, in table order.
pub open spec fn internal_arcs(conns: Seq<Connection>) -> Seq<(int, int)>
    decreases conns.len(),
{
    if conns.len() == 0 {
        Seq::empty()
    } else {
        let front = internal_arcs(conns.drop_last());
        let c = conns.last();
        if c.from_section == Section::Internal && c.to_section == Section::Internal {
            front.push((c.from_index as int, c.to_index as int))
        } else {
            front
        }
    }
}

/// There are no more arcs than connections.
pub proof fn lemma_internal_arcs_len(conns: Seq<Connection>)
    ensures
        internal_arcs(conns).len() <= conns.len(),
    decreases conns.len(),
{
    if conns.len() > 0 {
        lemma_internal_arcs_len(conns.drop_last());
    }
}

/// The graph of the internal wiring: one node per internal bit, one
/// arc per Internal→Internal connection.
pub fn build_internal_graph(chunk: &MycosChunk) -> (g: DiGraph<(), ()>)
    requires
        chunk@.connected(),
        chunk@.connections.len() <= u32::MAX,
    ensures
        graph_order(g) == chunk.internal_count,
        graph_arcs(g) == internal_arcs(chunk@.connections),
{
    let mut g = graph_new();
    let nn: u32 = chunk.internal_count;
    let mut v: u32 = 0;
    while v < nn
        invariant
            v <= nn,
            graph_order(g) == v,
            graph_arcs(g) == Seq::<(int, int)>::empty(),
        decreases nn - v,
    {
        graph_add_node(&mut g);
        v = v + 1;
    }
    let n: usize = chunk.connections.len();
    let mut i: usize = 0;
    assert(chunk@.connections.take(0) =~= Seq::<Connection>::empty());
    while i < n
        invariant
            i <= n,
            n == chunk@.connections.len(),
            n <= u32::MAX,
            nn == chunk.internal_count,
            chunk@.connected(),
            graph_order(g) == nn,
            graph_arcs(g) == internal_arcs(chunk@.connections.take(i as int)),
        decreases n - i,
    {
        let conn: Connection = chunk.connections[i];
        proof {
            assert(chunk@.connections.take(i + 1).drop_last() =~= chunk@.connections.take(
                i as int,
            ));
            assert(chunk@.defect(i as int) is None);
            lemma_internal_arcs_len(chunk@.connections.take(i as int));
        }
        if matches!(conn.from_section, Section::Internal) && matches!(
            conn.to_section,
            Section::Internal
        ) {
            graph_add_edge(&mut g, conn.from_index as usize, conn.to_index as usize);
        }
        i = i + 1;
    }
    assert(chunk@.connections.take(n as int) =~= chunk@.connections);
    g
}


/// Both ends of every arc are nodes below `n`.
pub open spec fn arcs_inside(arcs: Seq<(int, int)>, n: int) -> bool {
    forall|i: int| 0 <= i < arcs.len() ==> 0 <= (#[trigger] arcs[i]).0 < n && 0 <= arcs[i].1 < n
}

/// The arcs of a validated chunk join internal bits that exist.
pub proof fn lemma_internal_arcs_inside(c: ChunkView, k: int)
    requires
        c.connected(),
        0 <= k <= c.connections.len(),
    ensures
        arcs_inside(internal_arcs(c.connections.take(k)), c.internal_count as int),
    decreases k,
{
    if k > 0 {
        lemma_internal_arcs_inside(c, k - 1);
        assert(c.connections.take(k).drop_last() =~= c.connections.take(k - 1));
        assert(c.defect(k - 1) is None);
    }
}

/// The arc joins two different components.
pub open spec fn crosses(ids: Seq<usize>, arc: (int, int)) -> bool {
    ids[arc.0] != ids[arc.1]
}

/// If the arc joins two components, the one it leads to lies at least
/// one level below the one it leaves.
pub open spec fn relaxed(levels: Seq<usize>, ids: Seq<usize>, arc: (int, int)) -> bool {
    crosses(ids, arc) ==> levels[ids[arc.1] as int] >= levels[ids[arc.0] as int] + 1
}

/// The level of component `c` is one more than that of a component
/// with an arc into `c` whose number is at least `lo`.
pub open spec fn witnessed_from(
    levels: Seq<usize>,
    ids: Seq<usize>,
    arcs: Seq<(int, int)>,
    c: int,
    lo: int,
) -> bool {
    exists|i: int|
        0 <= i < arcs.len() && crosses(ids, #[trigger] arcs[i]) && ids[arcs[i].1] == c
            && ids[arcs[i].0] >= lo && levels[c] == levels[ids[arcs[i].0] as int] + 1
}

/// Every level is zero or witnessed by an arc from a component whose
/// number is at least `lo`.
pub open spec fn tight_from(
    levels: Seq<usize>,
    ids: Seq<usize>,
    arcs: Seq<(int, int)>,
    lo: int,
) -> bool {
    forall|c: int|
        0 <= c < levels.len() ==> #[trigger] levels[c] == 0 || witnessed_from(
            levels,
            ids,
            arcs,
            c,
            lo,
        )
}

/// No level is higher than the number of components that come after
/// its own.
pub open spec fn bounded(levels: Seq<usize>) -> bool {
    forall|c: int| 0 <= c < levels.len() ==> #[trigger] levels[c] + c < levels.len()
}

/// `ids` numbers the nodes `0 .. n` by component: the numbers are
/// `0 .. count`, each in use; two nodes have the same number exactly
/// when each reaches the other; and no arc leads from a lower number to
/// a higher one.
pub open spec fn labels_components(
    ids: Seq<usize>,
    count: int,
    arcs: Seq<(int, int)>,
    n: int,
) -> bool {
    &&& ids.len() == n
    &&& forall|v: int| 0 <= v < n ==> (#[trigger] ids[v]) < count
    &&& forall|c: int| 0 <= c < count ==> #[trigger] label_used(ids, c)
    &&& forall|u: int, v: int|
        0 <= u < n && 0 <= v < n ==> ((#[trigger] ids[u] == #[trigger] ids[v]) <==> entangled(
            arcs,
            u,
            v,
        ))
    &&& forall|i: int| 0 <= i < arcs.len() ==> ids[(#[trigger] arcs[i]).1] <= ids[arcs[i].0]
}

/// Some node has the number `c`.
pub open spec fn label_used(ids: Seq<usize>, c: int) -> bool {
    exists|v: int| 0 <= v < ids.len() && #[trigger] ids[v] == c
}

/// `levels` gives every component its longest distance from a
/// component that no arc leads into: along every arc between two
/// components the level grows by at least one, and every level above
/// zero is reached exactly over some arc.
pub open spec fn levels_longest(levels: Seq<usize>, ids: Seq<usize>, arcs: Seq<(int, int)>) -> bool {
    &&& forall|i: int| 0 <= i < arcs.len() ==> relaxed(levels, ids, #[trigger] arcs[i])
    &&& tight_from(levels, ids, arcs, 0)
}

/// A vector of `n` zeros.
fn zeros(n: usize) -> (v: Vec<usize>)
    ensures
        v@.len() == n,
        forall|i: int| 0 <= i < n ==> v@[i] == 0,
{
    let mut v: Vec<usize> = Vec::new();
    let mut i: usize = 0;
    while i < n
        invariant
            i <= n,
            v@.len() == i,
            forall|j: int| 0 <= j < i ==> v@[j] == 0,
        decreases n - i,
    {
        v.push(0usize);
        i = i + 1;
    }
    v
}

/// Gives every node the number of the list that holds it.
fn label_nodes(sccs: &Vec<Vec<usize>>, n: usize) -> (ids: Vec<usize>)
    requires
        splits_nodes(node_lists(sccs@), n as nat),
    ensures
        ids@.len() == n,
        forall|c: int, v: int| #[trigger] comp_has(node_lists(sccs@), c, v) ==> ids@[v] == c,
{
    let ghost comps = node_lists(sccs@);
    let mut ids: Vec<usize> = zeros(n);
    let count: usize = sccs.len();
    let mut id: usize = 0;
    while id < count
        invariant
            id <= count,
            count == sccs@.len(),
            comps == node_lists(sccs@),
            splits_nodes(comps, n as nat),
            ids@.len() == n,
            forall|c: int, v: int| #[trigger] comp_has(comps, c, v) && c < id ==> ids@[v] == c,
        decreases count - id,
    {
        let comp: &Vec<usize> = &sccs[id];
        let len: usize = comp.len();
        let mut k: usize = 0;
        while k < len
            invariant
                k <= len,
                id < count,
                count == sccs@.len(),
                len == comp@.len(),
                comp@ == sccs@[id as int]@,
                comps == node_lists(sccs@),
                splits_nodes(comps, n as nat),
                ids@.len() == n,
                forall|c: int, v: int| #[trigger] comp_has(comps, c, v) && c < id ==> ids@[v] == c,
                forall|j: int| 0 <= j < k ==> ids@[comps[id as int][j]] == id,
            decreases len - k,
        {
            let node: usize = comp[k];
            proof {
                assert(comps[id as int][k as int] == node);
                assert(comps[id as int].contains(node as int));
                assert(comp_has(comps, id as int, node as int));
            }
            let ghost before = ids@;
            ids.set(node, id);
            proof {
                assert forall|c: int, v: int| #[trigger] comp_has(comps, c, v) && c < id implies ids@[v]
                    == c by {
                    if v == node {
                        assert(comp_has(comps, id as int, node as int));
                    }
                }
                assert forall|j: int| 0 <= j < k + 1 implies ids@[comps[id as int][j]] == id by {
                    let v = comps[id as int][j];
                    assert(comps[id as int].contains(v));
                    assert(comp_has(comps, id as int, v));
                    if j < k {
                        assert(before[v] == id);
                    }
                }
            }
            k = k + 1;
        }
        proof {
            assert forall|c: int, v: int| #[trigger] comp_has(comps, c, v) && c < id + 1 implies ids@[v]
                == c by {
                if c == id {
                    let j = choose|j: int| 0 <= j < comps[c].len() && comps[c][j] == v;
                    assert(ids@[comps[id as int][j]] == id);
                }
            }
        }
        id = id + 1;
    }
    ids
}


/// What the level pass relies on throughout: the numbering covers the
/// nodes of the graph, follows the arcs downwards, and there is a level
/// for every number.
spec fn numbered(g: DiGraph<(), ()>, ids: Seq<usize>, count: int) -> bool {
    &&& ids.len() == graph_order(g)
    &&& arcs_inside(graph_arcs(g), ids.len() as int)
    &&& forall|v: int| 0 <= v < ids.len() ==> (#[trigger] ids[v]) < count
    &&& forall|i: int|
        0 <= i < graph_arcs(g).len() ==> ids[(#[trigger] graph_arcs(g)[i]).1] <= ids[graph_arcs(
            g,
        )[i].0]
}

/// Lowers the components that node `a` has arcs into to at least one
/// level below the component of `a`. Levels of components numbered
/// like `a` or higher stay.
fn relax_from_node(levels: &mut Vec<usize>, g: &DiGraph<(), ()>, ids: &Vec<usize>, a: usize)
    requires
        numbered(*g, ids@, old(levels)@.len() as int),
        a < ids@.len(),
        bounded(old(levels)@),
        tight_from(old(levels)@, ids@, graph_arcs(*g), ids@[a as int] as int),
    ensures
        final(levels)@.len() == old(levels)@.len(),
        bounded(final(levels)@),
        tight_from(final(levels)@, ids@, graph_arcs(*g), ids@[a as int] as int),
        forall|c: int|
            ids@[a as int] <= c < old(levels)@.len() ==> final(levels)@[c] == old(levels)@[c],
        forall|c: int| 0 <= c < old(levels)@.len() ==> final(levels)@[c] >= old(levels)@[c],
        forall|i: int|
            0 <= i < graph_arcs(*g).len() && (#[trigger] graph_arcs(*g)[i]).0 == a ==> relaxed(
                final(levels)@,
                ids@,
                graph_arcs(*g)[i],
            ),
{
    let ghost arcs = graph_arcs(*g);
    let u: usize = ids[a];
    let succ: Vec<usize> = graph_successors(g, a);
    let m: usize = succ.len();
    let mut j: usize = 0;
    while j < m
        invariant
            j <= m,
            m == succ@.len(),
            arcs == graph_arcs(*g),
            numbered(*g, ids@, levels@.len() as int),
            a < ids@.len(),
            u == ids@[a as int],
            levels@.len() == old(levels)@.len(),
            forall|b: int| has_arc(arcs, a as int, b) <==> exists|j: int|
                0 <= j < succ@.len() && #[trigger] succ@[j] == b,
            bounded(levels@),
            tight_from(levels@, ids@, arcs, u as int),
            forall|c: int| u <= c < levels@.len() ==> levels@[c] == old(levels)@[c],
            forall|c: int| 0 <= c < levels@.len() ==> levels@[c] >= old(levels)@[c],
            forall|t: int| 0 <= t < j ==> relaxed(levels@, ids@, (a as int, #[trigger] succ@[t] as int)),
        decreases m - j,
    {
        let b: usize = succ[j];
        proof {
            assert(has_arc(arcs, a as int, b as int));
        }
        let ghost w = choose|i: int| 0 <= i < arcs.len() && #[trigger] arcs[i] == (a as int, b as int);
        assert(arcs[w].1 == b);
        let v: usize = ids[b];
        if v != u {
            let cap: usize = levels.len();
            assert(levels@[u as int] + u < cap);
            let want: usize = levels[u] + 1;
            if levels[v] < want {
                let ghost before = levels@;
                levels.set(v, want);
                proof {
                    assert forall|c: int| 0 <= c < levels@.len() implies #[trigger] levels@[c] == 0
                        || witnessed_from(levels@, ids@, arcs, c, u as int) by {
                        if c == v {
                            assert(crosses(ids@, arcs[w]));
                        } else if before[c] != 0 {
                            assert(witnessed_from(before, ids@, arcs, c, u as int));
                            let i = choose|i: int|
                                0 <= i < arcs.len() && crosses(ids@, #[trigger] arcs[i])
                                    && ids@[arcs[i].1] == c && ids@[arcs[i].0] >= u && before[c]
                                    == before[ids@[arcs[i].0] as int] + 1;
                            assert(levels@[ids@[arcs[i].0] as int] == before[ids@[arcs[i].0] as int]);
                        }
                    }
                    assert forall|t: int| 0 <= t < j + 1 implies relaxed(
                        levels@,
                        ids@,
                        (a as int, #[trigger] succ@[t] as int),
                    ) by {
                        if t < j {
                            assert(relaxed(before, ids@, (a as int, succ@[t] as int)));
                            assert(has_arc(arcs, a as int, succ@[t] as int));
                        }
                    }
                }
            }
        }
        j = j + 1;
    }
    proof {
        assert forall|i: int| 0 <= i < arcs.len() && (#[trigger] arcs[i]).0 == a implies relaxed(
            levels@,
            ids@,
            arcs[i],
        ) by {
            let b = arcs[i].1;
            assert(arcs[i] == (a as int, b));
            assert(has_arc(arcs, a as int, b));
            let t = choose|t: int| 0 <= t < succ@.len() && #[trigger] succ@[t] == b;
            assert(relaxed(levels@, ids@, (a as int, succ@[t] as int)));
        }
    }
}

/// The level of every component: the longest distance from a
/// component that no arc leads into.
fn assign_levels(g: &DiGraph<(), ()>, sccs: &Vec<Vec<usize>>, ids: &Vec<usize>) -> (levels: Vec<
    usize,
>)
    requires
        numbered(*g, ids@, sccs@.len() as int),
        splits_nodes(node_lists(sccs@), ids@.len()),
        forall|c: int, v: int| #[trigger] comp_has(node_lists(sccs@), c, v) ==> ids@[v] == c,
    ensures
        levels@.len() == sccs@.len(),
        levels_longest(levels@, ids@, graph_arcs(*g)),
{
    let ghost arcs = graph_arcs(*g);
    let ghost comps = node_lists(sccs@);
    let count: usize = sccs.len();
    let mut levels: Vec<usize> = zeros(count);
    let mut hi: usize = count;
    while hi > 0
        invariant
            hi <= count,
            count == sccs@.len(),
            levels@.len() == count,
            arcs == graph_arcs(*g),
            comps == node_lists(sccs@),
            numbered(*g, ids@, count as int),
            splits_nodes(comps, ids@.len()),
            forall|c: int, v: int| #[trigger] comp_has(comps, c, v) ==> ids@[v] == c,
            bounded(levels@),
            tight_from(levels@, ids@, arcs, hi as int),
            forall|i: int|
                0 <= i < arcs.len() && ids@[(#[trigger] arcs[i]).0] >= hi ==> relaxed(
                    levels@,
                    ids@,
                    arcs[i],
                ),
        decreases hi,
    {
        let u: usize = hi - 1;
        let comp: &Vec<usize> = &sccs[u];
        let len: usize = comp.len();
        let mut k: usize = 0;
        proof {
            assert forall|c: int| 0 <= c < levels@.len() implies #[trigger] levels@[c] == 0
                || witnessed_from(levels@, ids@, arcs, c, u as int) by {
                if levels@[c] != 0 {
                    assert(witnessed_from(levels@, ids@, arcs, c, hi as int));
                }
            }
        }
        while k < len
            invariant
                k <= len,
                u + 1 == hi,
                hi <= count,
                count == sccs@.len(),
                levels@.len() == count,
                len == comp@.len(),
                comp@ == sccs@[u as int]@,
                arcs == graph_arcs(*g),
                comps == node_lists(sccs@),
                numbered(*g, ids@, count as int),
                splits_nodes(comps, ids@.len()),
                forall|c: int, v: int| #[trigger] comp_has(comps, c, v) ==> ids@[v] == c,
                bounded(levels@),
                tight_from(levels@, ids@, arcs, u as int),
                forall|i: int|
                    0 <= i < arcs.len() && ids@[(#[trigger] arcs[i]).0] >= hi ==> relaxed(
                        levels@,
                        ids@,
                        arcs[i],
                    ),
                forall|i: int, t: int|
                    0 <= i < arcs.len() && 0 <= t < k && (#[trigger] arcs[i]).0
                        == #[trigger] comps[u as int][t] ==> relaxed(levels@, ids@, arcs[i]),
            decreases len - k,
        {
            let a: usize = comp[k];
            let ghost before = levels@;
            proof {
                assert(comps[u as int][k as int] == a);
                assert(comps[u as int].contains(a as int));
                assert(comp_has(comps, u as int, a as int));
            }
            relax_from_node(&mut levels, g, ids, a);
            proof {
                assert forall|i: int|
                    0 <= i < arcs.len() && ids@[(#[trigger] arcs[i]).0] >= hi implies relaxed(
                    levels@,
                    ids@,
                    arcs[i],
                ) by {
                    assert(relaxed(before, ids@, arcs[i]));
                }
                assert forall|i: int, t: int|
                    0 <= i < arcs.len() && 0 <= t < k + 1 && (#[trigger] arcs[i]).0
                        == #[trigger] comps[u as int][t] implies relaxed(levels@, ids@, arcs[i]) by {
                    if t < k {
                        assert(relaxed(before, ids@, arcs[i]));
                        assert(comps[u as int].contains(comps[u as int][t]));
                        assert(comp_has(comps, u as int, comps[u as int][t]));
                    }
                }
            }
            k = k + 1;
        }
        proof {
            assert forall|i: int|
                0 <= i < arcs.len() && ids@[(#[trigger] arcs[i]).0] >= u implies relaxed(
                levels@,
                ids@,
                arcs[i],
            ) by {
                let a = arcs[i].0;
                if ids@[a] == u {
                    assert(listed(comps, a));
                    let c = choose|c: int| comp_has(comps, c, a);
                    assert(comp_has(comps, c, a));
                    assert(c == u);
                    let t = choose|t: int| 0 <= t < comps[c].len() && comps[c][t] == a;
                    assert(arcs[i].0 == comps[u as int][t]);
                }
            }
        }
        hi = u;
    }
    levels
}

/// Numbers the internal bits of a validated chunk by strongly
/// connected component, and gives every component its level. The
/// numbering is that of [`labels_components`]: components are numbered
/// so that no arc leads from a lower number to a higher one. The levels
/// are those of [`levels_longest`], so they grow along every arc
/// between two components.
pub fn scc_ids_and_topo_levels(chunk: &MycosChunk) -> (r: (Vec<usize>, Vec<usize>))
    requires
        chunk@.connected(),
        chunk@.connections.len() <= u32::MAX,
    ensures
        labels_components(
            r.0@,
            r.1@.len() as int,
            internal_arcs(chunk@.connections),
            chunk.internal_count as int,
        ),
        levels_longest(r.1@, r.0@, internal_arcs(chunk@.connections)),
{
    let graph = build_internal_graph(chunk);
    let sccs: Vec<Vec<usize>> = strong_components(&graph);
    let n: usize = graph_node_count(&graph);
    let ids: Vec<usize> = label_nodes(&sccs, n);
    let ghost arcs = graph_arcs(graph);
    let ghost comps = node_lists(sccs@);
    proof {
        lemma_internal_arcs_inside(chunk@, chunk@.connections.len() as int);
        assert(chunk@.connections.take(chunk@.connections.len() as int) =~= chunk@.connections);
        assert forall|v: int| 0 <= v < n implies (#[trigger] ids@[v]) < sccs@.len() by {
            assert(listed(comps, v));
            let c = choose|c: int| comp_has(comps, c, v);
            assert(comp_has(comps, c, v));
        }
        assert forall|u: int, v: int| 0 <= u < n && 0 <= v < n implies ((#[trigger] ids@[u]
            == #[trigger] ids@[v]) <==> entangled(arcs, u, v)) by {
            assert(listed(comps, u));
            assert(listed(comps, v));
            let cu = choose|c: int| comp_has(comps, c, u);
            let cv = choose|c: int| comp_has(comps, c, v);
            assert(comp_has(comps, cu, u) && comp_has(comps, cv, v));
        }
        assert forall|i: int| 0 <= i < arcs.len() implies ids@[(#[trigger] arcs[i]).1]
            <= ids@[arcs[i].0] by {
            let u = arcs[i].0;
            let v = arcs[i].1;
            assert(listed(comps, u));
            assert(listed(comps, v));
            let cu = choose|c: int| comp_has(comps, c, u);
            let cv = choose|c: int| comp_has(comps, c, v);
            assert(comp_has(comps, cu, u) && comp_has(comps, cv, v));
            assert(arcs[i] == (u, v));
            assert(has_arc(arcs, u, v));
        }
        assert forall|c: int| 0 <= c < sccs@.len() implies #[trigger] label_used(ids@, c) by {
            assert(comps[c].len() > 0);
            let v = comps[c][0];
            assert(comps[c].contains(v));
            assert(comp_has(comps, c, v));
            assert(ids@[v] == c);
        }
    }
    let levels: Vec<usize> = assign_levels(&graph, &sccs, &ids);
    (ids, levels)
}

/// Every Internal→Internal connection is an arc of the internal
/// wiring.
proof fn lemma_connection_is_arc(conns: Seq<Connection>, i: int)
    requires
        0 <= i < conns.len(),
        conns[i].from_section == Section::Internal,
        conns[i].to_section == Section::Internal,
    ensures
        has_arc(internal_arcs(conns), conns[i].from_index as int, conns[i].to_index as int),
    decreases conns.len(),
{
    let arcs = internal_arcs(conns);
    let front = conns.drop_last();
    if i == conns.len() - 1 {
        assert(arcs[arcs.len() - 1] == (conns[i].from_index as int, conns[i].to_index as int));
    } else {
        assert(front[i] == conns[i]);
        lemma_connection_is_arc(front, i);
        let fa = internal_arcs(front);
        let j = choose|j: int|
            0 <= j < fa.len() && #[trigger] fa[j] == (
                conns[i].from_index as int,
                conns[i].to_index as int,
            );
        assert(arcs[j] == fa[j]);
    }
}

/// Components and levels, seen from the connections. Whatever
/// numbering labels the components of the internal wiring of a validated
/// chunk, with levels that are the longest distances: there is one
/// number per internal bit, every number is that of a level, and along
/// every Internal→Internal connection between two components the level
/// grows.
pub proof fn lemma_levels_along_connections(ids: Seq<usize>, levels: Seq<usize>, c: ChunkView)
    requires
        c.connected(),
        labels_components(
            ids,
            levels.len() as int,
            internal_arcs(c.connections),
            c.internal_count as int,
        ),
        levels_longest(levels, ids, internal_arcs(c.connections)),
    ensures
        ids.len() == c.internal_count,
        forall|v: int| 0 <= v < ids.len() ==> (#[trigger] ids[v]) < levels.len(),
        forall|i: int|
            0 <= i < c.connections.len() && (#[trigger] c.connections[i]).from_section
                == Section::Internal && c.connections[i].to_section == Section::Internal
                && ids[c.connections[i].from_index as int] != ids[c.connections[i].to_index as int]
                ==> levels[ids[c.connections[i].from_index as int] as int]
                < levels[ids[c.connections[i].to_index as int] as int],
{
    let arcs = internal_arcs(c.connections);
    assert forall|i: int|
        0 <= i < c.connections.len() && (#[trigger] c.connections[i]).from_section
            == Section::Internal && c.connections[i].to_section == Section::Internal
            && ids[c.connections[i].from_index as int]
            != ids[c.connections[i].to_index as int] implies levels[ids[c.connections[i].from_index as int] as int]
        < levels[ids[c.connections[i].to_index as int] as int] by {
        lemma_connection_is_arc(c.connections, i);
        let u = c.connections[i].from_index as int;
        let v = c.connections[i].to_index as int;
        let j = choose|j: int| 0 <= j < arcs.len() && #[trigger] arcs[j] == (u, v);
        assert(relaxed(levels, ids, arcs[j]));
    }
}

} // verus!
