//! A directed acyclic graph whose edges carry a source and a target port,
//! kept in a `daggy::Dag`, with at most one edge into each target port.
use vstd::prelude::*;
use daggy::petgraph::visit::Bfs;
use daggy::{Dag, NodeIndex, EdgeIndex, Walker};

verus! {

/// The node and edge store: a `daggy::Dag` without node weights, whose edges
/// carry their (source, target) ports. Verus sees it only through the names
/// `dag_edges` and `dag_node_count` and the functions below.
#[verifier::external_body]
pub struct Graph {
    dag: Dag<(), (u32, u32), u32>,
}

/// An edge as (source node, target node, source port, target port).
pub type EdgeRecord = (u32, u32, u32, u32);

/// The edges of a `Dag`, in the order of their edge indices.
pub uninterp spec fn dag_edges(g: Graph) -> Seq<(u32, u32, u32, u32)>;

/// The number of nodes of a `Dag`; they are indexed `0..count`.
pub uninterp spec fn dag_node_count(g: Graph) -> nat;

pub open spec fn has_edge(es: Seq<EdgeRecord>, a: u32, b: u32) -> bool {
    exists|k: int| 0 <= k < es.len() && (#[trigger] es[k]).0 == a && es[k].1 == b
}

/// `w` is a walk: each node is followed by a child of it.
pub open spec fn is_walk(es: Seq<EdgeRecord>, w: Seq<u32>) -> bool {
    &&& w.len() >= 1
    &&& forall|i: int| 0 <= i < w.len() - 1 ==> #[trigger] has_edge(es, w[i], w[i + 1])
}

/// `b` can be reached from `a` by following edges forward (`a` reaches itself).
pub open spec fn reaches(es: Seq<EdgeRecord>, a: u32, b: u32) -> bool {
    exists|w: Seq<u32>| #[trigger] is_walk(es, w) && w[0] == a && w.last() == b
}

/// No walk of one or more edges returns to where it started.
pub open spec fn acyclic(es: Seq<EdgeRecord>) -> bool {
    forall|w: Seq<u32>| #[trigger] is_walk(es, w) && w.len() >= 2 ==> w[0] != w.last()
}

/// Every edge joins nodes below `n`.
pub open spec fn edges_within(es: Seq<EdgeRecord>, n: nat) -> bool {
    forall|k: int| 0 <= k < es.len() ==> (#[trigger] es[k]).0 < n && es[k].1 < n
}

/// No two edges end in the same target port.
pub open spec fn ports_unique(es: Seq<EdgeRecord>) -> bool {
    forall|i: int, j: int|
        0 <= i < es.len() && 0 <= j < es.len() && i != j ==> !((#[trigger] es[i]).1 == (
        #[trigger] es[j]).1 && es[i].3 == es[j].3)
}

/// The sequence after `Vec::swap_remove(k)`: the last element takes slot `k`.
pub open spec fn swap_removed<A>(s: Seq<A>, k: int) -> Seq<A> {
    s.update(k, s.last()).drop_last()
}

/// Edge `k` exists and ends at node `n`.
pub open spec fn enters(es: Seq<EdgeRecord>, k: u32, n: u32) -> bool {
    k < es.len() && es[k as int].1 == n
}

/// Edge `k` exists and starts at node `n`.
pub open spec fn leaves(es: Seq<EdgeRecord>, k: u32, n: u32) -> bool {
    k < es.len() && es[k as int].0 == n
}

/// Relies on `Dag::new`: an empty graph.
#[verifier::external_body]
fn dag_new() -> (g: Graph)
    ensures
        dag_edges(g) == Seq::<EdgeRecord>::empty(),
        dag_node_count(g) == 0,
{
    Graph { dag: Dag::new() }
}

/// Relies on `Dag::add_node`: the new node takes the next index; it panics
/// only when the `u32` indices are used up.
#[verifier::external_body]
fn dag_add_node(g: &mut Graph) -> (r: u32)
    requires
        dag_node_count(*old(g)) < u32::MAX,
    ensures
        r == dag_node_count(*old(g)),
        dag_node_count(*final(g)) == dag_node_count(*old(g)) + 1,
        dag_edges(*final(g)) == dag_edges(*old(g)),
{
    g.dag.add_node(()).index() as u32
}

/// Relies on `Dag::add_edge`: in an acyclic graph it refuses exactly the
/// edges `a -> b` where `a` can be reached from `b`, and otherwise appends
/// the edge; it panics on a missing node.
#[verifier::external_body]
fn dag_add_edge(g: &mut Graph, a: u32, b: u32, ports: (u32, u32)) -> (r: bool)
    requires
        a < dag_node_count(*old(g)),
        b < dag_node_count(*old(g)),
        acyclic(dag_edges(*old(g))),
        dag_edges(*old(g)).len() < u32::MAX,
    ensures
        r == !reaches(dag_edges(*old(g)), b, a),
        r ==> dag_edges(*final(g)) == dag_edges(*old(g)).push((a, b, ports.0, ports.1)),
        !r ==> dag_edges(*final(g)) == dag_edges(*old(g)),
        dag_node_count(*final(g)) == dag_node_count(*old(g)),
{
    g.dag.add_edge(NodeIndex::new(a as usize), NodeIndex::new(b as usize), ports).is_ok()
}

/// Relies on `Dag::remove_edge`: the last edge takes the removed one's index.
#[verifier::external_body]
fn dag_remove_edge(g: &mut Graph, e: u32)
    requires
        e < dag_edges(*old(g)).len(),
    ensures
        dag_edges(*final(g)) == swap_removed(dag_edges(*old(g)), e as int),
        dag_node_count(*final(g)) == dag_node_count(*old(g)),
{
    g.dag.remove_edge(EdgeIndex::new(e as usize));
}

/// Relies on `Dag::raw_edges`: the edge at index `i`.
#[verifier::external_body]
fn dag_edge(g: &Graph, i: usize) -> (r: EdgeRecord)
    requires
        i < dag_edges(*g).len(),
    ensures
        r == dag_edges(*g)[i as int],
{
    let e = &g.dag.raw_edges()[i];
    (e.source().index() as u32, e.target().index() as u32, e.weight.0, e.weight.1)
}

/// Relies on `Dag::edge_count`.
#[verifier::external_body]
fn dag_edge_count(g: &Graph) -> (r: usize)
    ensures
        r == dag_edges(*g).len(),
{
    g.dag.edge_count()
}

/// Relies on `Dag::parents`: the walker yields each edge into `n` once.
#[verifier::external_body]
fn dag_parents(g: &Graph, n: u32) -> (r: Vec<u32>)
    requires
        n < dag_node_count(*g),
    ensures
        r@.no_duplicates(),
        forall|k: u32| #[trigger] r@.contains(k) <==> enters(dag_edges(*g), k, n),
{
    let mut walker = g.dag.parents(NodeIndex::new(n as usize));
    let mut r = Vec::new();
    while let Some((e, _)) = walker.walk_next(&g.dag) {
        r.push(e.index() as u32);
    }
    r
}

/// Relies on `Dag::children`: the walker yields each edge out of `n` once.
#[verifier::external_body]
fn dag_children(g: &Graph, n: u32) -> (r: Vec<u32>)
    requires
        n < dag_node_count(*g),
    ensures
        r@.no_duplicates(),
        forall|k: u32| #[trigger] r@.contains(k) <==> leaves(dag_edges(*g), k, n),
{
    let mut walker = g.dag.children(NodeIndex::new(n as usize));
    let mut r = Vec::new();
    while let Some((e, _)) = walker.walk_next(&g.dag) {
        r.push(e.index() as u32);
    }
    r
}

/// Relies on petgraph's `Bfs`: it visits each node reachable from `n` once.
#[verifier::external_body]
fn dag_reachable(g: &Graph, n: u32) -> (r: Vec<u32>)
    requires
        n < dag_node_count(*g),
    ensures
        r@.no_duplicates(),
        forall|m: u32| #[trigger] r@.contains(m) <==> reaches(dag_edges(*g), n, m),
{
    let mut bfs = Bfs::new(g.dag.graph(), NodeIndex::new(n as usize));
    let mut r = Vec::new();
    while let Some(m) = bfs.next(g.dag.graph()) {
        r.push(m.index() as u32);
    }
    r
}

/// A walk that ends at the source of a new edge `e` leads there without `e`.
proof fn lemma_walk_back(es: Seq<EdgeRecord>, e: EdgeRecord, q: Seq<u32>)
    requires
        is_walk(es.push(e), q),
        q.last() == e.0,
    ensures
        reaches(es, q[0], e.0),
    decreases q.len(),
{
    let es2 = es.push(e);
    if q[0] == e.0 {
        assert(is_walk(es, seq![q[0]]));
        assert(seq![q[0]].last() == e.0);
    } else {
        let i = 0int;
        assert(has_edge(es2, q[i], q[i + 1]));
        let k = choose|k: int| 0 <= k < es2.len() && (#[trigger] es2[k]).0 == q[0] && es2[k].1 == q[1];
        assert(k < es.len());
        assert(es2[k] == es[k]);
        assert(has_edge(es, q[0], q[1]));
        let t = q.skip(1);
        assert forall|j: int| 0 <= j < t.len() - 1 implies #[trigger] has_edge(es2, t[j], t[j + 1]) by {
            assert(has_edge(es2, q[j + 1], q[j + 1 + 1]));
        }
        lemma_walk_back(es, e, t);
        let p = choose|p: Seq<u32>| #[trigger] is_walk(es, p) && p[0] == t[0] && p.last() == e.0;
        let w = seq![q[0]] + p;
        assert forall|j: int| 0 <= j < w.len() - 1 implies #[trigger] has_edge(es, w[j], w[j + 1]) by {
            if j > 0 {
                assert(w[j] == p[j - 1] && w[j + 1] == p[j - 1 + 1]);
                assert(has_edge(es, p[j - 1], p[j - 1 + 1]));
            }
        }
        assert(is_walk(es, w));
        assert(w.last() == e.0);
    }
}

/// Adding an edge `a -> b` where `b` does not reach `a` keeps a graph acyclic.
pub proof fn lemma_push_acyclic(es: Seq<EdgeRecord>, e: EdgeRecord)
    requires
        acyclic(es),
        !reaches(es, e.1, e.0),
    ensures
        acyclic(es.push(e)),
{
    let es2 = es.push(e);
    assert forall|w: Seq<u32>| #[trigger] is_walk(es2, w) && w.len() >= 2 implies w[0] != w.last() by {
        if w[0] == w.last() {
            if forall|i: int| 0 <= i < w.len() - 1 ==> #[trigger] has_edge(es, w[i], w[i + 1]) {
                assert(is_walk(es, w));
            } else {
                let i = choose|i: int| 0 <= i < w.len() - 1 && !#[trigger] has_edge(es, w[i], w[i + 1]);
                assert(has_edge(es2, w[i], w[i + 1]));
                let k = choose|k: int| 0 <= k < es2.len() && (#[trigger] es2[k]).0 == w[i] && es2[k].1 == w[i + 1];
                if k < es.len() {
                    assert(es2[k] == es[k]);
                    assert(has_edge(es, w[i], w[i + 1]));
                }
                assert(w[i] == e.0 && w[i + 1] == e.1);
                let len = w.len() as int;
                let q = w.subrange(i + 1, len) + w.subrange(1, i + 1);
                let l1 = len - i - 1;
                assert forall|j: int| 0 <= j < q.len() - 1 implies #[trigger] has_edge(es2, q[j], q[j + 1]) by {
                    if j < l1 - 1 {
                        assert(q[j] == w[i + 1 + j] && q[j + 1] == w[i + 1 + j + 1]);
                        assert(has_edge(es2, w[i + 1 + j], w[i + 1 + j + 1]));
                    } else if j == l1 - 1 {
                        let z = 0int;
                        assert(q[j] == w[z] && q[j + 1] == w[z + 1]);
                        assert(has_edge(es2, w[z], w[z + 1]));
                    } else {
                        let m = j - l1 + 1;
                        assert(q[j] == w[m] && q[j + 1] == w[m + 1]);
                        assert(has_edge(es2, w[m], w[m + 1]));
                    }
                }
                assert(q[0] == e.1);
                assert(q.last() == e.0);
                lemma_walk_back(es, e, q);
            }
        }
    }
}

/// A graph whose edges all stand in an acyclic graph is acyclic.
pub proof fn lemma_sub_acyclic(es: Seq<EdgeRecord>, es2: Seq<EdgeRecord>)
    requires
        acyclic(es),
        forall|a: u32, b: u32| #[trigger] has_edge(es2, a, b) ==> has_edge(es, a, b),
    ensures
        acyclic(es2),
{
    assert forall|w: Seq<u32>| #[trigger] is_walk(es2, w) && w.len() >= 2 implies w[0] != w.last() by {
        assert forall|i: int| 0 <= i < w.len() - 1 implies #[trigger] has_edge(es, w[i], w[i + 1]) by {
            assert(has_edge(es2, w[i], w[i + 1]));
        }
        assert(is_walk(es, w));
    }
}

/// What removing the edge at index `k` does to the edges.
pub proof fn lemma_swap_removed(es: Seq<EdgeRecord>, k: int)
    requires
        0 <= k < es.len(),
        ports_unique(es),
    ensures
        swap_removed(es, k).len() == es.len() - 1,
        forall|x: EdgeRecord| #[trigger] swap_removed(es, k).contains(x) <==> es.contains(x) && x != es[k],
        forall|a: u32, b: u32| #[trigger] has_edge(swap_removed(es, k), a, b) ==> has_edge(es, a, b),
        ports_unique(swap_removed(es, k)),
{
    let sw = swap_removed(es, k);
    let last = es.len() - 1;
    assert forall|i: int| 0 <= i < sw.len() implies #[trigger] sw[i] == es[if i == k { last } else { i }] by {}
    assert forall|x: EdgeRecord| #[trigger] sw.contains(x) <==> es.contains(x) && x != es[k] by {
        if sw.contains(x) {
            let i = choose|i: int| 0 <= i < sw.len() && sw[i] == x;
            let j = if i == k { last } else { i };
            assert(es[j] == x);
            assert(j != k);
        }
        if es.contains(x) && x != es[k] {
            let j = choose|j: int| 0 <= j < es.len() && es[j] == x;
            if j == last {
                assert(sw[k] == x);
            } else {
                assert(sw[j] == x);
            }
        }
    }
    assert forall|a: u32, b: u32| #[trigger] has_edge(sw, a, b) implies has_edge(es, a, b) by {
        let i = choose|i: int| 0 <= i < sw.len() && (#[trigger] sw[i]).0 == a && sw[i].1 == b;
        let j = if i == k { last } else { i };
        assert(es[j] == sw[i]);
    }
    assert forall|i: int, j: int| 0 <= i < sw.len() && 0 <= j < sw.len() && i != j implies !((
    #[trigger] sw[i]).1 == (#[trigger] sw[j]).1 && sw[i].3 == sw[j].3) by {
        let i2 = if i == k { last } else { i };
        let j2 = if j == k { last } else { j };
        assert(es[i2] == sw[i] && es[j2] == sw[j]);
    }
}

/// Removing by swap keeps every other element and adds none.
pub proof fn lemma_swap_removed_basic(es: Seq<EdgeRecord>, k: int)
    requires
        0 <= k < es.len(),
    ensures
        swap_removed(es, k).len() == es.len() - 1,
        forall|i: int|
            0 <= i < swap_removed(es, k).len() ==> #[trigger] swap_removed(es, k)[i] == es[if i == k {
                es.len() - 1
            } else {
                i
            }],
        forall|x: EdgeRecord| #[trigger] swap_removed(es, k).contains(x) ==> es.contains(x),
        forall|j: int| 0 <= j < es.len() && j != k ==> swap_removed(es, k).contains(#[trigger] es[j]),
        forall|a: u32, b: u32| #[trigger] has_edge(swap_removed(es, k), a, b) ==> has_edge(es, a, b),
{
    let sw = swap_removed(es, k);
    let last = es.len() - 1;
    assert forall|x: EdgeRecord| #[trigger] sw.contains(x) implies es.contains(x) by {
        let i = choose|i: int| 0 <= i < sw.len() && sw[i] == x;
        let j = if i == k { last } else { i };
        assert(es[j] == x);
    }
    assert forall|j: int| 0 <= j < es.len() && j != k implies sw.contains(#[trigger] es[j]) by {
        if j == last {
            assert(sw[k] == es[j]);
        } else {
            assert(sw[j] == es[j]);
        }
    }
    assert forall|a: u32, b: u32| #[trigger] has_edge(sw, a, b) implies has_edge(es, a, b) by {
        let i = choose|i: int| 0 <= i < sw.len() && (#[trigger] sw[i]).0 == a && sw[i].1 == b;
        let j = if i == k { last } else { i };
        assert(es[j] == sw[i]);
    }
}

/// How the degrees change when the element at `k` is replaced.
proof fn lemma_degree_update(es: Seq<EdgeRecord>, k: int, x: EdgeRecord, n: u32)
    requires
        0 <= k < es.len(),
    ensures
        out_degree(es.update(k, x), n) + (if es[k].0 == n { 1int } else { 0 }) == out_degree(es, n)
            + (if x.0 == n { 1int } else { 0 }),
        in_degree(es.update(k, x), n) + (if es[k].1 == n { 1int } else { 0 }) == in_degree(es, n)
            + (if x.1 == n { 1int } else { 0 }),
    decreases es.len(),
{
    let u = es.update(k, x);
    if k == es.len() - 1 {
        assert(u.drop_last() =~= es.drop_last());
    } else {
        assert(u.drop_last() =~= es.drop_last().update(k, x));
        lemma_degree_update(es.drop_last(), k, x, n);
    }
}

/// Removing the edge at `k` lowers the degrees of its endpoints by one.
proof fn lemma_degree_swap_removed(es: Seq<EdgeRecord>, k: int, n: u32)
    requires
        0 <= k < es.len(),
    ensures
        out_degree(swap_removed(es, k), n) + (if es[k].0 == n { 1int } else { 0 }) == out_degree(es, n),
        in_degree(swap_removed(es, k), n) + (if es[k].1 == n { 1int } else { 0 }) == in_degree(es, n),
{
    let u = es.update(k, es.last());
    lemma_degree_update(es, k, es.last(), n);
    assert(u.last() == es.last());
}

/// No edge starts at `n` exactly when its out-degree is zero.
proof fn lemma_degree_zero(es: Seq<EdgeRecord>, n: u32)
    ensures
        (forall|k: int| 0 <= k < es.len() ==> (#[trigger] es[k]).0 != n) ==> out_degree(es, n) == 0,
        (forall|k: int| 0 <= k < es.len() ==> (#[trigger] es[k]).1 != n) ==> in_degree(es, n) == 0,
    decreases es.len(),
{
    if es.len() > 0 {
        lemma_degree_zero(es.drop_last(), n);
        assert forall|k: int| 0 <= k < es.drop_last().len() implies #[trigger] es.drop_last()[k] == es[k] by {}
    }
}

/// The port numbers an edge carries.
#[derive(Clone, Copy, Debug, PartialEq, Eq, Structural)]
pub struct Edge {
    pub source: u32,
    pub target: u32,
}

/// A numbered port of a node.
#[derive(Clone, Copy, Debug, PartialEq, Eq, Structural)]
pub struct Port {
    pub node: u32,
    pub port: u32,
}

/// The port `port` of node `node`.
pub fn port(node: u32, index: u32) -> (r: Port)
    ensures
        r == (Port { node, port: index }),
{
    Port { node, port: index }
}

/// Why an edge was refused.
#[derive(Clone, Copy, Debug, PartialEq, Eq, Structural)]
pub enum WouldBreak {
    /// The edge would close a cycle.
    WouldCycle,
    /// The edge would break a port-arity rule (not checked at this layer).
    WouldUnport,
}

/// Some edge ends in port `port` of node `node`.
pub open spec fn occupied(es: Seq<EdgeRecord>, node: u32, port: u32) -> bool {
    exists|k: int| 0 <= k < es.len() && (#[trigger] es[k]).1 == node && es[k].3 == port
}

/// The edge set after a successful connection from `src` into `trg`: the new
/// edge, and every other edge but the one that ended in `trg`.
pub open spec fn after_connect(es: Set<EdgeRecord>, src: Port, trg: Port) -> Set<EdgeRecord> {
    es.filter(|e: EdgeRecord| !(e.1 == trg.node && e.3 == trg.port)).insert(
        (src.node, trg.node, src.port, trg.port),
    )
}

/// How many edges start at node `n`.
pub open spec fn out_degree(es: Seq<EdgeRecord>, n: u32) -> nat
    decreases es.len(),
{
    if es.len() == 0 {
        0
    } else {
        out_degree(es.drop_last(), n) + if es.last().0 == n { 1nat } else { 0nat }
    }
}

/// How many edges end at node `n`.
pub open spec fn in_degree(es: Seq<EdgeRecord>, n: u32) -> nat
    decreases es.len(),
{
    if es.len() == 0 {
        0
    } else {
        in_degree(es.drop_last(), n) + if es.last().1 == n { 1nat } else { 0nat }
    }
}

/// A port-numbered DAG with node weights of type `N`. A removed node leaves
/// an empty slot, so node handles stay valid and are never reused.
pub struct PortNumbered<N> {
    dag: Graph,
    weights: Vec<Option<N>>,
}

impl<N> PortNumbered<N> {
    /// The edges, in insertion order up to the removals.
    pub closed spec fn edge_seq(&self) -> Seq<EdgeRecord> {
        dag_edges(self.dag)
    }

    /// The node slots; `None` for a removed node.
    pub closed spec fn nodes(&self) -> Seq<Option<N>> {
        self.weights@
    }

    pub open spec fn live(&self, n: u32) -> bool {
        n < self.nodes().len() && self.nodes()[n as int] is Some
    }

    /// The graph's invariant: edges join live nodes, no cycle, and each
    /// target port has at most one edge.
    pub closed spec fn wf(&self) -> bool {
        &&& dag_node_count(self.dag) == self.weights@.len()
        &&& self.weights@.len() <= u32::MAX
        &&& dag_edges(self.dag).len() <= u32::MAX
        &&& edges_within(dag_edges(self.dag), self.weights@.len())
        &&& forall|k: int|
            0 <= k < dag_edges(self.dag).len() ==> self.weights@[(#[trigger] dag_edges(
                self.dag,
            )[k]).0 as int] is Some && self.weights@[dag_edges(self.dag)[k].1 as int] is Some
        &&& acyclic(dag_edges(self.dag))
        &&& ports_unique(dag_edges(self.dag))
    }

    /// What the invariant promises to callers.
    pub proof fn lemma_wf(&self)
        requires
            self.wf(),
        ensures
            acyclic(self.edge_seq()),
            ports_unique(self.edge_seq()),
            self.nodes().len() <= u32::MAX,
            self.edge_seq().len() <= u32::MAX,
            forall|k: int|
                0 <= k < self.edge_seq().len() ==> self.live((#[trigger] self.edge_seq()[k]).0)
                    && self.live(self.edge_seq()[k].1),
    {
    }

    pub fn new() -> (r: PortNumbered<N>)
        ensures
            r.wf(),
            r.edge_seq() == Seq::<EdgeRecord>::empty(),
            r.nodes() == Seq::<Option<N>>::empty(),
    {
        let r = PortNumbered { dag: dag_new(), weights: Vec::new() };
        assert(acyclic(r.edge_seq())) by {
            assert forall|w: Seq<u32>| #[trigger] is_walk(r.edge_seq(), w) && w.len() >= 2 implies w[0]
                != w.last() by {
                let i = 0int;
                assert(has_edge(r.edge_seq(), w[i], w[i + 1]));
            }
        }
        r
    }

    /// How many node slots there are, removed ones included.
    pub fn node_count(&self) -> (r: usize)
        ensures
            r == self.nodes().len(),
    {
        self.weights.len()
    }

    /// Adds a node; its handle is the next free slot.
    pub fn add_node(&mut self, weight: N) -> (r: u32)
        requires
            old(self).wf(),
            old(self).nodes().len() < u32::MAX,
        ensures
            final(self).wf(),
            r == old(self).nodes().len(),
            final(self).nodes() == old(self).nodes().push(Some(weight)),
            final(self).edge_seq() == old(self).edge_seq(),
    {
        let r = dag_add_node(&mut self.dag);
        self.weights.push(Some(weight));
        proof {
            assert forall|k: int| 0 <= k < dag_edges(self.dag).len() implies self.weights@[(
            #[trigger] dag_edges(self.dag)[k]).0 as int] is Some && self.weights@[dag_edges(
                self.dag,
            )[k].1 as int] is Some by {
                assert(dag_edges(self.dag)[k] == dag_edges(old(self).dag)[k]);
            }
        }
        r
    }

    /// The weight of node `n`, if it is live.
    pub fn node_weight(&self, n: u32) -> (r: Option<&N>)
        ensures
            self.live(n) ==> r == Some(&self.nodes()[n as int].unwrap()),
            !self.live(n) ==> r is None,
    {
        if (n as usize) < self.weights.len() {
            match &self.weights[n as usize] {
                Some(w) => Some(w),
                None => None,
            }
        } else {
            None
        }
    }

    /// Mutable access to the weight of a live node.
    pub fn weight_mut(&mut self, n: u32) -> (r: &mut N)
        requires
            old(self).wf(),
            old(self).live(n),
        ensures
            *r == old(self).nodes()[n as int].unwrap(),
            final(self).nodes() == old(self).nodes().update(n as int, Some(*final(r))),
            final(self).edge_seq() == old(self).edge_seq(),
            final(self).wf(),
    {
        self.weights[n as usize].as_mut().unwrap()
    }

    /// Every edge, as (source port, target port), in edge order.
    pub fn edges(&self) -> (r: Vec<(Port, Port)>)
        ensures
            r@.len() == self.edge_seq().len(),
            forall|k: int|
                0 <= k < r@.len() ==> #[trigger] r@[k] == (
                    Port { node: self.edge_seq()[k].0, port: self.edge_seq()[k].2 },
                    Port { node: self.edge_seq()[k].1, port: self.edge_seq()[k].3 },
                ),
    {
        let n = dag_edge_count(&self.dag);
        let mut r: Vec<(Port, Port)> = Vec::new();
        let mut i: usize = 0;
        while i < n
            invariant
                n == self.edge_seq().len(),
                i <= n,
                r@.len() == i,
                forall|k: int|
                    0 <= k < i ==> #[trigger] r@[k] == (
                        Port { node: self.edge_seq()[k].0, port: self.edge_seq()[k].2 },
                        Port { node: self.edge_seq()[k].1, port: self.edge_seq()[k].3 },
                    ),
            decreases n - i,
        {
            let e = dag_edge(&self.dag, i);
            r.push((Port { node: e.0, port: e.2 }, Port { node: e.1, port: e.3 }));
            i += 1;
        }
        r
    }
}

/// The edge that ends in port `port` of node `node` (meaningful when one does).
pub open spec fn port_edge(es: Seq<EdgeRecord>, node: u32, port: u32) -> EdgeRecord {
    es[choose|k: int| 0 <= k < es.len() && (#[trigger] es[k]).1 == node && es[k].3 == port]
}

impl<N> PortNumbered<N> {
    /// Removes the edge at index `k`; the last edge takes its index.
    fn remove_edge_at(&mut self, k: usize)
        requires
            old(self).wf(),
            k < old(self).edge_seq().len(),
        ensures
            final(self).wf(),
            final(self).edge_seq() == swap_removed(old(self).edge_seq(), k as int),
            final(self).nodes() == old(self).nodes(),
    {
        proof {
            lemma_swap_removed(dag_edges(self.dag), k as int);
            lemma_swap_removed_basic(dag_edges(self.dag), k as int);
        }
        dag_remove_edge(&mut self.dag, k as u32);
        proof {
            lemma_sub_acyclic(dag_edges(old(self).dag), dag_edges(self.dag));
            let es = dag_edges(old(self).dag);
            let sw = dag_edges(self.dag);
            assert forall|i: int| 0 <= i < sw.len() implies (#[trigger] sw[i]).0 < self.weights@.len()
                && sw[i].1 < self.weights@.len() && self.weights@[sw[i].0 as int] is Some
                && self.weights@[sw[i].1 as int] is Some by {
                let j = if i == k { es.len() - 1 } else { i };
                assert(sw[i] == es[j]);
            }
        }
    }

    /// The index of the edge into port `trg`, if there is one.
    fn find_port_edge(&self, trg: Port) -> (r: Option<usize>)
        requires
            self.wf(),
            self.live(trg.node),
        ensures
            r matches Some(k) ==> k < self.edge_seq().len() && self.edge_seq()[k as int].1 == trg.node
                && self.edge_seq()[k as int].3 == trg.port,
            r is None ==> !occupied(self.edge_seq(), trg.node, trg.port),
    {
        let ps = dag_parents(&self.dag, trg.node);
        let mut i: usize = 0;
        while i < ps.len()
            invariant
                i <= ps@.len(),
                forall|k: u32| #[trigger] ps@.contains(k) <==> enters(dag_edges(self.dag), k, trg.node),
                forall|j: int| 0 <= j < i ==> dag_edges(self.dag)[ps@[j] as int].3 != trg.port,
            decreases ps.len() - i,
        {
            let k = ps[i];
            assert(ps@.contains(k));
            let e = dag_edge(&self.dag, k as usize);
            if e.3 == trg.port {
                return Some(k as usize);
            }
            i += 1;
        }
        proof {
            let es = dag_edges(self.dag);
            if occupied(es, trg.node, trg.port) {
                let k = choose|k: int| 0 <= k < es.len() && (#[trigger] es[k]).1 == trg.node && es[k].3
                    == trg.port;
                assert(enters(es, k as u32, trg.node));
                assert(ps@.contains(k as u32));
                let j = choose|j: int| 0 <= j < ps@.len() && ps@[j] == k as u32;
                assert(es[ps@[j] as int].3 != trg.port);
            }
        }
        None
    }
}

impl<N> PortNumbered<N> {
    /// The edge at index `k`.
    pub fn edge_at(&self, k: usize) -> (r: EdgeRecord)
        requires
            k < self.edge_seq().len(),
        ensures
            r == self.edge_seq()[k as int],
    {
        dag_edge(&self.dag, k)
    }

    /// How many edges there are.
    pub fn edge_count(&self) -> (r: usize)
        ensures
            r == self.edge_seq().len(),
    {
        dag_edge_count(&self.dag)
    }

    /// Connects `src` to `trg`. An edge already in `trg` is replaced, but
    /// only once the new edge is known not to close a cycle; an edge that
    /// would close one is refused and nothing changes.
    pub fn update_edge(&mut self, src: Port, trg: Port) -> (r: Result<(), WouldBreak>)
        requires
            old(self).wf(),
            old(self).live(src.node),
            old(self).live(trg.node),
            old(self).edge_seq().len() < u32::MAX,
        ensures
            final(self).wf(),
            final(self).nodes() == old(self).nodes(),
            r is Ok <==> !reaches(old(self).edge_seq(), trg.node, src.node),
            r is Err ==> r == Err::<(), WouldBreak>(WouldBreak::WouldCycle) && final(self).edge_seq()
                == old(self).edge_seq(),
            r is Ok ==> final(self).edge_seq().to_set() == after_connect(
                old(self).edge_seq().to_set(),
                src,
                trg,
            ),
            r is Ok ==> final(self).edge_seq().len() == old(self).edge_seq().len() + if occupied(
                old(self).edge_seq(),
                trg.node,
                trg.port,
            ) {
                0int
            } else {
                1int
            },
    {
        let replaced = self.find_port_edge(trg);
        let ghost es = dag_edges(self.dag);
        let ghost new = (src.node, trg.node, src.port, trg.port);
        if !dag_add_edge(&mut self.dag, src.node, trg.node, (src.port, trg.port)) {
            return Err(WouldBreak::WouldCycle);
        }
        let ghost es1 = dag_edges(self.dag);
        proof {
            lemma_push_acyclic(es, new);
            assert(es1 == es.push(new));
        }
        match replaced {
            Some(k) => {
                proof {
                    lemma_swap_removed_basic(es1, k as int);
                }
                dag_remove_edge(&mut self.dag, k as u32);
                proof {
                    let es2 = dag_edges(self.dag);
                    lemma_sub_acyclic(es1, es2);
                    assert forall|i: int| 0 <= i < es2.len() implies (#[trigger] es2[i]).0
                        < self.weights@.len() && es2[i].1 < self.weights@.len()
                        && self.weights@[es2[i].0 as int] is Some
                        && self.weights@[es2[i].1 as int] is Some by {
                        let j = if i == k { es1.len() - 1 } else { i };
                        assert(es2[i] == es1[j]);
                    }
                    assert forall|i: int, j: int|
                        0 <= i < es2.len() && 0 <= j < es2.len() && i != j implies !((
                        #[trigger] es2[i]).1 == (#[trigger] es2[j]).1 && es2[i].3 == es2[j].3) by {
                        let i2 = if i == k { es1.len() - 1 } else { i };
                        let j2 = if j == k { es1.len() - 1 } else { j };
                        assert(es2[i] == es1[i2] && es2[j] == es1[j2]);
                        if i2 == es.len() && es2[i].1 == es2[j].1 && es2[i].3 == es2[j].3 {
                            assert(es1[j2] == es[j2]);
                        }
                        if j2 == es.len() && es2[i].1 == es2[j].1 && es2[i].3 == es2[j].3 {
                            assert(es1[i2] == es[i2]);
                        }
                    }
                    let target = after_connect(es.to_set(), src, trg);
                    assert forall|x: EdgeRecord| es2.to_set().contains(x) <==> target.contains(x) by {
                        if es2.contains(x) {
                            let i = choose|i: int| 0 <= i < es2.len() && es2[i] == x;
                            let j = if i == k { es1.len() - 1 } else { i };
                            assert(es1[j] == x);
                            if j < es.len() {
                                assert(es[j] == x);
                                assert(es.contains(x));
                            }
                        }
                        if target.contains(x) {
                            if x == new {
                                assert(es1[es.len() as int] == x);
                            } else {
                                assert(es.contains(x));
                                let j = choose|j: int| 0 <= j < es.len() && es[j] == x;
                                assert(es1[j] == x);
                            }
                        }
                    }
                    assert(es2.to_set() =~= target);
                }
            },
            None => {
                proof {
                    let target = after_connect(es.to_set(), src, trg);
                    assert forall|x: EdgeRecord| es1.to_set().contains(x) <==> target.contains(x) by {
                        if es1.contains(x) {
                            let i = choose|i: int| 0 <= i < es1.len() && es1[i] == x;
                            if i < es.len() {
                                assert(es[i] == x);
                                assert(es.contains(x));
                            }
                        }
                        if target.contains(x) && x != new {
                            let j = choose|j: int| 0 <= j < es.len() && es[j] == x;
                            assert(es1[j] == x);
                        }
                        if x == new {
                            assert(es1[es.len() as int] == x);
                        }
                    }
                    assert(es1.to_set() =~= target);
                    assert forall|i: int, j: int|
                        0 <= i < es1.len() && 0 <= j < es1.len() && i != j implies !((
                        #[trigger] es1[i]).1 == (#[trigger] es1[j]).1 && es1[i].3 == es1[j].3) by {
                        if i < es.len() && j < es.len() {
                            assert(es1[i] == es[i] && es1[j] == es[j]);
                        } else if i < es.len() {
                            assert(es1[i] == es[i]);
                        } else {
                            assert(es1[j] == es[j]);
                        }
                    }
                }
            },
        }
        Ok(())
    }
}

impl<N> PortNumbered<N> {
    /// Removes the edge into port `trg` and returns the port it came from.
    pub fn remove_edge_to_port(&mut self, trg: Port) -> (r: Option<Port>)
        requires
            old(self).wf(),
        ensures
            final(self).wf(),
            final(self).nodes() == old(self).nodes(),
            (old(self).live(trg.node) && occupied(old(self).edge_seq(), trg.node, trg.port)) ==> ({
                let e = port_edge(old(self).edge_seq(), trg.node, trg.port);
                &&& r == Some(Port { node: e.0, port: e.2 })
                &&& final(self).edge_seq().to_set() == old(self).edge_seq().to_set().remove(e)
                &&& final(self).edge_seq().len() == old(self).edge_seq().len() - 1
            }),
            !(old(self).live(trg.node) && occupied(old(self).edge_seq(), trg.node, trg.port)) ==> r is None
                && final(self).edge_seq() == old(self).edge_seq(),
    {
        if (trg.node as usize) >= self.weights.len() || self.weights[trg.node as usize].is_none() {
            return None;
        }
        match self.find_port_edge(trg) {
            None => None,
            Some(k) => {
                let e = dag_edge(&self.dag, k);
                let ghost es = dag_edges(self.dag);
                proof {
                    let c = choose|c: int| 0 <= c < es.len() && (#[trigger] es[c]).1 == trg.node && es[c].3
                        == trg.port;
                    assert(c == k);
                    lemma_swap_removed(es, k as int);
                    assert(es.contains(e));
                }
                self.remove_edge_at(k);
                proof {
                    let es2 = dag_edges(self.dag);
                    assert(es2.to_set() =~= es.to_set().remove(e));
                }
                Some(Port { node: e.0, port: e.2 })
            },
        }
    }

    /// Removes every edge that starts at `n`.
    /// A handle that was never given out has no edges, and nothing changes.
    pub fn remove_outgoing_edges(&mut self, n: u32)
        requires
            old(self).wf(),
        ensures
            final(self).wf(),
            final(self).nodes() == old(self).nodes(),
            final(self).edge_seq().len() == old(self).edge_seq().len() - out_degree(old(self).edge_seq(), n),
            forall|x: EdgeRecord| #[trigger] final(self).edge_seq().contains(x) <==> old(self).edge_seq().contains(x) && x.0 != n,
            in_degree(final(self).edge_seq(), n) == in_degree(old(self).edge_seq(), n),
    {
        if (n as usize) >= self.weights.len() {
            proof {
                let es = dag_edges(self.dag);
                assert forall|k: int| 0 <= k < es.len() implies (#[trigger] es[k]).0 != n by {}
                lemma_degree_zero(es, n);
            }
            return;
        }
        loop
            invariant
                self.wf(),
                n < self.weights@.len(),
                self.weights@ == old(self).weights@,
                dag_edges(self.dag).len() + out_degree(old(self).edge_seq(), n) == old(self).edge_seq().len()
                    + out_degree(dag_edges(self.dag), n),
                in_degree(dag_edges(self.dag), n) == in_degree(old(self).edge_seq(), n),
                forall|x: EdgeRecord| #[trigger] dag_edges(self.dag).contains(x) ==> old(self).edge_seq().contains(x),
                forall|x: EdgeRecord| old(self).edge_seq().contains(x) && x.0 != n ==> #[trigger] dag_edges(self.dag).contains(x),
            ensures
                forall|x: EdgeRecord| #[trigger] dag_edges(self.dag).contains(x) ==> x.0 != n,
                out_degree(dag_edges(self.dag), n) == 0,
            decreases dag_edges(self.dag).len(),
        {
            let cs = dag_children(&self.dag, n);
            if cs.len() == 0 {
                proof {
                    let es = dag_edges(self.dag);
                    assert forall|k: int| 0 <= k < es.len() implies (#[trigger] es[k]).0 != n by {
                        if es[k].0 == n {
                            assert(leaves(es, k as u32, n));
                            assert(cs@.contains(k as u32));
                        }
                    }
                    lemma_degree_zero(es, n);
                    assert forall|x: EdgeRecord| #[trigger] es.contains(x) implies x.0 != n by {
                        let k = choose|k: int| 0 <= k < es.len() && es[k] == x;
                        assert(es[k].0 != n);
                    }
                }
                break;
            }
            let k = cs[0];
            assert(cs@.contains(k));
            proof {
                let es = dag_edges(self.dag);
                if es[k as int].1 == n {
                    assert(has_edge(es, n, n));
                    let w = seq![n, n];
                    assert(is_walk(es, w));
                }
                lemma_degree_swap_removed(es, k as int, n);
                lemma_swap_removed(es, k as int);
            }
            self.remove_edge_at(k as usize);
        }
    }

    /// Removes every edge that ends at `n`.
    fn remove_incoming_edges(&mut self, n: u32)
        requires
            old(self).wf(),
            n < old(self).nodes().len(),
        ensures
            final(self).wf(),
            final(self).nodes() == old(self).nodes(),
            final(self).edge_seq().len() == old(self).edge_seq().len() - in_degree(old(self).edge_seq(), n),
            forall|x: EdgeRecord| #[trigger] final(self).edge_seq().contains(x) <==> old(self).edge_seq().contains(x) && x.1 != n,
    {
        loop
            invariant
                self.wf(),
                n < self.weights@.len(),
                self.weights@ == old(self).weights@,
                dag_edges(self.dag).len() + in_degree(old(self).edge_seq(), n) == old(self).edge_seq().len()
                    + in_degree(dag_edges(self.dag), n),
                forall|x: EdgeRecord| #[trigger] dag_edges(self.dag).contains(x) ==> old(self).edge_seq().contains(x),
                forall|x: EdgeRecord| old(self).edge_seq().contains(x) && x.1 != n ==> #[trigger] dag_edges(self.dag).contains(x),
            ensures
                forall|x: EdgeRecord| #[trigger] dag_edges(self.dag).contains(x) ==> x.1 != n,
                in_degree(dag_edges(self.dag), n) == 0,
            decreases dag_edges(self.dag).len(),
        {
            let ps = dag_parents(&self.dag, n);
            if ps.len() == 0 {
                proof {
                    let es = dag_edges(self.dag);
                    assert forall|k: int| 0 <= k < es.len() implies (#[trigger] es[k]).1 != n by {
                        if es[k].1 == n {
                            assert(enters(es, k as u32, n));
                            assert(ps@.contains(k as u32));
                        }
                    }
                    lemma_degree_zero(es, n);
                    assert forall|x: EdgeRecord| #[trigger] es.contains(x) implies x.1 != n by {
                        let k = choose|k: int| 0 <= k < es.len() && es[k] == x;
                        assert(es[k].1 != n);
                    }
                }
                break;
            }
            let k = ps[0];
            assert(ps@.contains(k));
            proof {
                let es = dag_edges(self.dag);
                lemma_degree_swap_removed(es, k as int, n);
                lemma_swap_removed(es, k as int);
            }
            self.remove_edge_at(k as usize);
        }
    }

    /// Removes node `n` with all its edges and returns its weight; its
    /// handle is never given out again.
    pub fn remove_node(&mut self, n: u32) -> (r: Option<N>)
        requires
            old(self).wf(),
        ensures
            final(self).wf(),
            !old(self).live(n) ==> r is None && final(self).edge_seq() == old(self).edge_seq()
                && final(self).nodes() == old(self).nodes(),
            old(self).live(n) ==> r == old(self).nodes()[n as int] && final(self).nodes() == old(
                self,
            ).nodes().update(n as int, None),
            old(self).live(n) ==> final(self).edge_seq().len() == old(self).edge_seq().len() - out_degree(
                old(self).edge_seq(),
                n,
            ) - in_degree(old(self).edge_seq(), n),
            forall|x: EdgeRecord| #[trigger] final(self).edge_seq().contains(x) <==> old(self).edge_seq().contains(x) && x.0 != n && x.1 != n,
    {
        if (n as usize) >= self.weights.len() || self.weights[n as usize].is_none() {
            proof {
                let es = dag_edges(self.dag);
                assert forall|x: EdgeRecord| #[trigger] es.contains(x) implies x.0 != n && x.1 != n by {
                    let k = choose|k: int| 0 <= k < es.len() && es[k] == x;
                    assert(self.weights@[es[k].0 as int] is Some);
                }
            }
            return None;
        }
        self.remove_outgoing_edges(n);
        self.remove_incoming_edges(n);
        let mut out: Option<N> = None;
        core::mem::swap(&mut self.weights[n as usize], &mut out);
        proof {
            let es = dag_edges(self.dag);
            assert forall|k: int| 0 <= k < es.len() implies self.weights@[(#[trigger] es[k]).0 as int] is Some
                && self.weights@[es[k].1 as int] is Some by {
                assert(es.contains(es[k]));
            }
        }
        out
    }

    /// The parents of `n`, each as (its port, port of `n`).
    pub fn parents(&self, n: u32) -> (r: Vec<(Port, u32)>)
        requires
            self.wf(),
            n < self.nodes().len(),
        ensures
            forall|i: int| 0 <= i < r@.len() ==> #[trigger] self.edge_seq().contains(
                (r@[i].0.node, n, r@[i].0.port, r@[i].1),
            ),
            forall|e: EdgeRecord|
                #[trigger] self.edge_seq().contains(e) && e.1 == n ==> exists|i: int|
                    0 <= i < r@.len() && #[trigger] r@[i] == (Port { node: e.0, port: e.2 }, e.3),
    {
        let ps = dag_parents(&self.dag, n);
        let mut r: Vec<(Port, u32)> = Vec::new();
        let mut i: usize = 0;
        while i < ps.len()
            invariant
                i <= ps@.len(),
                r@.len() == i,
                forall|k: u32| #[trigger] ps@.contains(k) <==> enters(dag_edges(self.dag), k, n),
                forall|j: int| 0 <= j < i ==> #[trigger] r@[j] == ({
                    let e = dag_edges(self.dag)[ps@[j] as int];
                    (Port { node: e.0, port: e.2 }, e.3)
                }),
            decreases ps.len() - i,
        {
            assert(ps@.contains(ps@[i as int]));
            let e = dag_edge(&self.dag, ps[i] as usize);
            r.push((Port { node: e.0, port: e.2 }, e.3));
            i += 1;
        }
        proof {
            let es = dag_edges(self.dag);
            assert forall|j: int| 0 <= j < r@.len() implies #[trigger] es.contains(
                (r@[j].0.node, n, r@[j].0.port, r@[j].1),
            ) by {
                assert(ps@.contains(ps@[j]));
                assert(es[ps@[j] as int] == (r@[j].0.node, n, r@[j].0.port, r@[j].1));
            }
            assert forall|e: EdgeRecord| #[trigger] es.contains(e) && e.1 == n implies exists|j: int|
                0 <= j < r@.len() && #[trigger] r@[j] == (Port { node: e.0, port: e.2 }, e.3) by {
                let k = choose|k: int| 0 <= k < es.len() && es[k] == e;
                assert(enters(es, k as u32, n));
                assert(ps@.contains(k as u32));
                let j = choose|j: int| 0 <= j < ps@.len() && ps@[j] == k as u32;
                assert(r@[j] == (Port { node: e.0, port: e.2 }, e.3));
            }
        }
        r
    }

    /// The children of `n`, each as (port of `n`, its port).
    pub fn children(&self, n: u32) -> (r: Vec<(u32, Port)>)
        requires
            self.wf(),
            n < self.nodes().len(),
        ensures
            forall|i: int| 0 <= i < r@.len() ==> #[trigger] self.edge_seq().contains(
                (n, r@[i].1.node, r@[i].0, r@[i].1.port),
            ),
            forall|e: EdgeRecord|
                #[trigger] self.edge_seq().contains(e) && e.0 == n ==> exists|i: int|
                    0 <= i < r@.len() && #[trigger] r@[i] == (e.2, Port { node: e.1, port: e.3 }),
    {
        let cs = dag_children(&self.dag, n);
        let mut r: Vec<(u32, Port)> = Vec::new();
        let mut i: usize = 0;
        while i < cs.len()
            invariant
                i <= cs@.len(),
                r@.len() == i,
                forall|k: u32| #[trigger] cs@.contains(k) <==> leaves(dag_edges(self.dag), k, n),
                forall|j: int| 0 <= j < i ==> #[trigger] r@[j] == ({
                    let e = dag_edges(self.dag)[cs@[j] as int];
                    (e.2, Port { node: e.1, port: e.3 })
                }),
            decreases cs.len() - i,
        {
            assert(cs@.contains(cs@[i as int]));
            let e = dag_edge(&self.dag, cs[i] as usize);
            r.push((e.2, Port { node: e.1, port: e.3 }));
            i += 1;
        }
        proof {
            let es = dag_edges(self.dag);
            assert forall|j: int| 0 <= j < r@.len() implies #[trigger] es.contains(
                (n, r@[j].1.node, r@[j].0, r@[j].1.port),
            ) by {
                assert(cs@.contains(cs@[j]));
                assert(es[cs@[j] as int] == (n, r@[j].1.node, r@[j].0, r@[j].1.port));
            }
            assert forall|e: EdgeRecord| #[trigger] es.contains(e) && e.0 == n implies exists|j: int|
                0 <= j < r@.len() && #[trigger] r@[j] == (e.2, Port { node: e.1, port: e.3 }) by {
                let k = choose|k: int| 0 <= k < es.len() && es[k] == e;
                assert(leaves(es, k as u32, n));
                assert(cs@.contains(k as u32));
                let j = choose|j: int| 0 <= j < cs@.len() && cs@[j] == k as u32;
                assert(r@[j] == (e.2, Port { node: e.1, port: e.3 }));
            }
        }
        r
    }

    /// The nodes reachable from `n` by following edges, `n` included.
    pub fn reachable(&self, n: u32) -> (r: Vec<u32>)
        requires
            self.wf(),
            n < self.nodes().len(),
        ensures
            r@.no_duplicates(),
            forall|m: u32| #[trigger] r@.contains(m) <==> reaches(self.edge_seq(), n, m),
    {
        dag_reachable(&self.dag, n)
    }
}

} // verus!
