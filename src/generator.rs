//! The incremental compiler: a port-numbered DAG of processes whose nodes
//! are marked dirty by every edit that can change their code, and compiled
//! again on demand.
use vstd::prelude::*;
use crate::dag::{
    EdgeRecord, Port, PortNumbered, after_connect, in_degree, is_walk, occupied,
    out_degree, port_edge, reaches, has_edge,
};
use crate::process::Process;
use crate::shader::{
    Context, ContextModel, Identifier, Role, Shader, Source, dedup, fragment_source, ident_text,
    output_ident, vertex_source,
};
use crate::value::ParseError;

verus! {

/// What the generator keeps for each node.
pub struct Node<T> {
    pub data: T,
    pub process: Process,
    pub program: Option<Source>,
    pub dirty: bool,
}

impl<T> Node<T> {
    /// A fresh node, dirty until it is first compiled.
    pub fn new(process: Process, data: T) -> (r: Node<T>)
        ensures
            r == (Node { data, process, program: None, dirty: true }),
    {
        Node { data, process, program: None, dirty: true }
    }
}

/// The node with its dirty flag set.
pub open spec fn marked<T>(n: Node<T>) -> Node<T> {
    Node { dirty: true, ..n }
}

/// Every node reached from a live node by an edge is live.
proof fn lemma_reach_live<T>(g: &PortNumbered<Node<T>>, n: u32, m: u32)
    requires
        g.wf(),
        g.live(n),
        reaches(g.edge_seq(), n, m),
    ensures
        g.live(m),
{
    g.lemma_wf();
    let es = g.edge_seq();
    let w = choose|w: Seq<u32>| #[trigger] is_walk(es, w) && w[0] == n && w.last() == m;
    if w.len() > 1 {
        let i = w.len() - 2;
        assert(has_edge(es, w[i], w[i + 1]));
        let k = choose|k: int| 0 <= k < es.len() && (#[trigger] es[k]).0 == w[i] && es[k].1 == w[i + 1];
        assert(g.live(es[k].1));
    }
}

/// A graph of processes compiled incrementally into shader sources.
pub struct Generator<T> {
    dag: PortNumbered<Node<T>>,
}

impl<T> Generator<T> {
    /// The edges, as (source node, target node, source port, target port).
    pub closed spec fn edges(&self) -> Seq<EdgeRecord> {
        self.dag.edge_seq()
    }

    /// The node slots; `None` for a removed node.
    pub closed spec fn nodes(&self) -> Seq<Option<Node<T>>> {
        self.dag.nodes()
    }

    pub closed spec fn wf(&self) -> bool {
        self.dag.wf()
    }

    pub open spec fn live(&self, n: u32) -> bool {
        n < self.nodes().len() && self.nodes()[n as int] is Some
    }

    pub open spec fn node(&self, n: u32) -> Node<T> {
        self.nodes()[n as int].unwrap()
    }

    /// The nodes after marking dirty every node that `n` reaches in `es`.
    pub open spec fn marked_from(
        nodes: Seq<Option<Node<T>>>,
        es: Seq<EdgeRecord>,
        n: u32,
    ) -> Seq<Option<Node<T>>> {
        Seq::new(
            nodes.len(),
            |m: int|
                if nodes[m] is Some && reaches(es, n, m as u32) {
                    Some(marked(nodes[m].unwrap()))
                } else {
                    nodes[m]
                },
        )
    }

    /// The edges never form a cycle and each target port has at most one.
    pub proof fn lemma_structure(&self)
        requires
            self.wf(),
        ensures
            crate::dag::acyclic(self.edges()),
            crate::dag::ports_unique(self.edges()),
            self.nodes().len() <= u32::MAX,
            forall|k: int|
                0 <= k < self.edges().len() ==> self.live((#[trigger] self.edges()[k]).0) && self.live(
                    self.edges()[k].1,
                ),
    {
        self.dag.lemma_wf();
    }

    pub fn new() -> (r: Generator<T>)
        ensures
            r.wf(),
            r.edges() == Seq::<EdgeRecord>::empty(),
            r.nodes() == Seq::<Option<Node<T>>>::empty(),
    {
        Generator { dag: PortNumbered::new() }
    }

    /// Marks `n` and every node reachable from it dirty.
    fn dirtify(&mut self, n: u32)
        requires
            old(self).wf(),
            old(self).live(n),
        ensures
            final(self).wf(),
            final(self).edges() == old(self).edges(),
            final(self).nodes() == Self::marked_from(old(self).nodes(), old(self).edges(), n),
    {
        let reach = self.dag.reachable(n);
        let ghost es = self.edges();
        let ghost start = self.nodes();
        proof {
            self.dag.lemma_wf();
        }
        let mut i: usize = 0;
        while i < reach.len()
            invariant
                self.wf(),
                start.len() <= u32::MAX,
                es == self.edges(),
                old(self).edges() == es,
                old(self).nodes() == start,
                start[n as int] is Some,
                n < start.len(),
                i <= reach@.len(),
                reach@.no_duplicates(),
                forall|m: u32| #[trigger] reach@.contains(m) <==> reaches(es, n, m),
                self.nodes().len() == start.len(),
                forall|m: int|
                    0 <= m < start.len() ==> #[trigger] self.nodes()[m] == if reach@.take(
                        i as int,
                    ).contains(m as u32) {
                        Some(marked(start[m].unwrap()))
                    } else {
                        start[m]
                    },
            decreases reach.len() - i,
        {
            let m = reach[i];
            proof {
                assert(reach@.contains(m));
                lemma_reach_live(&self.dag, n, m);
            }
            let ghost before = self.nodes();
            let w = self.dag.weight_mut(m);
            w.dirty = true;
            proof {
                assert(self.nodes() == before.update(m as int, Some(marked(before[m as int].unwrap()))));
                assert(self.nodes()[m as int] == Some(marked(start[m as int].unwrap())));
                assert forall|x: int| 0 <= x < start.len() implies #[trigger] self.nodes()[x] == if reach@.take(
                    i as int + 1,
                ).contains(x as u32) {
                    Some(marked(start[x].unwrap()))
                } else {
                    start[x]
                } by {
                    let t0 = reach@.take(i as int);
                    let t1 = reach@.take(i as int + 1);
                    assert(t1 =~= t0.push(m));
                    let xu = x as u32;
                    assert(xu as int == x);
                    if t0.contains(xu) {
                        let j = choose|j: int| 0 <= j < t0.len() && t0[j] == xu;
                        assert(t1[j] == xu);
                    }
                    if xu == m {
                        assert(t1[i as int] == m);
                    }
                    if t1.contains(xu) && xu != m {
                        let j = choose|j: int| 0 <= j < t1.len() && t1[j] == xu;
                        assert(j < i);
                        assert(t0[j] == xu);
                    }
                    if x != m as int {
                        assert(self.nodes()[x] == before[x]);
                    }
                }
            }
            i += 1;
        }
        proof {
            assert(reach@.take(i as int) =~= reach@);
            assert forall|m: int| 0 <= m < start.len() implies #[trigger] self.nodes()[m] == Self::marked_from(
                start,
                es,
                n,
            )[m] by {
                let mu = m as u32;
                assert(mu as int == m);
                let expect = Self::marked_from(start, es, n)[m];
                if reach@.contains(mu) {
                    lemma_reach_live(&old(self).dag, n, mu);
                    assert(reaches(es, n, mu));
                    assert(expect == Some(marked(start[m].unwrap())));
                } else {
                    assert(!reaches(es, n, mu));
                    assert(expect == start[m]);
                }
            }
            assert(self.nodes() =~= Self::marked_from(start, es, n));
        }
    }
}

impl<T> Generator<T> {
    /// Adds a node running `process` and carrying `data`; it starts dirty.
    pub fn add(&mut self, process: Process, data: T) -> (r: u32)
        requires
            old(self).wf(),
            old(self).nodes().len() < u32::MAX,
        ensures
            final(self).wf(),
            r == old(self).nodes().len(),
            final(self).nodes() == old(self).nodes().push(
                Some(Node { data, process, program: None, dirty: true }),
            ),
            final(self).edges() == old(self).edges(),
    {
        self.dag.add_node(Node::new(process, data))
    }

    /// The process and data of node `n`, if it is live.
    pub fn get(&self, n: u32) -> (r: Option<(&Process, &T)>)
        ensures
            self.live(n) ==> r == Some((&self.node(n).process, &self.node(n).data)),
            !self.live(n) ==> r is None,
    {
        match self.dag.node_weight(n) {
            Some(w) => Some((&w.process, &w.data)),
            None => None,
        }
    }

    /// Mutable access to the process and data of node `n`, if it is live.
    /// The node and everything downstream is marked dirty, since the caller
    /// may change what its code depends on.
    pub fn get_mut(&mut self, n: u32) -> (r: Option<(&mut Process, &mut T)>)
        requires
            old(self).wf(),
        ensures
            final(self).wf(),
            final(self).edges() == old(self).edges(),
            !old(self).live(n) ==> r is None && final(self).nodes() == old(self).nodes(),
            old(self).live(n) ==> (r matches Some(pair) && ({
                let marked_nodes = Self::marked_from(old(self).nodes(), old(self).edges(), n);
                let nd = marked_nodes[n as int].unwrap();
                &&& *pair.0 == nd.process
                &&& *pair.1 == nd.data
                &&& final(self).nodes() == marked_nodes.update(
                    n as int,
                    Some(Node { process: *final(pair.0), data: *final(pair.1), ..nd }),
                )
            })),
    {
        if (n as usize) >= self.dag.node_count() || self.dag.node_weight(n).is_none() {
            return None;
        }
        self.dirtify(n);
        let w = self.dag.weight_mut(n);
        Some((&mut w.process, &mut w.data))
    }

    /// Mutable access to node `n`'s data alone, which takes no part in
    /// compilation, so the node stays as clean or dirty as it was. This is
    /// how a caller hands the programs that `view` returns to its data.
    pub fn data_mut(&mut self, n: u32) -> (r: Option<&mut T>)
        requires
            old(self).wf(),
        ensures
            final(self).wf(),
            final(self).edges() == old(self).edges(),
            !old(self).live(n) ==> r is None && final(self).nodes() == old(self).nodes(),
            old(self).live(n) ==> (r matches Some(d) && {
                &&& *d == old(self).node(n).data
                &&& final(self).nodes() == old(self).nodes().update(
                    n as int,
                    Some(Node { data: *final(d), ..old(self).node(n) }),
                )
            }),
    {
        if (n as usize) >= self.dag.node_count() || self.dag.node_weight(n).is_none() {
            return None;
        }
        let w = self.dag.weight_mut(n);
        Some(&mut w.data)
    }

    /// Sets a setting of node `n`'s process from its text, and marks the node
    /// and everything downstream dirty when the setting was taken.
    pub fn set_setting(&mut self, n: u32, key: &str, text: &str) -> (r: Option<
        Result<(), ParseError>,
    >)
        requires
            old(self).wf(),
        ensures
            final(self).wf(),
            final(self).edges() == old(self).edges(),
            !old(self).live(n) ==> r is None && final(self).nodes() == old(self).nodes(),
            old(self).live(n) ==> match old(self).node(n).process.set_spec(key@, text@) {
                Ok(p) => r == Some(Ok::<(), ParseError>(())) && final(self).nodes() == ({
                    let m = Self::marked_from(old(self).nodes(), old(self).edges(), n);
                    m.update(n as int, Some(Node { process: p, ..m[n as int].unwrap() }))
                }),
                Err(e) => r == Some(Err::<(), ParseError>(e)) && final(self).nodes() == old(
                    self,
                ).nodes(),
            },
    {
        if (n as usize) >= self.dag.node_count() || self.dag.node_weight(n).is_none() {
            return None;
        }
        let mut p = self.dag.node_weight(n).unwrap().process;
        match p.set_setting(key, text) {
            Ok(()) => {
                self.dirtify(n);
                let w = self.dag.weight_mut(n);
                w.process = p;
                Some(Ok(()))
            },
            Err(e) => Some(Err(e)),
        }
    }

    /// Connects port `from` to port `to`, replacing the edge that ended in
    /// `to`. Refused when either node is not live, when the edge would close
    /// a cycle, or when the edge indices are used up; then nothing changes.
    /// On success `to`'s node and everything downstream is marked dirty.
    pub fn connect(&mut self, from: Port, to: Port) -> (r: bool)
        requires
            old(self).wf(),
        ensures
            final(self).wf(),
            r == (old(self).live(from.node) && old(self).live(to.node) && old(self).edges().len()
                < u32::MAX && !reaches(old(self).edges(), to.node, from.node)),
            !r ==> final(self).edges() == old(self).edges() && final(self).nodes() == old(
                self,
            ).nodes(),
            r ==> final(self).edges().to_set() == after_connect(old(self).edges().to_set(), from, to),
            r ==> final(self).edges().len() == old(self).edges().len() + if occupied(
                old(self).edges(),
                to.node,
                to.port,
            ) {
                0int
            } else {
                1int
            },
            r ==> final(self).nodes() == Self::marked_from(old(self).nodes(), final(self).edges(), to.node),
    {
        if (from.node as usize) >= self.dag.node_count() || self.dag.node_weight(from.node).is_none() {
            return false;
        }
        if (to.node as usize) >= self.dag.node_count() || self.dag.node_weight(to.node).is_none() {
            return false;
        }
        if self.dag.edge_count() >= u32::MAX as usize {
            return false;
        }
        match self.dag.update_edge(from, to) {
            Ok(()) => {
                self.dirtify(to.node);
                true
            },
            Err(_) => false,
        }
    }

    /// Removes the edge into port `to` and returns the port it came from;
    /// `to`'s node and everything downstream is then marked dirty.
    pub fn disconnect(&mut self, to: Port) -> (r: Option<Port>)
        requires
            old(self).wf(),
        ensures
            final(self).wf(),
            (old(self).live(to.node) && occupied(old(self).edges(), to.node, to.port)) ==> ({
                let e = port_edge(old(self).edges(), to.node, to.port);
                &&& r == Some(Port { node: e.0, port: e.2 })
                &&& final(self).edges().to_set() == old(self).edges().to_set().remove(e)
                &&& final(self).edges().len() == old(self).edges().len() - 1
                &&& final(self).nodes() == Self::marked_from(old(self).nodes(), final(self).edges(), to.node)
            }),
            !(old(self).live(to.node) && occupied(old(self).edges(), to.node, to.port)) ==> r is None
                && final(self).edges() == old(self).edges() && final(self).nodes() == old(self).nodes(),
    {
        match self.dag.remove_edge_to_port(to) {
            Some(from) => {
                self.dirtify(to.node);
                Some(from)
            },
            None => None,
        }
    }

    /// Removes node `n` with its edges and returns its process and data.
    /// Every node downstream of it is marked dirty first, since it loses an
    /// input.
    pub fn remove(&mut self, n: u32) -> (r: Option<(Process, T)>)
        requires
            old(self).wf(),
        ensures
            final(self).wf(),
            !old(self).live(n) ==> r is None && final(self).edges() == old(self).edges()
                && final(self).nodes() == old(self).nodes(),
            old(self).live(n) ==> r == Some((old(self).node(n).process, old(self).node(n).data)),
            old(self).live(n) ==> final(self).nodes() == Self::marked_from(
                old(self).nodes(),
                old(self).edges(),
                n,
            ).update(n as int, None),
            old(self).live(n) ==> final(self).edges().len() == old(self).edges().len()
                - out_degree(old(self).edges(), n) - in_degree(old(self).edges(), n),
            forall|x: EdgeRecord| #[trigger] final(self).edges().contains(x) <==> old(self).edges().contains(x) && x.0 != n && x.1 != n,
    {
        if (n as usize) >= self.dag.node_count() || self.dag.node_weight(n).is_none() {
            proof {
                self.dag.lemma_wf();
                let es = self.edges();
                assert forall|x: EdgeRecord| #[trigger] es.contains(x) implies x.0 != n && x.1 != n by {
                    let k = choose|k: int| 0 <= k < es.len() && es[k] == x;
                    assert(self.live(es[k].0) && self.live(es[k].1));
                }
            }
            return None;
        }
        self.dirtify(n);
        match self.dag.remove_node(n) {
            Some(node) => Some((node.process, node.data)),
            None => None,
        }
    }

    /// How many edges there are.
    pub fn connections(&self) -> (r: usize)
        ensures
            r == self.edges().len(),
    {
        self.dag.edge_count()
    }

    /// Every edge as (source port, target port).
    pub fn iter_connections(&self) -> (r: Vec<(Port, Port)>)
        ensures
            r@.len() == self.edges().len(),
            forall|k: int|
                0 <= k < r@.len() ==> #[trigger] r@[k] == (
                    Port { node: self.edges()[k].0, port: self.edges()[k].2 },
                    Port { node: self.edges()[k].1, port: self.edges()[k].3 },
                ),
    {
        self.dag.edges()
    }

    /// The live nodes, in handle order, with their process and data.
    pub fn iter(&self) -> (r: Vec<(u32, &Process, &T)>)
        requires
            self.wf(),
        ensures
            forall|i: int| 0 <= i < r@.len() ==> self.live(#[trigger] r@[i].0) && r@[i].1 == &self.node(r@[i].0).process
                && r@[i].2 == &self.node(r@[i].0).data,
            forall|i: int, j: int| 0 <= i < j < r@.len() ==> #[trigger] r@[i].0 < #[trigger] r@[j].0,
            forall|n: u32| self.live(n) ==> exists|i: int| 0 <= i < r@.len() && #[trigger] r@[i].0 == n,
    {
        proof {
            self.dag.lemma_wf();
        }
        let count = self.dag.node_count();
        let mut r: Vec<(u32, &Process, &T)> = Vec::new();
        let mut i: usize = 0;
        while i < count
            invariant
                count == self.nodes().len(),
                count <= u32::MAX,
                i <= count,
                forall|k: int| 0 <= k < r@.len() ==> self.live(#[trigger] r@[k].0) && r@[k].1 == &self.node(r@[k].0).process
                    && r@[k].2 == &self.node(r@[k].0).data && r@[k].0 < i,
                forall|a: int, b: int| 0 <= a < b < r@.len() ==> #[trigger] r@[a].0 < #[trigger] r@[b].0,
                forall|n: u32| n < i && self.live(n) ==> exists|k: int| 0 <= k < r@.len() && #[trigger] r@[k].0 == n,
            decreases count - i,
        {
            match self.dag.node_weight(i as u32) {
                Some(w) => {
                    let ghost prev = r@;
                    r.push((i as u32, &w.process, &w.data));
                    proof {
                        assert forall|n: u32| n < i + 1 && self.live(n) implies exists|k: int| 0 <= k < r@.len() && #[trigger] r@[k].0 == n by {
                            if n == i as u32 {
                                assert(r@[r@.len() - 1].0 == n);
                            } else {
                                let k = choose|k: int| 0 <= k < prev.len() && #[trigger] prev[k].0 == n;
                                assert(r@[k] == prev[k]);
                            }
                        }
                    }
                },
                None => {},
            }
            i += 1;
        }
        r
    }
}

/// How many entries are `false`.
pub open spec fn count_false(v: Seq<bool>) -> nat
    decreases v.len(),
{
    if v.len() == 0 {
        0
    } else {
        count_false(v.drop_last()) + if v.last() { 0nat } else { 1nat }
    }
}

proof fn lemma_count_set(v: Seq<bool>, i: int)
    requires
        0 <= i < v.len(),
        !v[i],
    ensures
        count_false(v.update(i, true)) + 1 == count_false(v),
    decreases v.len(),
{
    let u = v.update(i, true);
    if i == v.len() - 1 {
        assert(u.drop_last() =~= v.drop_last());
    } else {
        assert(u.drop_last() =~= v.drop_last().update(i, true));
        lemma_count_set(v.drop_last(), i);
    }
}

proof fn lemma_count_mono(a: Seq<bool>, b: Seq<bool>)
    requires
        a.len() == b.len(),
        forall|i: int| 0 <= i < a.len() && a[i] ==> b[i],
    ensures
        count_false(b) <= count_false(a),
    decreases a.len(),
{
    if a.len() > 0 {
        lemma_count_mono(a.drop_last(), b.drop_last());
    }
}

proof fn lemma_reach_prepend(es: Seq<EdgeRecord>, k: int, root: u32)
    requires
        0 <= k < es.len(),
        reaches(es, es[k].1, root),
    ensures
        reaches(es, es[k].0, root),
{
    let w = choose|w: Seq<u32>| #[trigger] is_walk(es, w) && w[0] == es[k].1 && w.last() == root;
    let w2 = seq![es[k].0] + w;
    assert(has_edge(es, es[k].0, es[k].1));
    assert forall|j: int| 0 <= j < w2.len() - 1 implies #[trigger] has_edge(es, w2[j], w2[j + 1]) by {
        if j > 0 {
            assert(w2[j] == w[j - 1] && w2[j + 1] == w[j - 1 + 1]);
            assert(has_edge(es, w[j - 1], w[j - 1 + 1]));
        }
    }
    assert(is_walk(es, w2));
}

/// In a set of nodes that holds the parents of each of its members, a
/// walk that ends inside starts inside.
proof fn lemma_closed_walk(es: Seq<EdgeRecord>, v: Seq<bool>, w: Seq<u32>)
    requires
        is_walk(es, w),
        w.last() < v.len(),
        v[w.last() as int],
        forall|k: int| 0 <= k < es.len() && (#[trigger] es[k]).1 < v.len() && v[es[k].1 as int] ==> es[k].0 < v.len() && v[es[k].0 as int],
    ensures
        w[0] < v.len() && v[w[0] as int],
    decreases w.len(),
{
    if w.len() > 1 {
        let t = w.skip(1);
        assert forall|j: int| 0 <= j < t.len() - 1 implies #[trigger] has_edge(es, t[j], t[j + 1]) by {
            assert(has_edge(es, w[j + 1], w[j + 1 + 1]));
        }
        lemma_closed_walk(es, v, t);
        let z = 0int;
        assert(has_edge(es, w[z], w[z + 1]));
        let k = choose|k: int| 0 <= k < es.len() && (#[trigger] es[k]).0 == w[z] && es[k].1 == w[z + 1];
    }
}

/// The line that shows node `n`'s first output.
pub open spec fn color_line(n: u32) -> Seq<char> {
    "color = "@ + ident_text(output_ident(n as usize, 0)) + ";\n"@
}

/// The fragment every program starts with.
pub open spec fn one_line() -> Seq<char> {
    "vec4 one = vec4(1);\n"@
}

/// The vertex stage fragment every program holds.
pub open spec fn position_line() -> Seq<char> {
    "gl_Position = matrix * vec4(position, 0, 1);\n"@
}

fn placeholder(n: u32, s: u32) -> (r: String)
    ensures
        r@ == "vec4 "@ + ident_text(Identifier { id: n as usize, itype: Role::Input, index: s })
            + " = vec4(0);\n"@,
{
    let mut r = String::new();
    r.append("vec4 ");
    Identifier { id: n as usize, itype: Role::Input, index: s }.write_to(&mut r);
    r.append(" = vec4(0);\n");
    r
}

fn copy_line(n: u32, target: u32, from: Port) -> (r: String)
    ensures
        r@ == ident_text(Identifier { id: n as usize, itype: Role::Input, index: target }) + " = "@
            + ident_text(Identifier { id: from.node as usize, itype: Role::Output, index: from.port })
            + ";\n"@,
{
    let mut r = String::new();
    Identifier { id: n as usize, itype: Role::Input, index: target }.write_to(&mut r);
    r.append(" = ");
    Identifier { id: from.node as usize, itype: Role::Output, index: from.port }.write_to(&mut r);
    r.append(";\n");
    r
}

/// `vec4 in_<m>_<s> = vec4(0);`
pub open spec fn placeholder_text(m: u32, s: u32) -> Seq<char> {
    "vec4 "@ + ident_text(Identifier { id: m as usize, itype: Role::Input, index: s })
        + " = vec4(0);\n"@
}

/// `in_<m>_<port> = out_<parent>_<port>;` for an edge into `m`.
pub open spec fn copy_text(m: u32, e: EdgeRecord) -> Seq<char> {
    ident_text(Identifier { id: m as usize, itype: Role::Input, index: e.3 }) + " = "@ + ident_text(
        Identifier { id: e.0 as usize, itype: Role::Output, index: e.2 },
    ) + ";\n"@
}

/// The placeholders of node `m`'s first `count` input slots, in slot order.
pub open spec fn placeholders(m: u32, count: nat) -> Seq<Seq<char>>
    decreases count,
{
    if count == 0 {
        Seq::empty()
    } else {
        placeholders(m, (count - 1) as nat).push(placeholder_text(m, (count - 1) as u32))
    }
}

/// The edges into `n`, in edge order.
pub open spec fn parent_edges(es: Seq<EdgeRecord>, n: u32) -> Seq<EdgeRecord>
    decreases es.len(),
{
    if es.len() == 0 {
        Seq::empty()
    } else if es.last().1 == n {
        parent_edges(es.drop_last(), n).push(es.last())
    } else {
        parent_edges(es.drop_last(), n)
    }
}

/// The edges into `n` among the first `k` edges lead the edges into `n`.
proof fn lemma_parent_prefix(es: Seq<EdgeRecord>, n: u32, k: int)
    requires
        0 <= k <= es.len(),
    ensures
        parent_edges(es.take(k), n).len() <= parent_edges(es, n).len(),
        parent_edges(es, n).take(parent_edges(es.take(k), n).len() as int) == parent_edges(es.take(k), n),
    decreases es.len(),
{
    if k == es.len() {
        assert(es.take(k) =~= es);
        assert(parent_edges(es, n).take(parent_edges(es, n).len() as int) =~= parent_edges(es, n));
    } else {
        lemma_parent_prefix(es.drop_last(), n, k);
        assert(es.drop_last().take(k) =~= es.take(k));
        let a = parent_edges(es.drop_last(), n);
        let c = parent_edges(es.take(k), n);
        if es.last().1 == n {
            assert(a.push(es.last()).take(c.len() as int) =~= a.take(c.len() as int));
        }
    }
}

/// The process of each node slot (an arbitrary one for an empty slot).
pub open spec fn processes<T>(nodes: Seq<Option<Node<T>>>) -> Seq<Process> {
    Seq::new(nodes.len(), |i: int| nodes[i].unwrap().process)
}

/// The context node `n` is compiled with: its connected input ports in edge
/// order, and its process's output count.
pub open spec fn node_context(es: Seq<EdgeRecord>, n: u32, p: Process) -> ContextModel {
    ContextModel {
        id: n as usize,
        inputs: dedup(parent_edges(es, n).map_values(|e: EdgeRecord| e.3)),
        outputs: p.max_out_spec(),
        temps: 0,
    }
}

/// What compiling `n` emits, and which nodes are done afterwards, when the
/// nodes marked in `v` are already done: nothing for a done node; otherwise
/// its placeholders, then for each edge into it (in edge order) the parent's
/// code followed by the copy of the parent's output, then its process's code.
pub open spec fn gather_spec(es: Seq<EdgeRecord>, procs: Seq<Process>, n: u32, v: Seq<bool>) -> (Seq<
    Seq<char>,
>, Seq<bool>)
    decreases count_false(v), 0int,
{
    if n >= v.len() || v[n as int] {
        (Seq::empty(), v)
    } else {
        let v1 = v.update(n as int, true);
        let p = procs[n as int];
        if count_false(v1) < count_false(v) {
            let body = parents_spec(es, procs, n, 0, v1);
            (
                placeholders(n, p.max_in_spec() as nat) + body.0 + seq![
                    p.shader_spec(node_context(es, n, p)),
                ],
                body.1,
            )
        } else {
            (Seq::empty(), v)
        }
    }
}

/// What the edges into `n` from the `i`-th on emit: each parent's code, then
/// the copy of its output.
pub open spec fn parents_spec(
    es: Seq<EdgeRecord>,
    procs: Seq<Process>,
    n: u32,
    i: int,
    v: Seq<bool>,
) -> (Seq<Seq<char>>, Seq<bool>)
    decreases count_false(v), parent_edges(es, n).len() - i,
{
    let ps = parent_edges(es, n);
    if i < 0 || i >= ps.len() {
        (Seq::empty(), v)
    } else {
        let g = gather_spec(es, procs, ps[i].0, v);
        if g.1.len() == v.len() && count_false(g.1) <= count_false(v) {
            let rest = parents_spec(es, procs, n, i + 1, g.1);
            (g.0 + seq![copy_text(n, ps[i])] + rest.0, rest.1)
        } else {
            g
        }
    }
}

/// Emits the code of `n` and, first, of every ancestor not yet visited, as
/// `gather_spec` states: a node reachable along several paths is emitted
/// once, and a parent's code comes before the copy of its output.
#[verifier::loop_isolation(false)]
fn gather_shader<T>(
    dag: &PortNumbered<Node<T>>,
    shader: &mut Shader,
    n: u32,
    visited: &mut Vec<bool>,
    order: &mut Vec<u32>,
    Ghost(root): Ghost<u32>,
)
    requires
        dag.wf(),
        dag.live(n),
        old(visited)@.len() == dag.nodes().len(),
        old(order)@.no_duplicates(),
        forall|m: u32| #[trigger] old(order)@.contains(m) <==> m < old(visited)@.len() && old(visited)@[m as int],
        reaches(dag.edge_seq(), n, root),
        forall|m: u32| m < old(visited)@.len() && #[trigger] old(visited)@[m as int] ==> reaches(dag.edge_seq(), m, root),
    ensures
        ({
            let g = gather_spec(dag.edge_seq(), processes(dag.nodes()), n, old(visited)@);
            &&& final(shader).fragment_parts() == old(shader).fragment_parts() + g.0
            &&& final(visited)@ == g.1
        }),
        old(visited)@[n as int] ==> final(shader).fragment_parts() == old(shader).fragment_parts()
            && final(visited)@ == old(visited)@,
        final(visited)@.len() == old(visited)@.len(),
        forall|i: int| 0 <= i < old(visited)@.len() && old(visited)@[i] ==> #[trigger] final(visited)@[i],
        final(visited)@[n as int],
        count_false(final(visited)@) <= count_false(old(visited)@),
        final(order)@.no_duplicates(),
        forall|m: u32| #[trigger] final(order)@.contains(m) <==> m < final(visited)@.len() && final(visited)@[m as int],
        forall|m: u32| m < final(visited)@.len() && #[trigger] final(visited)@[m as int] ==> reaches(dag.edge_seq(), m, root),
        forall|k: int|
            0 <= k < dag.edge_seq().len() && final(visited)@[(#[trigger] dag.edge_seq()[k]).1 as int] && !old(visited)@[dag.edge_seq()[k].1 as int]
                ==> final(visited)@[dag.edge_seq()[k].0 as int],
        final(shader).vertex_parts() == old(shader).vertex_parts(),
    decreases count_false(old(visited)@),
{
    proof {
        dag.lemma_wf();
    }
    let ghost es = dag.edge_seq();
    let ghost procs = processes(dag.nodes());
    if visited[n as usize] {
        assert(shader.fragment_parts() + Seq::<Seq<char>>::empty() =~= shader.fragment_parts());
        return;
    }
    let ghost v0 = visited@;
    let ghost f0 = shader.fragment_parts();
    proof {
        lemma_count_set(visited@, n as int);
    }
    visited[n as usize] = true;
    proof {
        assert(visited@ == v0.update(n as int, true));
        assert(!order@.contains(n));
        assert forall|m: u32| #[trigger] order@.push(n).contains(m) <==> m < visited@.len() && visited@[m as int] by {
            if m == n {
                assert(order@.push(n)[order@.len() as int] == n);
            } else {
                if order@.push(n).contains(m) {
                    let j = choose|j: int| 0 <= j < order@.push(n).len() && order@.push(n)[j] == m;
                    assert(order@[j] == m);
                    assert(order@.contains(m));
                }
                if m < visited@.len() && visited@[m as int] {
                    assert(v0[m as int]);
                    assert(order@.contains(m));
                    let j = choose|j: int| 0 <= j < order@.len() && order@[j] == m;
                    assert(order@.push(n)[j] == m);
                }
            }
        }
        assert forall|a: int, b: int| 0 <= a < order@.push(n).len() && 0 <= b < order@.push(n).len() && a != b
            implies order@.push(n)[a] != order@.push(n)[b] by {
            if a == order@.len() as int {
                assert(order@.contains(order@[b]));
            } else if b == order@.len() as int {
                assert(order@.contains(order@[a]));
            }
        }
    }
    order.push(n);
    let process = dag.node_weight(n).unwrap().process;
    assert(process == procs[n as int]);
    let max_in = process.max_in();
    let mut s: u32 = 0;
    assert(f0 + placeholders(n, 0) =~= f0);
    while s < max_in
        invariant
            s <= max_in,
            shader.fragment_parts() == f0 + placeholders(n, s as nat),
            shader.vertex_parts() == old(shader).vertex_parts(),
        decreases max_in - s,
    {
        shader.add_fragment(placeholder(n, s));
        assert(shader.fragment_parts() =~= f0 + placeholders(n, s as nat + 1));
        s += 1;
    }
    let ghost fp = shader.fragment_parts();
    let ghost v1 = visited@;
    let ghost ps = parent_edges(es, n);
    let ghost total = parents_spec(es, procs, n, 0, v1);
    let count = dag.edge_count();
    let mut inputs: Vec<u32> = Vec::new();
    let mut k: usize = 0;
    proof {
        assert(es.take(0) =~= Seq::<EdgeRecord>::empty());
        assert(parent_edges(es.take(0), n) =~= Seq::<EdgeRecord>::empty());
        assert(inputs@ =~= parent_edges(es.take(0), n).map_values(|e: EdgeRecord| e.3));
        assert(fp + total.0 =~= shader.fragment_parts() + total.0);
    }
    while k < count
        invariant
            dag.wf(),
            dag.live(n),
            es == dag.edge_seq(),
            procs == processes(dag.nodes()),
            count == es.len(),
            k <= count,
            ps == parent_edges(es, n),
            total == parents_spec(es, procs, n, 0, v1),
            parent_edges(es.take(k as int), n).len() <= ps.len(),
            ps.take(parent_edges(es.take(k as int), n).len() as int) == parent_edges(es.take(k as int), n),
            inputs@ == parent_edges(es.take(k as int), n).map_values(|e: EdgeRecord| e.3),
            fp + total.0 == shader.fragment_parts() + parents_spec(
                es,
                procs,
                n,
                parent_edges(es.take(k as int), n).len() as int,
                visited@,
            ).0,
            total.1 == parents_spec(es, procs, n, parent_edges(es.take(k as int), n).len() as int, visited@).1,
            visited@.len() == v0.len(),
            v0.len() == dag.nodes().len(),
            v0 == old(visited)@,
            forall|x: int| 0 <= x < v0.len() && v0[x] ==> #[trigger] visited@[x],
            visited@[n as int],
            count_false(visited@) < count_false(v0),
            order@.no_duplicates(),
            forall|m: u32| #[trigger] order@.contains(m) <==> m < visited@.len() && visited@[m as int],
            forall|m: u32| m < visited@.len() && #[trigger] visited@[m as int] ==> reaches(es, m, root),
            forall|j: int|
                0 <= j < es.len() && visited@[(#[trigger] es[j]).1 as int] && !v0[es[j].1 as int]
                    && es[j].1 != n ==> visited@[es[j].0 as int],
            forall|j: int| 0 <= j < k && (#[trigger] es[j]).1 == n ==> visited@[es[j].0 as int],
            shader.vertex_parts() == old(shader).vertex_parts(),
        decreases count - k,
    {
        let e = dag.edge_at(k);
        let ghost cur = parent_edges(es.take(k as int), n);
        proof {
            assert(es.take(k as int + 1).drop_last() =~= es.take(k as int));
            assert(es.take(k as int + 1).last() == e);
            lemma_parent_prefix(es, n, k as int + 1);
        }
        if e.1 == n {
            let ghost vb = visited@;
            let ghost fb = shader.fragment_parts();
            let ghost jj = cur.len() as int;
            proof {
                assert(parent_edges(es.take(k as int + 1), n) == cur.push(e));
                assert(ps.take(jj + 1)[jj] == e);
                assert(ps[jj] == e);
                assert(es.contains(e));
                let kk = choose|kk: int| 0 <= kk < es.len() && es[kk] == e;
                assert(dag.live(es[kk].0));
                lemma_reach_prepend(es, kk, root);
                lemma_count_mono(v0, vb);
            }
            inputs.push(e.3);
            gather_shader(dag, shader, e.0, visited, order, Ghost(root));
            let ghost fc = shader.fragment_parts();
            shader.add_fragment(copy_line(n, e.3, Port { node: e.0, port: e.2 }));
            proof {
                let g = gather_spec(es, procs, e.0, vb);
                assert(fc == fb + g.0);
                assert(visited@ == g.1);
                let rest = parents_spec(es, procs, n, jj + 1, g.1);
                assert(parents_spec(es, procs, n, jj, vb) == (g.0 + seq![copy_text(n, ps[jj])] + rest.0, rest.1));
                assert(shader.fragment_parts() =~= fb + g.0 + seq![copy_text(n, e)]);
                assert(fp + total.0 =~= shader.fragment_parts() + rest.0);
                assert(inputs@ =~= parent_edges(es.take(k as int + 1), n).map_values(|x: EdgeRecord| x.3));
                assert forall|x: int| 0 <= x < v0.len() && v0[x] implies #[trigger] visited@[x] by {
                    assert(vb[x]);
                }
                assert forall|j: int|
                    0 <= j < es.len() && visited@[(#[trigger] es[j]).1 as int] && !v0[es[j].1 as int]
                        && es[j].1 != n implies visited@[es[j].0 as int] by {
                    if vb[es[j].1 as int] {
                        assert(vb[es[j].0 as int]);
                        assert(visited@[es[j].0 as int]);
                    } else {
                        assert(visited@[es[j].0 as int]);
                    }
                }
                assert forall|j: int| 0 <= j < k + 1 && (#[trigger] es[j]).1 == n implies visited@[es[j].0 as int] by {
                    if j < k {
                        assert(dag.live(es[j].0));
                        assert(vb[es[j].0 as int]);
                    }
                }
            }
        } else {
            proof {
                assert(parent_edges(es.take(k as int + 1), n) == cur);
            }
        }
        k += 1;
    }
    proof {
        assert(es.take(count as int) =~= es);
        assert(ps.take(ps.len() as int) =~= ps);
        assert(shader.fragment_parts() =~= fp + total.0);
        assert(inputs@ == ps.map_values(|x: EdgeRecord| x.3));
        assert forall|j: int|
            0 <= j < es.len() && visited@[(#[trigger] es[j]).1 as int] && !v0[es[j].1 as int]
                implies visited@[es[j].0 as int] by {
        }
    }
    let mut ctx = Context::new(n as usize, inputs, process.max_out());
    let ghost c = ctx@;
    assert(c == node_context(es, n, process));
    let code = process.shader(&mut ctx);
    shader.add_fragment(code);
    proof {
        let g = gather_spec(es, procs, n, v0);
        assert(g == (
            placeholders(n, process.max_in_spec() as nat) + total.0 + seq![
                process.shader_spec(node_context(es, n, process)),
            ],
            total.1,
        ));
        assert(shader.fragment_parts() =~= f0 + g.0);
    }
}

/// Compiles node `n`: the program holds, once each, the code of `n` and of
/// all its ancestors, and shows `n`'s first output. Also returns the nodes
/// whose code it holds, in the order it was emitted.
fn build_shader<T>(dag: &PortNumbered<Node<T>>, n: u32) -> (r: (Source, Vec<u32>))
    requires
        dag.wf(),
        dag.live(n),
    ensures
        r.1@.no_duplicates(),
        forall|m: u32| #[trigger] r.1@.contains(m) <==> reaches(dag.edge_seq(), m, n),
        compiles(r.0, dag.edge_seq(), dag.nodes(), n),
{
    proof {
        dag.lemma_wf();
    }
    let mut shader = Shader::new();
    shader.add_vertex(String::from_str("gl_Position = matrix * vec4(position, 0, 1);\n"));
    shader.add_fragment(String::from_str("vec4 one = vec4(1);\n"));
    let count = dag.node_count();
    let mut visited: Vec<bool> = Vec::new();
    let mut j: usize = 0;
    while j < count
        invariant
            j <= count,
            visited@.len() == j,
            forall|x: int| 0 <= x < j ==> !#[trigger] visited@[x],
        decreases count - j,
    {
        visited.push(false);
        j += 1;
    }
    let mut order: Vec<u32> = Vec::new();
    proof {
        assert(is_walk(dag.edge_seq(), seq![n]));
        assert(seq![n].last() == n);
    }
    let ghost f1 = shader.fragment_parts();
    assert(visited@ =~= Seq::new(dag.nodes().len(), |i: int| false));
    gather_shader(dag, &mut shader, n, &mut visited, &mut order, Ghost(n));
    let ghost f2 = shader.fragment_parts();
    let mut line = String::from_str("color = ");
    Identifier { id: n as usize, itype: Role::Output, index: 0 }.write_to(&mut line);
    line.append(";\n");
    assert(line@ =~= color_line(n));
    shader.add_fragment(line);
    proof {
        let es = dag.edge_seq();
        let v = visited@;
        assert forall|k: int| 0 <= k < es.len() && (#[trigger] es[k]).1 < v.len() && v[es[k].1 as int]
            implies es[k].0 < v.len() && v[es[k].0 as int] by {
            assert(dag.live(es[k].0));
        }
        assert forall|m: u32| #[trigger] order@.contains(m) <==> reaches(es, m, n) by {
            if reaches(es, m, n) {
                let w = choose|w: Seq<u32>| #[trigger] is_walk(es, w) && w[0] == m && w.last() == n;
                lemma_closed_walk(es, v, w);
            }
        }
        let parts = shader.fragment_parts();
        let g = gather_spec(es, processes(dag.nodes()), n, Seq::new(dag.nodes().len(), |i: int| false));
        assert(f1 =~= seq![one_line()]);
        assert(f2 == f1 + g.0);
        assert(parts =~= compiled_parts(es, dag.nodes(), n));
    }
    let ghost parts = shader.fragment_parts();
    let src = shader.build();
    proof {
        assert(seq![position_line()] =~= Seq::<Seq<char>>::empty().push(position_line()));
    }
    (src, order)
}

impl<T> Generator<T> {
    /// Compiles node `n`, if it is live, into a fresh program; also returns
    /// the nodes whose code the program holds, in emission order. Each
    /// ancestor of `n` appears there exactly once, however many paths lead
    /// from it to `n`.
    pub fn build_shader(&self, n: u32) -> (r: Option<(Source, Vec<u32>)>)
        requires
            self.wf(),
        ensures
            !self.live(n) ==> r is None,
            self.live(n) ==> (r matches Some(p) && {
                &&& p.1@.no_duplicates()
                &&& forall|m: u32| #[trigger] p.1@.contains(m) <==> reaches(self.edges(), m, n)
                &&& compiles(p.0, self.edges(), self.nodes(), n)
            }),
    {
        if (n as usize) >= self.dag.node_count() || self.dag.node_weight(n).is_none() {
            return None;
        }
        Some(build_shader(&self.dag, n))
    }
}

/// The fragment-stage parts of node `n`'s program: the shared constant,
/// what the walk from `n` emits on a fresh compilation, and the line that
/// shows `n`'s first output.
pub open spec fn compiled_parts<T>(es: Seq<EdgeRecord>, nodes: Seq<Option<Node<T>>>, n: u32) -> Seq<Seq<char>> {
    seq![one_line()] + gather_spec(es, processes(nodes), n, Seq::new(nodes.len(), |i: int| false)).0
        + seq![color_line(n)]
}

/// `src` is the program that compiles node `n` of a graph with edges `es`
/// and node slots `nodes`.
pub open spec fn compiles<T>(src: Source, es: Seq<EdgeRecord>, nodes: Seq<Option<Node<T>>>, n: u32) -> bool {
    &&& src.vertex@ == vertex_source(seq![position_line()])
    &&& src.fragment@ == fragment_source(compiled_parts(es, nodes, n))
}

impl<T> Generator<T> {
    /// Compiles every dirty node, in handle order, marks it compiled and
    /// returns it with its program. Clean nodes are left alone.
    pub fn view(&mut self) -> (r: Vec<(u32, Source)>)
        requires
            old(self).wf(),
        ensures
            final(self).wf(),
            final(self).edges() == old(self).edges(),
            final(self).nodes().len() == old(self).nodes().len(),
            forall|m: u32| #[trigger] final(self).live(m) == old(self).live(m),
            forall|m: u32|
                old(self).live(m) ==> {
                    let a = old(self).node(m);
                    let b = #[trigger] final(self).node(m);
                    &&& !b.dirty
                    &&& b.process == a.process
                    &&& b.data == a.data
                    &&& !a.dirty ==> b.program == a.program
                },
            forall|i: int|
                0 <= i < r@.len() ==> old(self).live(#[trigger] r@[i].0) && old(self).node(r@[i].0).dirty
                    && compiles(r@[i].1, old(self).edges(), old(self).nodes(), r@[i].0)
                    && final(self).node(r@[i].0).program == Some(r@[i].1),
            forall|i: int, j: int| 0 <= i < j < r@.len() ==> #[trigger] r@[i].0 < #[trigger] r@[j].0,
            forall|m: u32|
                old(self).live(m) && old(self).node(m).dirty ==> exists|i: int|
                    0 <= i < r@.len() && #[trigger] r@[i].0 == m,
    {
        proof {
            self.dag.lemma_wf();
        }
        let count = self.dag.node_count();
        let mut r: Vec<(u32, Source)> = Vec::new();
        let mut i: usize = 0;
        while i < count
            invariant
                self.wf(),
                self.edges() == old(self).edges(),
                count == self.nodes().len(),
                count == old(self).nodes().len(),
                count <= u32::MAX,
                i <= count,
                forall|m: u32| #[trigger] self.live(m) == old(self).live(m),
                forall|m: u32|
                    old(self).live(m) ==> {
                        let a = old(self).node(m);
                        let b = #[trigger] self.node(m);
                        &&& (m < i ==> !b.dirty)
                        &&& (m >= i ==> b == a)
                        &&& b.process == a.process
                        &&& b.data == a.data
                        &&& !a.dirty ==> b.program == a.program
                    },
                forall|k: int|
                    0 <= k < r@.len() ==> old(self).live(#[trigger] r@[k].0) && old(self).node(
                        r@[k].0,
                    ).dirty && compiles(r@[k].1, old(self).edges(), old(self).nodes(), r@[k].0) && r@[k].0 < i
                    && self.node(r@[k].0).program == Some(r@[k].1),
                forall|a: int, b: int| 0 <= a < b < r@.len() ==> #[trigger] r@[a].0 < #[trigger] r@[b].0,
                forall|m: u32|
                    m < i && old(self).live(m) && old(self).node(m).dirty ==> exists|k: int|
                        0 <= k < r@.len() && #[trigger] r@[k].0 == m,
            decreases count - i,
        {
            let n = i as u32;
            let dirty = match self.dag.node_weight(n) {
                Some(w) => w.dirty,
                None => false,
            };
            if dirty {
                let (src, _) = build_shader(&self.dag, n);
                let ghost before = self.nodes();
                let ghost g0 = *self;
                let ghost es0 = old(self).edges();
                assert(g0.node(n).dirty);
                proof {
                    assert forall|m: u32| old(self).live(m) implies {
                        let a = old(self).node(m);
                        let b = #[trigger] g0.node(m);
                        &&& (m < i ==> !b.dirty)
                        &&& (m >= i ==> b == a)
                        &&& b.process == a.process
                        &&& b.data == a.data
                        &&& !a.dirty ==> b.program == a.program
                    } by {
                        assert(g0.live(m) == old(self).live(m));
                    }
                }
                let w = self.dag.weight_mut(n);
                w.dirty = false;
                w.program = Some(src.duplicate());
                let ghost prev = r@;
                proof {
                    assert(compiles(src, g0.edges(), g0.nodes(), n));
                    assert forall|i: int| 0 <= i < g0.nodes().len() implies #[trigger] processes(g0.nodes())[i]
                        == processes(old(self).nodes())[i] by {
                        let m = i as u32;
                        assert(m as int == i);
                        assert(g0.live(m) == old(self).live(m));
                        if old(self).live(m) {
                            assert(g0.node(m).process == old(self).node(m).process);
                        }
                    }
                    assert(processes(g0.nodes()) =~= processes(old(self).nodes()));
                    assert(compiled_parts(es0, g0.nodes(), n) == compiled_parts(es0, old(self).nodes(), n));
                    assert(g0.live(n) == old(self).live(n));
                    assert(g0.node(n) == old(self).node(n));
                }
                r.push((n, src));
                proof {
                    assert forall|k: int| 0 <= k < prev.len() implies #[trigger] r@[k] == prev[k] by {}
                    assert(before[n as int] is Some);
                    assert(self.nodes()[n as int] is Some);
                    assert(self.node(n).dirty == false);
                    assert(self.node(n).process == before[n as int].unwrap().process);
                    assert(self.node(n).data == before[n as int].unwrap().data);
                    assert forall|x: int| 0 <= x < before.len() && x != n as int implies #[trigger] self.nodes()[x] == before[x] by {}
                    assert forall|m: u32| m < i + 1 && old(self).live(m) && old(self).node(m).dirty implies exists|k: int|
                        0 <= k < r@.len() && #[trigger] r@[k].0 == m by {
                        if m == n {
                            assert(r@[r@.len() - 1].0 == n);
                        } else {
                            let k = choose|k: int| 0 <= k < prev.len() && #[trigger] prev[k].0 == m;
                            assert(r@[k] == prev[k]);
                        }
                    }
                    assert forall|m: u32| #[trigger] self.live(m) == old(self).live(m) by {
                        assert(self.nodes().len() == before.len());
                        assert(g0.live(m) == old(self).live(m));
                        if m != n && (m as int) < before.len() {
                            assert(self.nodes()[m as int] == before[m as int]);
                        }
                    }
                    assert forall|m: u32|
                        old(self).live(m) implies {
                            let a = old(self).node(m);
                            let b = #[trigger] self.node(m);
                            &&& (m < i + 1 ==> !b.dirty)
                            &&& (m >= i + 1 ==> b == a)
                            &&& b.process == a.process
                            &&& b.data == a.data
                            &&& !a.dirty ==> b.program == a.program
                        } by {
                        assert(g0.live(m) == old(self).live(m));
                        assert(g0.nodes() == before);
                        if m != n {
                            assert((m as int) < before.len());
                            assert(self.nodes()[m as int] == before[m as int]);
                            assert(self.node(m) == g0.node(m));
                            let a = old(self).node(m);
                            let b = g0.node(m);
                            assert(m < i ==> !b.dirty);
                            assert(m >= i ==> b == a);
                        }
                        assert(g0.node(m) == g0.node(m));
                        if m == n {
                            assert(g0.node(n).dirty);
                            assert(g0.node(n) == old(self).node(n));
                            assert(self.node(n).process == g0.node(n).process);
                            assert(self.node(n).data == g0.node(n).data);
                        }
                    }
                }
            } else {
                proof {
                    assert(self.live(n) ==> !self.node(n).dirty);
                    assert(self.live(n) == old(self).live(n));
                    assert forall|m: u32|
                        old(self).live(m) implies {
                            let a = old(self).node(m);
                            let b = #[trigger] self.node(m);
                            &&& (m < i + 1 ==> !b.dirty)
                            &&& (m >= i + 1 ==> b == a)
                            &&& b.process == a.process
                            &&& b.data == a.data
                            &&& !a.dirty ==> b.program == a.program
                        } by {
                    }
                }
            }
            i += 1;
        }
        r
    }
}

/// An edit that marks node `a` dirty marks every node it reaches: along a
/// chain `a -> b -> c`, editing `a` leaves `b` and `c` to be compiled again.
pub proof fn lemma_dirty_closure<T>(nodes: Seq<Option<Node<T>>>, es: Seq<EdgeRecord>, a: u32, m: u32)
    requires
        (m as int) < nodes.len(),
        nodes[m as int] is Some,
        reaches(es, a, m),
    ensures
        Generator::<T>::marked_from(nodes, es, a)[m as int].unwrap().dirty,
{
}

/// Connecting two sources into one port leaves exactly the second one there:
/// after `src1 -> trg` and then `src2 -> trg`, the only edge into `trg`
/// comes from `src2`, and the first connection left `trg` occupied, so the
/// second one replaced an edge instead of adding one.
pub proof fn lemma_single_producer(
    es0: Seq<EdgeRecord>,
    es1: Seq<EdgeRecord>,
    es2: Seq<EdgeRecord>,
    src1: Port,
    src2: Port,
    trg: Port,
)
    requires
        es1.to_set() == after_connect(es0.to_set(), src1, trg),
        es2.to_set() == after_connect(es1.to_set(), src2, trg),
    ensures
        occupied(es1, trg.node, trg.port),
        es2.contains((src2.node, trg.node, src2.port, trg.port)),
        forall|e: EdgeRecord|
            #[trigger] es2.contains(e) && e.1 == trg.node && e.3 == trg.port ==> e == (
                src2.node,
                trg.node,
                src2.port,
                trg.port,
            ),
{
    let e1 = (src1.node, trg.node, src1.port, trg.port);
    assert(es1.to_set().contains(e1));
    assert(es1.contains(e1));
    let k = choose|k: int| 0 <= k < es1.len() && es1[k] == e1;
    assert(es1[k].1 == trg.node && es1[k].3 == trg.port);
    let e2 = (src2.node, trg.node, src2.port, trg.port);
    assert(es2.to_set().contains(e2));
    assert forall|e: EdgeRecord| #[trigger] es2.contains(e) && e.1 == trg.node && e.3 == trg.port implies e
        == e2 by {
        assert(es2.to_set().contains(e));
    }
}

/// Once `view` has run, the next `view` with no edit in between compiles
/// nothing: every node it returns must have been dirty, and none is.
pub proof fn lemma_clean_view<T>(g: Generator<T>, r: Seq<(u32, Source)>)
    requires
        forall|m: u32| g.live(m) ==> !(#[trigger] g.node(m)).dirty,
        forall|i: int| 0 <= i < r.len() ==> g.live(#[trigger] r[i].0) && g.node(r[i].0).dirty,
    ensures
        r.len() == 0,
{
    if r.len() > 0 {
        let x = r[0].0;
        assert(g.live(x) && g.node(x).dirty);
    }
}

} // verus!
