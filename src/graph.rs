//! A directed graph stored by incoming edges, with a topological sort.
use vstd::prelude::*;

verus! {

/// `node` is among the first `j` entries of `order`.
pub open spec fn listed_before(order: Seq<NodeId>, j: int, node: int) -> bool {
    exists|i: int| 0 <= i < j && (#[trigger] order[i]).0 == node
}

/// `u` is what `f` returns for the node `t` with incoming edges `edges`.
pub open spec fn mapped<T, E, U, F: Fn(T, &[(NodeId, E)]) -> U>(f: F, t: T, edges: Seq<(NodeId, E)>, u: U) -> bool {
    exists|es: &[(NodeId, E)]| es@ == edges && #[trigger] f.ensures((t, es), u)
}

/// The state of a node during the depth-first search of `topo_sort`.
#[derive(Clone, Copy, Debug, PartialEq, Eq, Structural)]
enum Mark {
    Unvisited,
    OnPath,
    Done,
}

spec fn unvisited(marks: Seq<Mark>) -> nat
    decreases marks.len(),
{
    if marks.len() == 0 {
        0
    } else {
        unvisited(marks.drop_last()) + if marks.last() == Mark::Unvisited {
            1nat
        } else {
            0nat
        }
    }
}

proof fn lemma_unvisited_update(marks: Seq<Mark>, i: int, m: Mark)
    requires
        0 <= i < marks.len(),
    ensures
        unvisited(marks.update(i, m)) + (if marks[i] == Mark::Unvisited { 1int } else { 0int }) == unvisited(marks)
            + (if m == Mark::Unvisited { 1int } else { 0int }),
    decreases marks.len(),
{
    let u = marks.update(i, m);
    if i < marks.len() - 1 {
        lemma_unvisited_update(marks.drop_last(), i, m);
        assert(u.drop_last() =~= marks.drop_last().update(i, m));
    } else {
        assert(u.drop_last() =~= marks.drop_last());
    }
}

/// The index of a node in its graph.
#[derive(Clone, Copy, Debug, PartialEq, Eq, Structural, Hash)]
pub struct NodeId(pub usize);

/// A graph whose nodes carry a `T` and whose edges carry an `E`; each node
/// keeps the list of edges that end at it, as `(from, weight)` pairs.
pub struct InGraph<T, E> {
    pub nodes: Vec<T>,
    pub edges: Vec<Vec<(NodeId, E)>>,
}

impl<T, E> InGraph<T, E> {
    /// One list of incoming edges per node, each from a node of the graph.
    pub open spec fn wf(&self) -> bool {
        &&& self.edges@.len() == self.nodes@.len()
        &&& forall|i: int, k: int|
            0 <= i < self.edges@.len() && 0 <= k < self.edges@[i]@.len() ==> (#[trigger] self.edges@[i]@[k]).0.0
                < self.nodes@.len()
    }

    /// There is an edge from node `a` to node `b`.
    pub open spec fn has_edge(&self, a: int, b: int) -> bool {
        0 <= b < self.edges@.len() && exists|k: int| 0 <= k < self.edges@[b]@.len() && #[trigger] self.edges@[b]@[k].0.0 == a
    }

    pub fn new() -> (g: Self)
        ensures
            g.wf(),
            g.nodes@.len() == 0,
    {
        InGraph { nodes: Vec::new(), edges: Vec::new() }
    }

    /// Adds a node with no edges and returns its id.
    pub fn add_node(&mut self, node: T) -> (id: NodeId)
        requires
            old(self).wf(),
        ensures
            final(self).wf(),
            final(self).nodes@ == old(self).nodes@.push(node),
            final(self).edges@.drop_last() == old(self).edges@,
            final(self).edges@.len() == old(self).edges@.len() + 1,
            final(self).edges@.last()@.len() == 0,
            id.0 == old(self).nodes@.len(),
    {
        self.nodes.push(node);
        self.edges.push(Vec::new());
        assert(self.edges@.drop_last() =~= old(self).edges@);
        proof {
            assert forall|i: int, k: int|
                0 <= i < self.edges@.len() && 0 <= k < self.edges@[i]@.len() implies (#[trigger] self.edges@[i]@[k]).0.0
                < self.nodes@.len() by {
                if i < old(self).edges@.len() {
                    assert(self.edges@[i] == old(self).edges@[i]);
                }
            }
        }
        NodeId(self.nodes.len() - 1)
    }

    /// Adds an edge from `from` to `to`; both must be nodes of the graph.
    pub fn add_edge(&mut self, from: NodeId, to: NodeId, edge: E)
        requires
            old(self).wf(),
            from.0 < old(self).nodes@.len(),
            to.0 < old(self).nodes@.len(),
        ensures
            final(self).wf(),
            final(self).nodes@ == old(self).nodes@,
            final(self).edges@.len() == old(self).edges@.len(),
            final(self).edges@[to.0 as int]@ == old(self).edges@[to.0 as int]@.push((NodeId(from.0), edge)),
            forall|i: int| 0 <= i < old(self).edges@.len() && i != to.0 ==> final(self).edges@[i] == old(self).edges@[i],
    {
        self.edges[to.0].push((NodeId(from.0), edge));
        proof {
            assert forall|i: int, k: int|
                0 <= i < self.edges@.len() && 0 <= k < self.edges@[i]@.len() implies (#[trigger] self.edges@[i]@[k]).0.0
                < self.nodes@.len() by {
                if i != to.0 {
                    assert(self.edges@[i] == old(self).edges@[i]);
                } else if k < old(self).edges@[i]@.len() {
                    assert(self.edges@[i]@[k] == old(self).edges@[i]@[k]);
                }
            }
        }
    }

    /// The edges that end at `node`, each with the node it starts from.
    pub fn edges_to(&self, node: NodeId) -> (r: Vec<(&T, &E)>)
        requires
            self.wf(),
            node.0 < self.nodes@.len(),
        ensures
            r@.len() == self.edges@[node.0 as int]@.len(),
            forall|k: int|
                0 <= k < r@.len() ==> *(#[trigger] r@[k]).0 == self.nodes@[self.edges@[node.0 as int]@[k].0.0 as int]
                    && *r@[k].1 == self.edges@[node.0 as int]@[k].1,
    {
        let mut out: Vec<(&T, &E)> = Vec::new();
        let incoming = &self.edges[node.0];
        let mut k: usize = 0;
        while k < incoming.len()
            invariant
                self.wf(),
                node.0 < self.nodes@.len(),
                *incoming == self.edges@[node.0 as int],
                k <= incoming@.len(),
                out@.len() == k,
                forall|j: int|
                    0 <= j < k ==> *(#[trigger] out@[j]).0 == self.nodes@[incoming@[j].0.0 as int] && *out@[j].1
                        == incoming@[j].1,
            decreases incoming@.len() - k,
        {
            let e = &incoming[k];
            assert(e.0.0 < self.nodes@.len()) by {
                assert(self.edges@[node.0 as int]@[k as int] == *e);
            }
            out.push((&self.nodes[e.0.0], &e.1));
            k = k + 1;
        }
        out
    }

    pub fn node(&self, id: NodeId) -> (r: &T)
        requires
            id.0 < self.nodes@.len(),
        ensures
            *r == self.nodes@[id.0 as int],
    {
        &self.nodes[id.0]
    }

    pub fn nodes(&self) -> (r: &[T])
        ensures
            r@ == self.nodes@,
    {
        self.nodes.as_slice()
    }

    pub fn nodes_mut(&mut self) -> (r: &mut [T])
        ensures
            r@ == old(self).nodes@,
            final(r)@ == final(self).nodes@,
            final(self).edges == old(self).edges,
    {
        self.nodes.as_mut_slice()
    }

    /// The graph with each node replaced by `f` of the node and its incoming
    /// edges; the edges stay.
    pub fn map_nodes<U, F: Fn(T, &[(NodeId, E)]) -> U>(self, f: F) -> (r: InGraph<U, E>)
        requires
            self.wf(),
            forall|t: T, es: &[(NodeId, E)]| #[trigger] f.requires((t, es)),
        ensures
            r.wf(),
            r.edges@ == self.edges@,
            r.nodes@.len() == self.nodes@.len(),
            forall|i: int| 0 <= i < r.nodes@.len() ==> mapped(f, self.nodes@[i], self.edges@[i]@, #[trigger] r.nodes@[i]),
    {
        let ghost orig = self.nodes@;
        let n = self.nodes.len();
        let InGraph { nodes, edges } = self;
        let mut rest = nodes;
        let mut rev: Vec<T> = Vec::new();
        while rest.len() > 0
            invariant
                n == orig.len(),
                rest@ == orig.subrange(0, rest@.len() as int),
                rev@.len() + rest@.len() == n,
                forall|k: int| 0 <= k < rev@.len() ==> #[trigger] rev@[k] == orig[n - 1 - k],
            decreases rest@.len(),
        {
            match rest.pop() {
                Some(t) => rev.push(t),
                None => {},
            }
        }
        let mut out: Vec<U> = Vec::new();
        let mut i: usize = 0;
        while i < n
            invariant
                n == orig.len(),
                edges@.len() == n,
                forall|t: T, es: &[(NodeId, E)]| #[trigger] f.requires((t, es)),
                out@.len() == i,
                rev@.len() + i == n,
                forall|k: int| 0 <= k < rev@.len() ==> #[trigger] rev@[k] == orig[n - 1 - k],
                forall|j: int| 0 <= j < i ==> mapped(f, orig[j], edges@[j]@, #[trigger] out@[j]),
            decreases n - i,
        {
            assert(rev@.len() > 0);
            match rev.pop() {
                Some(t) => {
                    assert(t == orig[i as int]);
                    let es = edges[i].as_slice();
                    let u = f(t, es);
                    let ghost o0 = out@;
                    out.push(u);
                    proof {
                        assert forall|j: int| 0 <= j < i + 1 implies mapped(f, orig[j], edges@[j]@, #[trigger] out@[j]) by {
                            if j == i {
                                assert(out@[j] == u);
                                assert(es@ == edges@[j]@ && f.ensures((orig[j], es), out@[j]));
                            } else {
                                assert(out@[j] == o0[j]);
                            }
                        }
                    }
                },
                None => {},
            }
            i = i + 1;
        }
        assert(edges@ == self.edges@);
        InGraph { nodes: out, edges }
    }

    /// The graph with each edge weight replaced by `g` of the nodes the edge
    /// starts and ends at and the weight; the nodes stay.
    pub fn map_edges<D, G: Fn(&T, &T, E) -> D>(self, g: G) -> (r: InGraph<T, D>)
        requires
            self.wf(),
            forall|a: &T, b: &T, e: E| #[trigger] g.requires((a, b, e)),
        ensures
            r.wf(),
            r.nodes@ == self.nodes@,
            r.edges@.len() == self.edges@.len(),
            forall|t: int| 0 <= t < r.edges@.len() ==> (#[trigger] r.edges@[t])@.len() == self.edges@[t]@.len(),
            forall|t: int, k: int|
                0 <= t < r.edges@.len() && 0 <= k < self.edges@[t]@.len() ==> #[trigger] r.edges@[t]@[k].0
                    == self.edges@[t]@[k].0 && g.ensures(
                    (&self.nodes@[self.edges@[t]@[k].0.0 as int], &self.nodes@[t], self.edges@[t]@[k].1),
                    r.edges@[t]@[k].1,
                ),
    {
        let ghost orig = self.edges@;
        let n = self.edges.len();
        let InGraph { nodes, edges } = self;
        let mut rest = edges;
        let mut rev: Vec<Vec<(NodeId, E)>> = Vec::new();
        while rest.len() > 0
            invariant
                n == orig.len(),
                rest@ == orig.subrange(0, rest@.len() as int),
                rev@.len() + rest@.len() == n,
                forall|k: int| 0 <= k < rev@.len() ==> #[trigger] rev@[k] == orig[n - 1 - k],
            decreases rest@.len(),
        {
            match rest.pop() {
                Some(v) => rev.push(v),
                None => {},
            }
        }
        let mut out: Vec<Vec<(NodeId, D)>> = Vec::new();
        let mut t: usize = 0;
        while t < n
            invariant
                n == orig.len(),
                nodes@.len() == n,
                forall|i: int, k: int|
                    0 <= i < orig.len() && 0 <= k < orig[i]@.len() ==> (#[trigger] orig[i]@[k]).0.0 < nodes@.len(),
                forall|a: &T, b: &T, e: E| #[trigger] g.requires((a, b, e)),
                out@.len() == t,
                rev@.len() + t == n,
                forall|k: int| 0 <= k < rev@.len() ==> #[trigger] rev@[k] == orig[n - 1 - k],
                forall|i: int| 0 <= i < t ==> (#[trigger] out@[i])@.len() == orig[i]@.len(),
                forall|i: int, k: int|
                    0 <= i < t && 0 <= k < orig[i]@.len() ==> #[trigger] out@[i]@[k].0 == orig[i]@[k].0 && g.ensures(
                        (&nodes@[orig[i]@[k].0.0 as int], &nodes@[i], orig[i]@[k].1),
                        out@[i]@[k].1,
                    ),
            decreases n - t,
        {
            assert(rev@.len() > 0);
            let inner = match rev.pop() {
                Some(v) => v,
                None => Vec::new(),
            };
            let ghost row = orig[t as int]@;
            assert(inner@ == row);
            let m = inner.len();
            let mut irest = inner;
            let mut irev: Vec<(NodeId, E)> = Vec::new();
            while irest.len() > 0
                invariant
                    m == row.len(),
                    irest@ == row.subrange(0, irest@.len() as int),
                    irev@.len() + irest@.len() == m,
                    forall|k: int| 0 <= k < irev@.len() ==> #[trigger] irev@[k] == row[m - 1 - k],
                decreases irest@.len(),
            {
                match irest.pop() {
                    Some(e) => irev.push(e),
                    None => {},
                }
            }
            let mut mapped_row: Vec<(NodeId, D)> = Vec::new();
            let mut k: usize = 0;
            while k < m
                invariant
                    t < n,
                    n == orig.len(),
                    nodes@.len() == n,
                    row == orig[t as int]@,
                    m == row.len(),
                    forall|i: int, q: int|
                        0 <= i < orig.len() && 0 <= q < orig[i]@.len() ==> (#[trigger] orig[i]@[q]).0.0 < nodes@.len(),
                    forall|a: &T, b: &T, e: E| #[trigger] g.requires((a, b, e)),
                    mapped_row@.len() == k,
                    irev@.len() + k == m,
                    forall|q: int| 0 <= q < irev@.len() ==> #[trigger] irev@[q] == row[m - 1 - q],
                    forall|q: int|
                        0 <= q < k ==> #[trigger] mapped_row@[q].0 == row[q].0 && g.ensures(
                            (&nodes@[row[q].0.0 as int], &nodes@[t as int], row[q].1),
                            mapped_row@[q].1,
                        ),
                decreases m - k,
            {
                assert(irev@.len() > 0);
                match irev.pop() {
                    Some((from, e)) => {
                        assert(orig[t as int]@[k as int].0.0 < nodes@.len());
                        let d = g(&nodes[from.0], &nodes[t], e);
                        let ghost r0 = mapped_row@;
                        mapped_row.push((from, d));
                        proof {
                            assert forall|q: int|
                                0 <= q < k + 1 implies #[trigger] mapped_row@[q].0 == row[q].0 && g.ensures(
                                (&nodes@[row[q].0.0 as int], &nodes@[t as int], row[q].1),
                                mapped_row@[q].1,
                            ) by {
                                if q < k {
                                    assert(mapped_row@[q] == r0[q]);
                                }
                            }
                        }
                    },
                    None => {},
                }
                k = k + 1;
            }
            let ghost o0 = out@;
            out.push(mapped_row);
            proof {
                assert forall|i: int, q: int|
                    0 <= i < t + 1 && 0 <= q < orig[i]@.len() implies #[trigger] out@[i]@[q].0 == orig[i]@[q].0 && g.ensures(
                    (&nodes@[orig[i]@[q].0.0 as int], &nodes@[i], orig[i]@[q].1),
                    out@[i]@[q].1,
                ) by {
                    if i < t {
                        assert(out@[i] == o0[i]);
                    }
                }
                assert forall|i: int| 0 <= i < t + 1 implies (#[trigger] out@[i])@.len() == orig[i]@.len() by {
                    if i < t {
                        assert(out@[i] == o0[i]);
                    }
                }
            }
            t = t + 1;
        }
        let r = InGraph { nodes, edges: out };
        proof {
            assert forall|i: int, q: int|
                0 <= i < r.edges@.len() && 0 <= q < r.edges@[i]@.len() implies (#[trigger] r.edges@[i]@[q]).0.0
                < r.nodes@.len() by {
                assert(r.edges@[i]@[q].0 == orig[i]@[q].0);
            }
        }
        r
    }

    /// The ids of all nodes, in order.
    pub fn node_ids(&self) -> (r: Vec<NodeId>)
        ensures
            r@.len() == self.nodes@.len(),
            forall|i: int| 0 <= i < r@.len() ==> (#[trigger] r@[i]).0 == i,
    {
        let mut out: Vec<NodeId> = Vec::new();
        let mut i: usize = 0;
        while i < self.nodes.len()
            invariant
                i <= self.nodes@.len(),
                out@.len() == i,
                forall|j: int| 0 <= j < i ==> (#[trigger] out@[j]).0 == j,
            decreases self.nodes@.len() - i,
        {
            out.push(NodeId(i));
            i = i + 1;
        }
        out
    }
}

impl<T, E> InGraph<T, E> {
    /// `s` is a chain of edges: each node has an edge to the one before it.
    pub open spec fn chain(&self, s: Seq<int>) -> bool {
        forall|j: int| 0 <= j < s.len() - 1 ==> self.has_edge(#[trigger] s[j + 1], s[j])
    }

    /// No chain of edges leads from a node back to itself.
    pub open spec fn acyclic(&self) -> bool {
        forall|s: Seq<int>| #[trigger] self.chain(s) && s.len() >= 2 ==> s[0] != s.last()
    }

    /// `order` lists each node of the graph once, and every edge goes from a
    /// node listed earlier to one listed later.
    pub open spec fn topological(&self, order: Seq<NodeId>) -> bool {
        &&& order.len() == self.nodes@.len()
        &&& forall|j: int| 0 <= j < order.len() ==> (#[trigger] order[j]).0 < self.nodes@.len()
        &&& forall|a: int, b: int| 0 <= a < b < order.len() ==> order[a] != order[b]
        &&& self.preds_first(order)
    }

    pub open spec fn preds_first(&self, order: Seq<NodeId>) -> bool {
        forall|j: int, k: int|
            0 <= j < order.len() && 0 <= k < self.edges@[order[j].0 as int]@.len() ==> #[trigger] listed_before(
                order,
                j,
                self.edges@[order[j].0 as int]@[k].0.0 as int,
            )
    }

    /// Every edge goes from a node to one with a higher index.
    pub open spec fn forward(&self) -> bool {
        forall|i: int, k: int|
            0 <= i < self.edges@.len() && 0 <= k < self.edges@[i]@.len() ==> (#[trigger] self.edges@[i]@[k]).0.0 < i
    }

    spec fn preds_done(&self, marks: Seq<Mark>, n: int) -> bool {
        forall|k: int|
            0 <= k < self.edges@[n]@.len() ==> marks[(#[trigger] self.edges@[n]@[k]).0.0 as int] == Mark::Done
    }

    spec fn dfs_inv(&self, marks: Seq<Mark>, out: Seq<NodeId>) -> bool {
        &&& marks.len() == self.nodes@.len()
        &&& forall|j: int| 0 <= j < out.len() ==> (#[trigger] out[j]).0 < self.nodes@.len() && marks[out[j].0 as int] == Mark::Done
        &&& forall|i: int| 0 <= i < marks.len() && #[trigger] marks[i] == Mark::Done ==> exists|j: int| 0 <= j < out.len() && (#[trigger] out[j]).0 == i
        &&& forall|a: int, b: int| 0 <= a < b < out.len() ==> out[a] != out[b]
        &&& self.preds_first(out)
    }

    spec fn on_path(marks: Seq<Mark>, path: Seq<int>) -> bool {
        forall|i: int| 0 <= i < marks.len() ==> ((#[trigger] marks[i]) == Mark::OnPath <==> path.contains(i))
    }

    /// Visits the unvisited node `n`: first every node with an edge to it,
    /// then `n` itself, which is appended to `out`.
    fn visit(&self, n: usize, marks: &mut Vec<Mark>, out: &mut Vec<NodeId>, Ghost(path): Ghost<Seq<int>>)
        requires
            self.wf(),
            self.acyclic(),
            n < self.nodes@.len(),
            self.dfs_inv(old(marks)@, old(out)@),
            old(marks)@[n as int] == Mark::Unvisited,
            self.chain(path),
            path.len() > 0 ==> self.has_edge(n as int, path.last()),
            Self::on_path(old(marks)@, path),
            forall|j: int| 0 <= j < path.len() ==> 0 <= #[trigger] path[j] < self.nodes@.len(),
        ensures
            self.dfs_inv(final(marks)@, final(out)@),
            final(marks)@[n as int] == Mark::Done,
            Self::on_path(final(marks)@, path),
            forall|i: int| 0 <= i < old(marks)@.len() && old(marks)@[i] == Mark::Done ==> #[trigger] final(marks)@[i] == Mark::Done,
            unvisited(final(marks)@) < unvisited(old(marks)@),
            self.preds_done(old(marks)@, n as int) ==> final(out)@ == old(out)@.push(NodeId(n))
                && final(marks)@ == old(marks)@.update(n as int, Mark::Done),
        decreases unvisited(old(marks)@),
    {
        let ghost m0 = marks@;
        proof {
            lemma_unvisited_update(marks@, n as int, Mark::OnPath);
        }
        marks.set(n, Mark::OnPath);
        let ghost path2 = path.push(n as int);
        proof {
            assert forall|i: int| 0 <= i < marks@.len() implies ((#[trigger] marks@[i]) == Mark::OnPath <==> path2.contains(i)) by {
                if i == n {
                    assert(path2[path.len() as int] == i);
                } else {
                    assert(marks@[i] == m0[i]);
                    if path2.contains(i) {
                        let w = choose|w: int| 0 <= w < path2.len() && path2[w] == i;
                        assert(w != path.len());
                        assert(path[w] == i);
                    }
                    if path.contains(i) {
                        let w = choose|w: int| 0 <= w < path.len() && path[w] == i;
                        assert(path2[w] == i);
                    }
                }
            }
            assert forall|j: int| 0 <= j < path2.len() - 1 implies self.has_edge(#[trigger] path2[j + 1], path2[j]) by {
                if j < path.len() - 1 {
                    assert(path2[j + 1] == path[j + 1] && path2[j] == path[j]);
                }
            }
        }
        let incoming = &self.edges[n];
        let mut k: usize = 0;
        while k < incoming.len()
            invariant
                self.wf(),
                self.acyclic(),
                n < self.nodes@.len(),
                *incoming == self.edges@[n as int],
                k <= incoming@.len(),
                self.dfs_inv(marks@, out@),
                marks@[n as int] == Mark::OnPath,
                self.chain(path2),
                path2 == path.push(n as int),
                Self::on_path(marks@, path2),
                forall|j: int| 0 <= j < path2.len() ==> 0 <= #[trigger] path2[j] < self.nodes@.len(),
                m0 == old(marks)@,
                marks@.len() == m0.len(),
                forall|i: int| 0 <= i < m0.len() && m0[i] == Mark::Done ==> #[trigger] marks@[i] == Mark::Done,
                unvisited(marks@) < unvisited(m0),
                forall|q: int| 0 <= q < k ==> listed_before(out@, out@.len() as int, #[trigger] incoming@[q].0.0 as int),
                self.preds_done(m0, n as int) ==> out@ == old(out)@ && marks@ == m0.update(n as int, Mark::OnPath),
            decreases incoming@.len() - k,
        {
            let m = incoming[k].0.0;
            proof {
                assert(incoming@[k as int].0.0 == m);
                assert(self.edges@[n as int]@[k as int].0.0 < self.nodes@.len());
                assert(self.has_edge(m as int, n as int));
                if self.preds_done(m0, n as int) {
                    assert(m0[m as int] == Mark::Done);
                }
            }
            if marks[m] == Mark::Unvisited {
                let ghost before = out@;
                let ghost mb = marks@;
                self.visit(m, marks, out, Ghost(path2));
                proof {
                    assert forall|i: int| 0 <= i < m0.len() && m0[i] == Mark::Done implies #[trigger] marks@[i] == Mark::Done by {
                        assert(mb[i] == Mark::Done);
                    }
                    assert(marks@[m as int] == Mark::Done);
                    assert forall|q: int| 0 <= q < k + 1 implies listed_before(out@, out@.len() as int, #[trigger] incoming@[q].0.0 as int) by {
                        if q == k {
                            assert(marks@[m as int] == Mark::Done);
                            let j = choose|j: int| 0 <= j < out@.len() && (#[trigger] out@[j]).0 == m as int;
                        } else {
                            assert(listed_before(before, before.len() as int, incoming@[q].0.0 as int));
                            let i = choose|i: int| 0 <= i < before.len() && (#[trigger] before[i]).0 == incoming@[q].0.0;
                            assert(marks@[before[i].0 as int] == Mark::Done);
                            let j = choose|j: int| 0 <= j < out@.len() && (#[trigger] out@[j]).0 == before[i].0;
                        }
                    }
                }
            } else {
                proof {
                    if marks@[m as int] == Mark::OnPath {
                        assert(path2.contains(m as int));
                        let w = choose|w: int| 0 <= w < path2.len() && path2[w] == m;
                        let cyc = path2.subrange(w, path2.len() as int).push(m as int);
                        assert forall|j: int| 0 <= j < cyc.len() - 1 implies self.has_edge(#[trigger] cyc[j + 1], cyc[j]) by {
                            if j < cyc.len() - 2 {
                                assert(cyc[j + 1] == path2[w + j + 1] && cyc[j] == path2[w + j]);
                            } else {
                                assert(cyc[j] == n);
                            }
                        }
                        assert(self.chain(cyc));
                        assert(cyc[0] == cyc.last());
                    }
                    assert(marks@[m as int] == Mark::Done);
                }
            }
            k = k + 1;
        }
        let ghost m1 = marks@;
        let ghost o1 = out@;
        proof {
            lemma_unvisited_update(marks@, n as int, Mark::Done);
        }
        marks.set(n, Mark::Done);
        out.push(NodeId(n));
        proof {
            assert(!exists|j: int| 0 <= j < o1.len() && (#[trigger] o1[j]).0 == n as int) by {
                if exists|j: int| 0 <= j < o1.len() && (#[trigger] o1[j]).0 == n as int {
                    let j = choose|j: int| 0 <= j < o1.len() && (#[trigger] o1[j]).0 == n as int;
                    assert(m1[o1[j].0 as int] == Mark::Done);
                }
            }
            assert forall|j: int| 0 <= j < out@.len() implies (#[trigger] out@[j]).0 < self.nodes@.len() && marks@[out@[j].0 as int] == Mark::Done by {
                if j < o1.len() {
                    assert(out@[j] == o1[j]);
                }
            }
            assert forall|i: int| 0 <= i < marks@.len() && #[trigger] marks@[i] == Mark::Done implies exists|j: int| 0 <= j < out@.len() && (#[trigger] out@[j]).0 == i by {
                if i == n {
                    assert(out@[o1.len() as int].0 == i);
                } else {
                    assert(m1[i] == Mark::Done);
                    let j = choose|j: int| 0 <= j < o1.len() && (#[trigger] o1[j]).0 == i;
                    assert(out@[j] == o1[j]);
                }
            }
            assert forall|a: int, b: int| 0 <= a < b < out@.len() implies out@[a] != out@[b] by {
                if b < o1.len() {
                    assert(out@[a] == o1[a] && out@[b] == o1[b]);
                } else {
                    assert(out@[a] == o1[a]);
                }
            }
            assert forall|j: int, q: int|
                0 <= j < out@.len() && 0 <= q < self.edges@[out@[j].0 as int]@.len() implies #[trigger] listed_before(
                out@,
                j,
                self.edges@[out@[j].0 as int]@[q].0.0 as int,
            ) by {
                if j < o1.len() {
                    assert(out@[j] == o1[j]);
                    assert(listed_before(o1, j, self.edges@[o1[j].0 as int]@[q].0.0 as int));
                    let i = choose|i: int| 0 <= i < j && (#[trigger] o1[i]).0 == self.edges@[o1[j].0 as int]@[q].0.0;
                    assert(out@[i] == o1[i]);
                } else {
                    assert(out@[j].0 == n);
                    assert(incoming@[q] == self.edges@[n as int]@[q]);
                    assert(listed_before(o1, o1.len() as int, incoming@[q].0.0 as int));
                    let i = choose|i: int| 0 <= i < o1.len() && (#[trigger] o1[i]).0 == incoming@[q].0.0;
                    assert(out@[i] == o1[i]);
                }
            }
            assert forall|i: int| 0 <= i < marks@.len() implies ((#[trigger] marks@[i]) == Mark::OnPath <==> path.contains(i)) by {
                if i != n {
                    assert(marks@[i] == m1[i]);
                    if path2.contains(i) && !path.contains(i) {
                        let w = choose|w: int| 0 <= w < path2.len() && path2[w] == i;
                        assert(w == path.len());
                    }
                    if path.contains(i) {
                        let w = choose|w: int| 0 <= w < path.len() && path[w] == i;
                        assert(path2[w] == i);
                    }
                } else {
                    if path.contains(i) {
                        let w = choose|w: int| 0 <= w < path.len() && path[w] == i;
                        let cyc = path.subrange(w, path.len() as int).push(n as int);
                        assert forall|j: int| 0 <= j < cyc.len() - 1 implies self.has_edge(#[trigger] cyc[j + 1], cyc[j]) by {
                            if j < cyc.len() - 2 {
                                assert(cyc[j + 1] == path[w + j + 1] && cyc[j] == path[w + j]);
                            }
                        }
                        assert(self.chain(cyc));
                    }
                }
            }
            assert(marks@.len() == self.nodes@.len());
            assert(self.preds_first(out@));
            if self.preds_done(m0, n as int) {
                assert(marks@ =~= m0.update(n as int, Mark::Done));
            }
        }
    }

    /// The nodes in an order where every edge goes from an earlier node to a
    /// later one; the graph must have no cycle.
    pub fn topo_sort(&self) -> (r: Vec<NodeId>)
        requires
            self.wf(),
            self.acyclic(),
        ensures
            self.topological(r@),
            self.forward() ==> forall|j: int| 0 <= j < r@.len() ==> (#[trigger] r@[j]).0 == j,
    {
        let mut out: Vec<NodeId> = Vec::new();
        let mut marks: Vec<Mark> = Vec::new();
        let mut i: usize = 0;
        while i < self.nodes.len()
            invariant
                i <= self.nodes@.len(),
                marks@.len() == i,
                forall|j: int| 0 <= j < i ==> #[trigger] marks@[j] == Mark::Unvisited,
            decreases self.nodes@.len() - i,
        {
            marks.push(Mark::Unvisited);
            i = i + 1;
        }
        let mut i: usize = 0;
        while i < self.nodes.len()
            invariant
                self.wf(),
                self.acyclic(),
                i <= self.nodes@.len(),
                self.dfs_inv(marks@, out@),
                forall|j: int| 0 <= j < marks@.len() ==> #[trigger] marks@[j] != Mark::OnPath,
                forall|j: int| 0 <= j < i ==> #[trigger] marks@[j] == Mark::Done,
                self.forward() ==> out@.len() == i && (forall|j: int| 0 <= j < i ==> (#[trigger] out@[j]).0 == j)
                    && (forall|j: int| i <= j < marks@.len() ==> #[trigger] marks@[j] == Mark::Unvisited),
            decreases self.nodes@.len() - i,
        {
            let ghost o0 = out@;
            let ghost mk0 = marks@;
            if marks[i] == Mark::Unvisited {
                proof {
                    if self.forward() {
                        assert forall|k: int| 0 <= k < self.edges@[i as int]@.len() implies mk0[(#[trigger] self.edges@[i as int]@[k]).0.0 as int] == Mark::Done by {
                            assert(self.edges@[i as int]@[k].0.0 < i);
                        }
                        assert(self.preds_done(mk0, i as int));
                    }
                }
                self.visit(i, &mut marks, &mut out, Ghost(Seq::empty()));
                proof {
                    if self.forward() {
                        assert forall|j: int| 0 <= j < i + 1 implies (#[trigger] out@[j]).0 == j by {
                            if j < i {
                                assert(out@[j] == o0[j]);
                            }
                        }
                        assert forall|j: int| i + 1 <= j < marks@.len() implies #[trigger] marks@[j] == Mark::Unvisited by {
                            assert(marks@[j] == mk0[j]);
                        }
                    }
                }
            }
            i = i + 1;
        }
        proof {
            let n = self.nodes@.len();
            assert forall|j: int| 0 <= j < out@.len() implies (#[trigger] out@[j]).0 < self.nodes@.len() by {}
            assert forall|j: int| 0 <= j < n implies #[trigger] listed(out@, j) by {
                assert(marks@[j] == Mark::Done);
            }
            lemma_distinct_ids_fill(out@, n as int);
        }
        out
    }
}

spec fn listed(out: Seq<NodeId>, i: int) -> bool {
    exists|j: int| 0 <= j < out.len() && (#[trigger] out[j]).0 == i
}

/// A list of distinct ids of `n` nodes that names every node has length `n`.
proof fn lemma_distinct_ids_fill(out: Seq<NodeId>, n: int)
    requires
        n >= 0,
        forall|j: int| 0 <= j < out.len() ==> (#[trigger] out[j]).0 < n,
        forall|a: int, b: int| 0 <= a < b < out.len() ==> out[a] != out[b],
        forall|i: int| 0 <= i < n ==> #[trigger] listed(out, i),
    ensures
        out.len() == n,
{
    let ids = out.map_values(|x: NodeId| x.0 as int);
    let s = ids.to_set();
    assert(s =~= vstd::set_lib::set_int_range(0, n)) by {
        assert forall|i: int| s.contains(i) <==> 0 <= i < n by {
            if 0 <= i < n {
                assert(listed(out, i));
                let j = choose|j: int| 0 <= j < out.len() && (#[trigger] out[j]).0 == i;
                assert(ids[j] == i);
            }
            if s.contains(i) {
                let j = choose|j: int| 0 <= j < ids.len() && ids[j] == i;
                assert(out[j].0 == i);
            }
        }
    }
    assert(ids.no_duplicates()) by {
        assert forall|a: int, b: int| 0 <= a < ids.len() && 0 <= b < ids.len() && a != b implies ids[a] != ids[b] by {
            if a < b {
                assert(out[a] != out[b]);
            } else {
                assert(out[b] != out[a]);
            }
        }
    }
    ids.unique_seq_to_set();
    vstd::set_lib::lemma_int_range(0, n);
}

} // verus!
