//! The conflict graph: one node per variable, an edge wherever two lifetimes
//! overlap. Built once, then shared read-only by every chromosome.

use std::rc::Rc;

use vstd::prelude::*;

use crate::lifetime::{spec_overlap, VarId, VarLifetime};

verus! {

/// One vertex: its degree and the identifiers of its neighbours.
#[derive(Debug)]
pub struct VarLifetimeGraphNode {
    pub deg: u16,
    pub adj_set: Vec<VarId>,
}

impl VarLifetimeGraphNode {
    /// The neighbour list holds each identifier once, and `deg` counts it.
    pub open spec fn wf(self) -> bool {
        &&& self.adj_set@.no_duplicates()
        &&& self.deg == self.adj_set@.len()
    }

    /// Whether `id` is a neighbour of this node.
    pub open spec fn spec_adjacent(self, id: VarId) -> bool {
        self.adj_set@.contains(id)
    }

    /// Membership test on the neighbour list.
    pub fn is_adjacent(&self, id: VarId) -> (r: bool)
        ensures
            r == self.spec_adjacent(id),
    {
        let mut k: usize = 0;
        while k < self.adj_set.len()
            invariant
                k <= self.adj_set@.len(),
                forall|m: int| 0 <= m < k ==> self.adj_set@[m] != id,
            decreases self.adj_set@.len() - k,
        {
            if self.adj_set[k] == id {
                return true;
            }
            k = k + 1;
        }
        false
    }
}

/// The undirected conflict graph, keyed by variable id. The node list is
/// ordered as the lifetimes were given; ids are unique.
#[derive(Debug)]
pub struct VarLifetimeGraph {
    pub nodes: Vec<(VarId, VarLifetimeGraphNode)>,
}

impl VarLifetimeGraph {
    /// The vertex identifiers, in node order.
    pub open spec fn ids(self) -> Seq<VarId> {
        self.nodes@.map_values(|p: (VarId, VarLifetimeGraphNode)| p.0)
    }

    /// Number of vertices.
    pub open spec fn n(self) -> nat {
        self.nodes@.len()
    }

    /// The node at position `i`.
    pub open spec fn node(self, i: int) -> VarLifetimeGraphNode {
        self.nodes@[i].1
    }

    /// Whether the node at position `i` lists `v` as a neighbour.
    pub open spec fn adj_at(self, i: int, v: VarId) -> bool {
        self.node(i).adj_set@.contains(v)
    }

    /// Well-formedness: unique ids, consistent degrees, no self-loops,
    /// neighbours drawn from the vertex set, and a symmetric relation.
    pub open spec fn wf(self) -> bool {
        &&& self.ids().no_duplicates()
        &&& self.n() <= 0xFFFF
        &&& forall|i: int| 0 <= i < self.n() ==> (#[trigger] self.node(i)).wf()
        &&& forall|i: int|
            0 <= i < self.n() ==> !(#[trigger] self.node(i)).adj_set@.contains(self.ids()[i])
        &&& forall|i: int, k: int|
            0 <= i < self.n() && 0 <= k < self.node(i).adj_set@.len() ==> self.ids().contains(
                #[trigger] self.node(i).adj_set@[k],
            )
        &&& forall|i: int, j: int|
            0 <= i < self.n() && 0 <= j < self.n() ==> (#[trigger] self.adj_at(i, self.ids()[j])
                <==> #[trigger] self.adj_at(j, self.ids()[i]))
    }

    /// Builds the graph from a set of lifetimes with pairwise-distinct ids:
    /// an edge joins two distinct variables exactly when their lifetimes
    /// overlap, and each degree counts the node's neighbours.
    pub fn new(vars_lt: &[VarLifetime]) -> (r: VarLifetimeGraph)
        requires
            vars_lt@.map_values(|lt: VarLifetime| lt.id).no_duplicates(),
            vars_lt@.len() <= 0xFFFF,
        ensures
            r.wf(),
            r.ids() == vars_lt@.map_values(|lt: VarLifetime| lt.id),
            forall|i: int, j: int|
                0 <= i < vars_lt@.len() && 0 <= j < vars_lt@.len() && i != j ==> (#[trigger] r.adj_at(
                    i,
                    vars_lt@[j].id,
                ) <==> spec_overlap(vars_lt@[i], vars_lt@[j])),
    {
        let ghost idseq = vars_lt@.map_values(|lt: VarLifetime| lt.id);
        let n = vars_lt.len();
        let mut nodes: Vec<(VarId, VarLifetimeGraphNode)> = Vec::new();

        let mut i: usize = 0;
        while i < n
            invariant
                idseq == vars_lt@.map_values(|lt: VarLifetime| lt.id),
                idseq.no_duplicates(),
                n == vars_lt@.len() <= 0xFFFF,
                nodes@.len() == i <= n,
                forall|k: int| 0 <= k < i ==> (#[trigger] nodes@[k].0) == idseq[k],
                forall|k: int| 0 <= k < i ==> (#[trigger] nodes@[k].1).wf(),
                forall|k: int, j: int|
                    0 <= k < i && 0 <= j < n ==> ((#[trigger] nodes@[k].1.adj_set@.contains(
                        idseq[j],
                    )) <==> (j != k && spec_overlap(vars_lt@[k], vars_lt@[j]))),
                forall|k: int, m: int|
                    0 <= k < i && 0 <= m < nodes@[k].1.adj_set@.len() ==> idseq.contains(
                        #[trigger] nodes@[k].1.adj_set@[m],
                    ),
            decreases n - i,
        {
            let mut adj: Vec<VarId> = Vec::new();
            let mut j: usize = 0;
            while j < n
                invariant
                    idseq == vars_lt@.map_values(|lt: VarLifetime| lt.id),
                    idseq.no_duplicates(),
                    n == vars_lt@.len(),
                    i < n,
                    j <= n,
                    adj@.len() <= j,
                    adj@.no_duplicates(),
                    forall|jp: int|
                        0 <= jp < j ==> ((#[trigger] adj@.contains(idseq[jp])) <==> (jp != i
                            && spec_overlap(vars_lt@[i as int], vars_lt@[jp]))),
                    forall|m: int|
                        0 <= m < adj@.len() ==> exists|jp: int|
                            0 <= jp < j && jp != i && (#[trigger] adj@[m]) == idseq[jp],
                decreases n - j,
            {
                let ghost prev = adj@;
                if j != i && vars_lt[j].overlap(&vars_lt[i]) {
                    proof {
                        if prev.contains(idseq[j as int]) {
                            let m = choose|m: int|
                                0 <= m < prev.len() && prev[m] == idseq[j as int];
                            let jp = choose|jp: int|
                                0 <= jp < j && jp != i && prev[m] == idseq[jp];
                            assert(idseq[jp] == idseq[j as int]);
                            assert(false);
                        }
                    }
                    adj.push(vars_lt[j].id);
                    proof {
                        assert(adj@ == prev.push(idseq[j as int]));
                        assert(adj@[prev.len() as int] == idseq[j as int]);
                        assert forall|jp: int| 0 <= jp < j + 1 implies ((#[trigger] adj@.contains(
                            idseq[jp],
                        )) <==> (jp != i && spec_overlap(vars_lt@[i as int], vars_lt@[jp]))) by {
                            if jp < j {
                                if prev.contains(idseq[jp]) {
                                    let m = choose|m: int|
                                        0 <= m < prev.len() && prev[m] == idseq[jp];
                                    assert(adj@[m] == idseq[jp]);
                                }
                                if adj@.contains(idseq[jp]) {
                                    let m = choose|m: int|
                                        0 <= m < adj@.len() && adj@[m] == idseq[jp];
                                    if m < prev.len() {
                                        assert(prev[m] == idseq[jp]);
                                    } else {
                                        assert(idseq[jp] == idseq[j as int]);
                                        assert(false);
                                    }
                                }
                            } else {
                                assert(adj@.contains(idseq[j as int]));
                            }
                        }
                    }
                } else {
                    proof {
                        if adj@.contains(idseq[j as int]) {
                            let m = choose|m: int|
                                0 <= m < adj@.len() && adj@[m] == idseq[j as int];
                            let jp = choose|jp: int|
                                0 <= jp < j && jp != i && adj@[m] == idseq[jp];
                            assert(idseq[jp] == idseq[j as int]);
                            assert(false);
                        }
                    }
                }
                j = j + 1;
            }
            let deg: u16 = adj.len() as u16;
            let node = VarLifetimeGraphNode { deg, adj_set: adj };
            nodes.push((vars_lt[i].id, node));
            assert forall|m: int|
                0 <= m < nodes@.last().1.adj_set@.len() implies idseq.contains(
                nodes@.last().1.adj_set@[m],
            ) by {
                let jp = choose|jp: int|
                    0 <= jp < n && jp != i && nodes@.last().1.adj_set@[m] == idseq[jp];
                assert(idseq[jp] == nodes@.last().1.adj_set@[m]);
            }
            i = i + 1;
        }

        let r = VarLifetimeGraph { nodes };
        assert(r.ids() =~= idseq);
        assert forall|a: int, b: int|
            0 <= a < vars_lt@.len() && 0 <= b < vars_lt@.len() && a != b implies (#[trigger] r.adj_at(
            a,
            vars_lt@[b].id,
        ) <==> spec_overlap(vars_lt@[a], vars_lt@[b])) by {
            assert(idseq[b] == vars_lt@[b].id);
            assert(r.nodes@[a].1.adj_set@.contains(idseq[b]) <==> (b != a && spec_overlap(
                vars_lt@[a],
                vars_lt@[b],
            )));
        }
        assert forall|a: int, b: int| 0 <= a < r.n() && 0 <= b < r.n() implies (r.adj_at(
            a,
            r.ids()[b],
        ) <==> r.adj_at(b, r.ids()[a])) by {
            if a != b {
                assert(r.adj_at(a, vars_lt@[b].id) <==> spec_overlap(vars_lt@[a], vars_lt@[b]));
                assert(r.adj_at(b, vars_lt@[a].id) <==> spec_overlap(vars_lt@[b], vars_lt@[a]));
                assert(r.ids()[b] == vars_lt@[b].id && r.ids()[a] == vars_lt@[a].id);
            }
        }
        r
    }

    /// Degree of the vertex carrying `id`.
    pub open spec fn deg_of(self, id: VarId) -> u16 {
        self.node(self.ids().index_of(id)).deg
    }

    /// Whether the vertex `u` lists `v` as a neighbour.
    pub open spec fn spec_adj_ids(self, u: VarId, v: VarId) -> bool {
        exists|i: int| 0 <= i < self.n() && self.ids()[i] == u && self.adj_at(i, v)
    }

    /// Adjacency test between two vertex identifiers.
    pub fn adjacent_ids(&self, u: VarId, v: VarId) -> (r: bool)
        requires
            self.wf(),
            self.ids().contains(u),
        ensures
            r == self.spec_adj_ids(u, v),
    {
        let i = self.find_node(u);
        let r = self.nodes[i].1.is_adjacent(v);
        proof {
            if r {
                assert(self.adj_at(i as int, v));
            } else {
                if self.spec_adj_ids(u, v) {
                    let w = choose|w: int|
                        0 <= w < self.n() && self.ids()[w] == u && self.adj_at(w, v);
                    assert(w == i);
                }
            }
        }
        r
    }

    /// Degree lookup by vertex identifier.
    pub fn degree_of(&self, id: VarId) -> (d: u16)
        requires
            self.wf(),
            self.ids().contains(id),
        ensures
            d == self.deg_of(id),
    {
        let i = self.find_node(id);
        proof {
            let k = self.ids().index_of(id);
            assert(0 <= k < self.ids().len() && self.ids()[k] == id) by {
                assert(exists|m: int| 0 <= m < self.ids().len() && self.ids()[m] == id);
            }
            assert(k == i);
        }
        self.nodes[i].1.deg
    }

    /// Position of the node that carries `id`.
    pub fn find_node(&self, id: VarId) -> (i: usize)
        requires
            self.ids().contains(id),
        ensures
            i < self.n(),
            self.ids()[i as int] == id,
    {
        let mut i: usize = 0;
        while i < self.nodes.len()
            invariant
                self.ids().contains(id),
                i <= self.n(),
                forall|k: int| 0 <= k < i ==> self.ids()[k] != id,
            decreases self.n() - i,
        {
            if self.nodes[i].0 == id {
                return i;
            }
            i = i + 1;
        }
        proof {
            let w = choose|w: int| 0 <= w < self.ids().len() && self.ids()[w] == id;
            assert(false);
        }
        unreached()
    }
}

/// The graph behind a shared handle, for use in specifications.
pub open spec fn graph_of(g: &Rc<VarLifetimeGraph>) -> VarLifetimeGraph {
    **g
}

/// With unique identifiers, `deg_of` at the id of position `i` is that
/// node's degree.
pub proof fn lemma_deg_of_at(g: VarLifetimeGraph, i: int)
    requires
        g.wf(),
        0 <= i < g.n(),
    ensures
        g.deg_of(g.ids()[i]) == g.node(i).deg,
{
    let id = g.ids()[i];
    assert(g.ids().contains(id));
    let k = g.ids().index_of(id);
    assert(0 <= k < g.ids().len() && g.ids()[k] == id) by {
        assert(exists|m: int| 0 <= m < g.ids().len() && g.ids()[m] == id);
    }
    assert(k == i);
}

/// Relies on Rc::clone: hands out another handle to the same shared graph,
/// so the pointed-to value is unchanged.
#[verifier::external_body]
pub(crate) fn share_graph(g: &Rc<VarLifetimeGraph>) -> (r: Rc<VarLifetimeGraph>)
    ensures
        r == *g,
{
    Rc::clone(g)
}

/// In a well-formed graph the neighbour relation is symmetric, and a listed
/// neighbour is itself a vertex of the graph.
pub proof fn lemma_adj_ids_symmetric(g: VarLifetimeGraph, u: VarId, v: VarId)
    requires
        g.wf(),
    ensures
        g.spec_adj_ids(u, v) == g.spec_adj_ids(v, u),
        g.spec_adj_ids(u, v) ==> g.ids().contains(u) && g.ids().contains(v),
{
    if g.spec_adj_ids(u, v) {
        lemma_adj_ids_flip(g, u, v);
    }
    if g.spec_adj_ids(v, u) {
        lemma_adj_ids_flip(g, v, u);
    }
}

proof fn lemma_adj_ids_flip(g: VarLifetimeGraph, u: VarId, v: VarId)
    requires
        g.wf(),
        g.spec_adj_ids(u, v),
    ensures
        g.spec_adj_ids(v, u),
        g.ids().contains(u),
        g.ids().contains(v),
{
    let i = choose|i: int| 0 <= i < g.n() && g.ids()[i] == u && g.adj_at(i, v);
    assert(g.ids().contains(u));
    let k = choose|k: int| 0 <= k < g.node(i).adj_set@.len() && g.node(i).adj_set@[k] == v;
    assert(g.ids().contains(g.node(i).adj_set@[k]));
    let j = choose|j: int| 0 <= j < g.ids().len() && g.ids()[j] == v;
    assert(g.adj_at(i, g.ids()[j]) <==> g.adj_at(j, g.ids()[i]));
    assert(g.adj_at(j, u));
}

} // verus!
