//! Chromosomes: a visitation order over all graph vertices, the single-pass
//! greedy decoder that turns the order into a coloring, and the cached
//! fitness (color count).

use std::rc::Rc;

use vstd::prelude::*;

use crate::genalg::rng::shuffle_ids;
use crate::graph::lemma_adj_ids_symmetric;
use crate::graph::share_graph;
use crate::graph::VarLifetimeGraph;
use crate::graph::VarLifetimeGraphNode;
use crate::lifetime::VarId;

verus! {

/// A gene is a permutation of the graph's vertex identifiers: every vertex
/// exactly once, nothing else.
pub open spec fn valid_gene(g: VarLifetimeGraph, gene: Seq<VarId>) -> bool {
    &&& gene.no_duplicates()
    &&& gene.len() == g.n()
    &&& forall|k: int| 0 <= k < gene.len() ==> g.ids().contains(#[trigger] gene[k])
}

/// Color that the greedy decoder assigns to position `i` of the gene
/// (0 before the first position). The decoder keeps a single counter,
/// starting at 0: at each position it bumps the counter by one when some
/// earlier position holds a neighbour colored with the counter's current
/// value, then assigns the counter. The counter never decreases and a
/// passed-over value is never reused.
pub open spec fn decode_color(g: VarLifetimeGraph, gene: Seq<VarId>, i: int) -> nat
    decreases i,
{
    if i <= 0 {
        0
    } else {
        let c = decode_color(g, gene, i - 1);
        if exists|j: int|
            0 <= j < i && g.spec_adj_ids(gene[i], #[trigger] gene[j]) && decode_color(g, gene, j)
                == c {
            (c + 1) as nat
        } else {
            c
        }
    }
}

/// Color count of the decoded gene: the final counter value plus one.
pub open spec fn decode_phene(g: VarLifetimeGraph, gene: Seq<VarId>) -> nat {
    decode_color(g, gene, gene.len() - 1) + 1
}

/// The decoded coloring, one `(vertex, color)` pair per gene position, in
/// gene order.
pub open spec fn decode_coloring(g: VarLifetimeGraph, gene: Seq<VarId>) -> Seq<(VarId, u16)> {
    Seq::new(gene.len(), |k: int| (gene[k], decode_color(g, gene, k) as u16))
}

/// The counter never exceeds the position index.
pub proof fn lemma_decode_color_bound(g: VarLifetimeGraph, gene: Seq<VarId>, i: int)
    ensures
        i >= 0 ==> decode_color(g, gene, i) <= i,
        i < 0 ==> decode_color(g, gene, i) == 0,
    decreases i,
{
    if i > 0 {
        lemma_decode_color_bound(g, gene, i - 1);
    }
}

/// The counter never decreases along the gene.
pub proof fn lemma_decode_color_monotonic(g: VarLifetimeGraph, gene: Seq<VarId>, i: int, j: int)
    requires
        i <= j,
    ensures
        decode_color(g, gene, i) <= decode_color(g, gene, j),
    decreases j - i,
{
    if i < j {
        lemma_decode_color_monotonic(g, gene, i, j - 1);
    }
}

/// Decode always yields a proper coloring: whatever the gene order, the two
/// endpoints of any edge of the graph receive different colors.
pub proof fn lemma_decode_proper(g: VarLifetimeGraph, gene: Seq<VarId>, i: int, j: int)
    requires
        g.wf(),
        0 <= i < gene.len(),
        0 <= j < gene.len(),
        i != j,
        g.spec_adj_ids(gene[i], gene[j]),
    ensures
        decode_color(g, gene, i) != decode_color(g, gene, j),
{
    lemma_adj_ids_symmetric(g, gene[i], gene[j]);
    if i < j {
        lemma_decode_proper_ordered(g, gene, i, j);
    } else {
        lemma_decode_proper_ordered(g, gene, j, i);
    }
}

/// Ordered case of the properness argument: when the later position `j` is
/// decoded, a neighbour at the earlier position `i` either holds the current
/// counter value, forcing a bump past it, or holds a strictly smaller value.
proof fn lemma_decode_proper_ordered(g: VarLifetimeGraph, gene: Seq<VarId>, i: int, j: int)
    requires
        0 <= i < j < gene.len(),
        g.spec_adj_ids(gene[j], gene[i]),
    ensures
        decode_color(g, gene, j) > decode_color(g, gene, i),
{
    let c = decode_color(g, gene, j - 1);
    lemma_decode_color_monotonic(g, gene, i, j - 1);
    if decode_color(g, gene, i) == c {
        assert(exists|jp: int|
            0 <= jp < j && g.spec_adj_ids(gene[j], #[trigger] gene[jp]) && decode_color(g, gene, jp)
                == c) by {
            assert(g.spec_adj_ids(gene[j], gene[i]) && decode_color(g, gene, i) == c);
        }
        assert(decode_color(g, gene, j) == c + 1);
    }
}

/// Swapping two loci leaves the multiset of gene identifiers unchanged.
pub proof fn lemma_swap_preserves_multiset(s: Seq<VarId>, a: int, b: int)
    requires
        0 <= a < s.len(),
        0 <= b < s.len(),
    ensures
        s.update(a, s[b]).update(b, s[a]).to_multiset() == s.to_multiset(),
{
    let t = s.update(a, s[b]).update(b, s[a]);
    if a == b {
        assert(t =~= s);
    } else {
        broadcast use vstd::seq_lib::group_to_multiset_ensures;

        let t1 = s.update(a, s[b]);
        assert(s.contains(s[a]));
        assert(t1[b] == s[b]);
        assert(t1.contains(t1[b]));
        assert(t1.to_multiset() =~= s.to_multiset().remove(s[a]).insert(s[b]));
        assert(t.to_multiset() =~= t1.to_multiset().remove(s[b]).insert(s[a]));
        assert(t.to_multiset() =~= s.to_multiset()) by {
            assert(s.to_multiset().count(s[a]) > 0);
            assert forall|x: VarId| t.to_multiset().count(x) == s.to_multiset().count(x) by {
                assert(t.to_multiset().count(x) == s.to_multiset().remove(s[a]).insert(
                    s[b],
                ).remove(s[b]).insert(s[a]).count(x));
            }
        }
    }
}

/// Swapping two loci of a valid gene yields a valid gene.
pub proof fn lemma_swap_valid_gene(g: VarLifetimeGraph, s: Seq<VarId>, a: int, b: int)
    requires
        valid_gene(g, s),
        0 <= a < s.len(),
        0 <= b < s.len(),
    ensures
        valid_gene(g, s.update(a, s[b]).update(b, s[a])),
{
    let t = s.update(a, s[b]).update(b, s[a]);
    assert forall|k1: int, k2: int|
        0 <= k1 < t.len() && 0 <= k2 < t.len() && k1 != k2 implies t[k1] != t[k2] by {
        assert(s.no_duplicates());
    }
    assert forall|k: int| 0 <= k < t.len() implies g.ids().contains(#[trigger] t[k]) by {
        if k == b {
            assert(g.ids().contains(s[a]));
        } else if k == a {
            assert(g.ids().contains(s[b]));
        } else {
            assert(t[k] == s[k]);
        }
    }
}

/// One candidate ordering of all variables, together with its decoded
/// fitness: the gene, the color count (`phene`, lower is better) and the
/// coloring itself. The conflict graph is shared, never copied; the cached
/// decode always matches the gene.
#[derive(Debug)]
pub struct Chromo {
    gene: Vec<VarId>,
    graph: Rc<VarLifetimeGraph>,
    phene: u16,
    coloring: Vec<(VarId, u16)>,
}

impl Chromo {
    /// The shared conflict graph.
    pub closed spec fn spec_graph(self) -> VarLifetimeGraph {
        *self.graph
    }

    /// The gene as a sequence of vertex identifiers.
    pub closed spec fn spec_gene(self) -> Seq<VarId> {
        self.gene@
    }

    /// The cached color count.
    pub closed spec fn spec_phene(self) -> u16 {
        self.phene
    }

    /// The cached coloring.
    pub closed spec fn spec_coloring(self) -> Seq<(VarId, u16)> {
        self.coloring@
    }

    /// Representational invariant: the graph is well formed, the gene is a
    /// non-empty permutation of its vertices, and the cached `phene` and
    /// `coloring` equal a fresh decode of the gene.
    pub closed spec fn wf(self) -> bool {
        &&& self.spec_graph().wf()
        &&& valid_gene(self.spec_graph(), self.gene@)
        &&& self.gene@.len() > 0
        &&& self.phene as nat == decode_phene(self.spec_graph(), self.gene@)
        &&& self.coloring@ == decode_coloring(self.spec_graph(), self.gene@)
    }

    /// Builds a chromosome from a gene and the shared graph, decoding the
    /// gene eagerly. Decoding an empty vertex set is a caller error.
    pub fn new(gene: Vec<VarId>, graph: Rc<VarLifetimeGraph>) -> (r: Chromo)
        requires
            (*graph).wf(),
            valid_gene(*graph, gene@),
            gene@.len() > 0,
        ensures
            r.wf(),
            r.spec_gene() == gene@,
            r.spec_graph() == *graph,
    {
        let (phene, coloring) = color_graph(&gene, &graph);
        Chromo { gene, graph, phene, coloring }
    }

    /// Gene length; equals the graph's vertex count.
    pub fn size(&self) -> (r: usize)
        ensures
            r == self.spec_gene().len(),
    {
        self.gene.len()
    }

    /// The gene itself.
    pub fn gene(&self) -> (r: &[VarId])
        ensures
            r@ == self.spec_gene(),
    {
        self.gene.as_slice()
    }

    /// The decoded color count; the fitness value, lower is better.
    pub fn phene(&self) -> (r: u16)
        ensures
            r == self.spec_phene(),
    {
        self.phene
    }

    /// The decoded coloring, in gene order.
    pub fn get_coloring(&self) -> (r: &[(VarId, u16)])
        ensures
            r@ == self.spec_coloring(),
    {
        self.coloring.as_slice()
    }

    /// Exchanges the genes at two loci and refreshes the cached decode.
    /// A locus outside the gene is a caller error.
    pub fn swap_genes(&mut self, locus_a: usize, locus_b: usize)
        requires
            old(self).wf(),
            locus_a < old(self).spec_gene().len(),
            locus_b < old(self).spec_gene().len(),
        ensures
            final(self).wf(),
            final(self).spec_graph() == old(self).spec_graph(),
            final(self).spec_gene() == old(self).spec_gene().update(
                locus_a as int,
                old(self).spec_gene()[locus_b as int],
            ).update(locus_b as int, old(self).spec_gene()[locus_a as int]),
            final(self).spec_gene().to_multiset() == old(self).spec_gene().to_multiset(),
    {
        proof {
            lemma_swap_valid_gene(
                old(self).spec_graph(),
                old(self).gene@,
                locus_a as int,
                locus_b as int,
            );
            lemma_swap_preserves_multiset(old(self).gene@, locus_a as int, locus_b as int);
        }
        let va = self.gene[locus_a];
        let vb = self.gene[locus_b];
        self.gene.set(locus_a, vb);
        self.gene.set(locus_b, va);
        let (phene, coloring) = color_graph(&self.gene, &self.graph);
        self.phene = phene;
        self.coloring = coloring;
    }
}

/// The color counts of a population, in order.
pub open spec fn phenes_of(pop: Seq<Chromo>) -> Seq<u16> {
    pop.map_values(|c: Chromo| c.spec_phene())
}

/// Two chromosomes are equivalent when every observable agrees: graph,
/// gene, color count and coloring.
pub open spec fn chromo_eqv(a: Chromo, b: Chromo) -> bool {
    &&& a.spec_graph() == b.spec_graph()
    &&& a.spec_gene() == b.spec_gene()
    &&& a.spec_phene() == b.spec_phene()
    &&& a.spec_coloring() == b.spec_coloring()
}

/// Equivalent chromosomes are equally well formed.
pub proof fn lemma_chromo_eqv_wf(a: Chromo, b: Chromo)
    requires
        chromo_eqv(a, b),
    ensures
        a.wf() == b.wf(),
{
}

impl Clone for Chromo {
    /// A clone observes equal to the original: same shared graph, same
    /// gene, same cached decode.
    fn clone(&self) -> (r: Self)
        ensures
            chromo_eqv(r, *self),
    {
        Chromo {
            gene: copy_ids(self.gene.as_slice()),
            graph: share_graph(&self.graph),
            phene: self.phene,
            coloring: copy_pairs(self.coloring.as_slice()),
        }
    }
}

/// Copies a slice of coloring entries into a fresh vector.
fn copy_pairs(v: &[(VarId, u16)]) -> (r: Vec<(VarId, u16)>)
    ensures
        r@ == v@,
{
    let mut r: Vec<(VarId, u16)> = Vec::new();
    let mut i: usize = 0;
    while i < v.len()
        invariant
            i <= v@.len(),
            r@ == v@.take(i as int),
        decreases v@.len() - i,
    {
        r.push(v[i]);
        proof {
            assert(r@ =~= v@.take(i + 1));
        }
        i = i + 1;
    }
    proof {
        assert(v@.take(v@.len() as int) =~= v@);
    }
    r
}

/// What well-formedness guarantees of a chromosome, stated over its public
/// spec views: the graph is well formed, the gene is a non-empty permutation
/// of the graph's vertices, and the cached fields equal a fresh decode.
pub proof fn lemma_chromo_wf(c: Chromo)
    requires
        c.wf(),
    ensures
        c.spec_graph().wf(),
        valid_gene(c.spec_graph(), c.spec_gene()),
        c.spec_gene().len() > 0,
        c.spec_phene() as nat == decode_phene(c.spec_graph(), c.spec_gene()),
        c.spec_coloring() == decode_coloring(c.spec_graph(), c.spec_gene()),
{
}

/// A well-formed chromosome's coloring is proper: any two positions holding
/// adjacent vertices carry different colors.
pub proof fn lemma_chromo_coloring_proper(c: Chromo, i: int, j: int)
    requires
        c.wf(),
        0 <= i < c.spec_coloring().len(),
        0 <= j < c.spec_coloring().len(),
        i != j,
        c.spec_graph().spec_adj_ids(c.spec_coloring()[i].0, c.spec_coloring()[j].0),
    ensures
        c.spec_coloring()[i].1 != c.spec_coloring()[j].1,
{
    let g = c.spec_graph();
    let gene = c.spec_gene();
    lemma_decode_color_bound(g, gene, i);
    lemma_decode_color_bound(g, gene, j);
    lemma_decode_proper(g, gene, i, j);
}

/// The greedy single-pass decoder. Walks the gene in order; for each vertex,
/// bumps the current color once when an already colored neighbour holds it,
/// then assigns the current color. Returns the color count and the coloring
/// in gene order.
pub fn color_graph(gene: &Vec<VarId>, graph: &VarLifetimeGraph) -> (r: (u16, Vec<(VarId, u16)>))
    requires
        graph.wf(),
        valid_gene(*graph, gene@),
        gene@.len() > 0,
    ensures
        r.0 as nat == decode_phene(*graph, gene@),
        r.1@ == decode_coloring(*graph, gene@),
{
    let n = gene.len();
    let mut coloring: Vec<(VarId, u16)> = Vec::new();
    let mut current: u16 = 0;

    let mut k: usize = 0;
    while k < n
        invariant
            graph.wf(),
            valid_gene(*graph, gene@),
            n == gene@.len() <= 0xFFFF,
            k <= n,
            current as nat == decode_color(*graph, gene@, k - 1),
            coloring@.len() == k,
            forall|m: int|
                0 <= m < k ==> #[trigger] coloring@[m] == (
                gene@[m],
                decode_color(*graph, gene@, m) as u16,
            ),
        decreases n - k,
    {
        proof {
            lemma_decode_color_bound(*graph, gene@, k - 1);
        }
        let mut bump = false;
        let mut m: usize = 0;
        while m < k
            invariant
                graph.wf(),
                valid_gene(*graph, gene@),
                n == gene@.len() <= 0xFFFF,
                k < n,
                m <= k,
                current as nat == decode_color(*graph, gene@, k - 1),
                coloring@.len() == k,
                forall|mp: int|
                    0 <= mp < k ==> #[trigger] coloring@[mp] == (
                    gene@[mp],
                    decode_color(*graph, gene@, mp) as u16,
                ),
                bump == exists|j: int|
                    0 <= j < m && g_adj_colored(*graph, gene@, k as int, j, current as nat),
            decreases k - m,
        {
            let entry_id = coloring[m].0;
            let entry_color = coloring[m].1;
            let adj = graph.adjacent_ids(gene[k], entry_id);
            if adj && entry_color == current {
                proof {
                    lemma_decode_color_bound(*graph, gene@, m as int);
                    assert(g_adj_colored(*graph, gene@, k as int, m as int, current as nat));
                }
                bump = true;
            } else {
                proof {
                    lemma_decode_color_bound(*graph, gene@, m as int);
                    assert(!g_adj_colored(*graph, gene@, k as int, m as int, current as nat));
                }
            }
            m = m + 1;
        }
        proof {
            let c = current as nat;
            if bump {
                let j = choose|j: int| 0 <= j < k && g_adj_colored(*graph, gene@, k as int, j, c);
                assert(graph.spec_adj_ids(gene@[k as int], gene@[j]) && decode_color(
                    *graph,
                    gene@,
                    j,
                ) == c);
                assert(decode_color(*graph, gene@, k as int) == c + 1);
            } else {
                if exists|j: int|
                    0 <= j < k && graph.spec_adj_ids(gene@[k as int], #[trigger] gene@[j])
                        && decode_color(*graph, gene@, j) == c {
                    let j = choose|j: int|
                        0 <= j < k && graph.spec_adj_ids(gene@[k as int], #[trigger] gene@[j])
                            && decode_color(*graph, gene@, j) == c;
                    assert(g_adj_colored(*graph, gene@, k as int, j, c));
                    assert(false);
                }
                assert(decode_color(*graph, gene@, k as int) == c);
            }
        }
        if bump {
            current = current + 1;
        }
        coloring.push((gene[k], current));
        k = k + 1;
    }
    proof {
        assert(coloring@ =~= decode_coloring(*graph, gene@));
        lemma_decode_color_bound(*graph, gene@, n - 1);
    }
    (current + 1, coloring)
}

/// Position `j` holds a neighbour of the vertex at position `k`, colored `c`.
pub open spec fn g_adj_colored(
    g: VarLifetimeGraph,
    gene: Seq<VarId>,
    k: int,
    j: int,
    c: nat,
) -> bool {
    g.spec_adj_ids(gene[k], gene[j]) && decode_color(g, gene, j) == c
}

/// A sequence with the same identifier multiset as the vertex list is a
/// valid gene: same length, no duplicates, every entry a vertex.
pub proof fn lemma_perm_of_ids_valid(g: VarLifetimeGraph, gene: Seq<VarId>)
    requires
        g.wf(),
        gene.to_multiset() == g.ids().to_multiset(),
    ensures
        valid_gene(g, gene),
{
    broadcast use vstd::seq_lib::group_to_multiset_ensures;

    g.ids().lemma_multiset_has_no_duplicates();
    assert forall|x: VarId| gene.to_multiset().contains(x) implies gene.to_multiset().count(x)
        == 1 by {
        assert(g.ids().to_multiset().contains(x));
    }
    gene.lemma_multiset_has_no_duplicates_conv();
    assert(gene.len() == gene.to_multiset().len());
    assert(g.ids().len() == g.ids().to_multiset().len());
    assert forall|k: int| 0 <= k < gene.len() implies g.ids().contains(#[trigger] gene[k]) by {
        assert(gene.contains(gene[k]));
        assert(gene.to_multiset().count(gene[k]) > 0);
        assert(g.ids().to_multiset().count(gene[k]) > 0);
    }
}

/// A valid gene carries exactly the vertex multiset of the graph.
pub proof fn lemma_valid_gene_multiset(g: VarLifetimeGraph, gene: Seq<VarId>)
    requires
        g.wf(),
        valid_gene(g, gene),
    ensures
        gene.to_multiset() == g.ids().to_multiset(),
{
    broadcast use vstd::seq_lib::group_to_multiset_ensures;
    broadcast use vstd::seq_lib::seq_to_set_is_finite;
    broadcast use vstd::set::group_set_axioms;

    gene.unique_seq_to_set();
    g.ids().unique_seq_to_set();
    assert(gene.to_set().subset_of(g.ids().to_set())) by {
        assert forall|x: VarId| gene.to_set().contains(x) implies g.ids().to_set().contains(x) by {
            let k = choose|k: int| 0 <= k < gene.len() && gene[k] == x;
            assert(g.ids().contains(gene[k]));
        }
    }
    vstd::set_lib::lemma_subset_equality(gene.to_set(), g.ids().to_set());
    gene.lemma_multiset_has_no_duplicates();
    g.ids().lemma_multiset_has_no_duplicates();
    assert forall|x: VarId| gene.to_multiset().count(x) == g.ids().to_multiset().count(x) by {
        if gene.contains(x) {
            assert(gene.to_set().contains(x));
            assert(g.ids().contains(x));
        } else if g.ids().contains(x) {
            assert(g.ids().to_set().contains(x));
            assert(gene.to_set().contains(x));
            assert(gene.contains(x));
        } else {
            assert(gene.to_multiset().count(x) == 0);
            assert(g.ids().to_multiset().count(x) == 0);
        }
    }
    assert(gene.to_multiset() =~= g.ids().to_multiset());
}

/// Pushing on the left half of a concatenation inserts into its multiset.
proof fn lemma_concat_push_left(a: Seq<VarId>, b: Seq<VarId>, x: VarId)
    ensures
        (a.push(x) + b).to_multiset() == (a + b).to_multiset().insert(x),
{
    broadcast use vstd::seq_lib::group_to_multiset_ensures;
    broadcast use vstd::multiset::group_multiset_axioms;

    vstd::seq_lib::lemma_multiset_commutative(a.push(x), b);
    vstd::seq_lib::lemma_multiset_commutative(a, b);
    assert(a.push(x).to_multiset() == a.to_multiset().insert(x));
    assert(a.to_multiset().insert(x).add(b.to_multiset()) =~= a.to_multiset().add(
        b.to_multiset(),
    ).insert(x));
}

/// Pushing on the right half of a concatenation inserts into its multiset.
proof fn lemma_concat_push_right(a: Seq<VarId>, b: Seq<VarId>, x: VarId)
    ensures
        (a + b.push(x)).to_multiset() == (a + b).to_multiset().insert(x),
{
    broadcast use vstd::seq_lib::group_to_multiset_ensures;

    assert(a + b.push(x) =~= (a + b).push(x));
    assert((a + b).push(x).to_multiset() == (a + b).to_multiset().insert(x));
}

/// Copies a slice of identifiers into a fresh vector.
fn copy_ids(v: &[VarId]) -> (r: Vec<VarId>)
    ensures
        r@ == v@,
{
    let mut r: Vec<VarId> = Vec::new();
    let mut i: usize = 0;
    while i < v.len()
        invariant
            i <= v@.len(),
            r@ == v@.take(i as int),
        decreases v@.len() - i,
    {
        r.push(v[i]);
        proof {
            assert(r@ =~= v@.take(i + 1));
        }
        i = i + 1;
    }
    proof {
        assert(v@.take(v@.len() as int) =~= v@);
    }
    r
}

/// Degrees of all vertices, in node order.
pub open spec fn spec_degrees(g: VarLifetimeGraph) -> Seq<u16> {
    g.nodes@.map_values(|p: (VarId, VarLifetimeGraphNode)| p.1.deg)
}

/// The median degree, the value that splits the vertices into a low and a
/// high half: the middle entry of the sorted degree list, the upper middle
/// when the count is even. Ties with the median fall on the high side.
pub open spec fn spec_median_degree(g: VarLifetimeGraph) -> u16 {
    let sorted = spec_degrees(g).sort_by(|a: u16, b: u16| a <= b);
    sorted[g.n() as int / 2]
}

/// Insertion sort, ascending, for the degree list.
fn sort_u16(v: &mut Vec<u16>)
    ensures
        final(v)@ == old(v)@.sort_by(|a: u16, b: u16| a <= b),
        final(v)@.len() == old(v)@.len(),
{
    let ghost leq = |a: u16, b: u16| a <= b;
    let ghost orig = old(v)@;
    let n = v.len();
    let mut i: usize = 1;
    while i < n
        invariant
            n == v@.len(),
            v@.to_multiset() == orig.to_multiset(),
            i >= 1,
            forall|a: int, b: int| 0 <= a <= b < i && b < n ==> v@[a] <= v@[b],
        decreases n - i,
    {
        let mut j: usize = i;
        while j > 0 && v[j - 1] > v[j]
            invariant
                j <= i < n,
                n == v@.len(),
                v@.to_multiset() == orig.to_multiset(),
                forall|a: int, b: int|
                    0 <= a <= b <= i && a != j && b != j ==> v@[a] <= v@[b],
                forall|b: int| j < b <= i ==> v@[j as int] <= v@[b],
            decreases j,
        {
            let ghost before = v@;
            let x = v[j - 1];
            let y = v[j];
            v.set(j - 1, y);
            v.set(j, x);
            proof {
                lemma_swap_preserves_multiset(before, j - 1, j as int);
                assert(v@ == before.update(j - 1, before[j as int]).update(
                    j as int,
                    before[j - 1],
                ));
            }
            j = j - 1;
        }
        i = i + 1;
    }
    proof {
        assert(vstd::relations::sorted_by(v@, leq));
        assert(vstd::relations::total_ordering(leq)) by {
            assert(vstd::relations::reflexive(leq));
            assert(vstd::relations::transitive(leq));
            assert(vstd::relations::antisymmetric(leq));
            assert(vstd::relations::strongly_connected(leq));
        }
        orig.lemma_sort_by_ensures(leq);
        vstd::seq_lib::lemma_sorted_unique(v@, orig.sort_by(leq), leq);
    }
}

/// The chromosome could have come out of the builder: well formed over
/// the builder's graph, its first genes a reordering of the low-degree
/// half and the rest a reordering of the high-degree half.
pub open spec fn built_from(c: Chromo, b: ChromoBuilder) -> bool {
    &&& c.wf()
    &&& c.spec_graph() == b.spec_graph()
    &&& c.spec_gene().len() == b.spec_graph().n()
    &&& c.spec_gene().take(b.spec_low().len() as int).to_multiset()
        == b.spec_low().to_multiset()
    &&& c.spec_gene().skip(b.spec_low().len() as int).to_multiset()
        == b.spec_high().to_multiset()
}

/// Produces structurally biased random chromosomes for a fixed graph:
/// vertices are split at the median degree into a loosely constrained low
/// half and a hard high half; each random gene shuffles the halves
/// independently and colors the low half first.
pub struct ChromoBuilder {
    graph: Rc<VarLifetimeGraph>,
    low_deg_nodes_id: Vec<VarId>,
    high_deg_nodes_id: Vec<VarId>,
}

impl ChromoBuilder {
    /// The shared conflict graph.
    pub closed spec fn spec_graph(self) -> VarLifetimeGraph {
        *self.graph
    }

    /// Identifiers of the vertices below the median degree, in node order.
    pub closed spec fn spec_low(self) -> Seq<VarId> {
        self.low_deg_nodes_id@
    }

    /// Identifiers of the remaining vertices, in node order.
    pub closed spec fn spec_high(self) -> Seq<VarId> {
        self.high_deg_nodes_id@
    }

    /// Well-formedness: the two halves partition the vertex set at the
    /// median degree, low strictly below, ties and above on the high side.
    pub closed spec fn wf(self) -> bool {
        &&& self.spec_graph().wf()
        &&& self.spec_graph().n() > 0
        &&& (self.spec_low() + self.spec_high()).to_multiset()
            == self.spec_graph().ids().to_multiset()
        &&& forall|k: int|
            0 <= k < self.spec_low().len() ==> self.spec_graph().deg_of(
                #[trigger] self.spec_low()[k],
            ) < spec_median_degree(self.spec_graph())
        &&& forall|k: int|
            0 <= k < self.spec_high().len() ==> self.spec_graph().deg_of(
                #[trigger] self.spec_high()[k],
            ) >= spec_median_degree(self.spec_graph())
    }

    /// Splits the vertices of a non-empty graph at the median degree.
    pub fn new(graph: Rc<VarLifetimeGraph>) -> (r: ChromoBuilder)
        requires
            (*graph).wf(),
            (*graph).n() > 0,
        ensures
            r.wf(),
            r.spec_graph() == *graph,
    {
        let n = graph.nodes.len();
        let mut nodes_deg: Vec<u16> = Vec::new();
        let mut i: usize = 0;
        while i < n
            invariant
                n == (*graph).n(),
                i <= n,
                nodes_deg@ == spec_degrees(*graph).take(i as int),
            decreases n - i,
        {
            nodes_deg.push(graph.nodes[i].1.deg);
            proof {
                assert(nodes_deg@ =~= spec_degrees(*graph).take(i + 1));
            }
            i = i + 1;
        }
        proof {
            assert(spec_degrees(*graph).take(n as int) =~= spec_degrees(*graph));
        }
        sort_u16(&mut nodes_deg);

        let nodes_deg_median = nodes_deg[n / 2];
        assert(nodes_deg_median == spec_median_degree(*graph));

        let ghost g = crate::graph::graph_of(&graph);
        let mut low_deg_nodes_id: Vec<VarId> = Vec::new();
        let mut high_deg_nodes_id: Vec<VarId> = Vec::new();
        proof {
            assert(low_deg_nodes_id@ + high_deg_nodes_id@ =~= Seq::<VarId>::empty());
            assert(g.ids().take(0) =~= Seq::<VarId>::empty());
        }
        let mut i: usize = 0;
        while i < n
            invariant
                g == *graph,
                g.wf(),
                n == g.n(),
                i <= n,
                nodes_deg_median == spec_median_degree(g),
                (low_deg_nodes_id@ + high_deg_nodes_id@).to_multiset() == g.ids().take(
                    i as int,
                ).to_multiset(),
                forall|k: int|
                    0 <= k < low_deg_nodes_id@.len() ==> g.deg_of(
                        #[trigger] low_deg_nodes_id@[k],
                    ) < spec_median_degree(g),
                forall|k: int|
                    0 <= k < high_deg_nodes_id@.len() ==> g.deg_of(
                        #[trigger] high_deg_nodes_id@[k],
                    ) >= spec_median_degree(g),
            decreases n - i,
        {
            let id = graph.nodes[i].0;
            let deg = graph.nodes[i].1.deg;
            proof {
                crate::graph::lemma_deg_of_at(g, i as int);
                assert(g.ids()[i as int] == id);
                assert(g.ids().take(i + 1) =~= g.ids().take(i as int).push(id));
                broadcast use vstd::seq_lib::group_to_multiset_ensures;

            }
            if deg < nodes_deg_median {
                proof {
                    lemma_concat_push_left(low_deg_nodes_id@, high_deg_nodes_id@, id);
                }
                low_deg_nodes_id.push(id);
            } else {
                proof {
                    lemma_concat_push_right(low_deg_nodes_id@, high_deg_nodes_id@, id);
                }
                high_deg_nodes_id.push(id);
            }
            i = i + 1;
        }
        proof {
            assert(g.ids().take(n as int) =~= g.ids());
        }
        ChromoBuilder { graph, low_deg_nodes_id, high_deg_nodes_id }
    }

    /// Builds one random chromosome: shuffles each half independently and
    /// concatenates them, low-degree block first, then decodes the result.
    pub fn build_rand_chromo(&self) -> (r: Chromo)
        requires
            self.wf(),
        ensures
            built_from(r, *self),
    {
        let mut rng = rand::thread_rng();

        let mut low_genes = copy_ids(self.low_deg_nodes_id.as_slice());
        let mut high_genes = copy_ids(self.high_deg_nodes_id.as_slice());

        shuffle_ids(&mut rng, &mut low_genes);
        shuffle_ids(&mut rng, &mut high_genes);

        let mut gene = low_genes;
        let mut tail = high_genes;
        let ghost low_shuffled = gene@;
        let ghost high_shuffled = tail@;
        gene.append(&mut tail);

        proof {
            let g = self.spec_graph();
            assert(gene@ == low_shuffled + high_shuffled);
            vstd::seq_lib::lemma_multiset_commutative(low_shuffled, high_shuffled);
            vstd::seq_lib::lemma_multiset_commutative(self.spec_low(), self.spec_high());
            assert(gene@.to_multiset() == g.ids().to_multiset());
            lemma_perm_of_ids_valid(g, gene@);
            broadcast use vstd::seq_lib::group_to_multiset_ensures;

            assert(gene@.len() == gene@.to_multiset().len());
            assert(g.ids().len() == g.ids().to_multiset().len());
            assert(gene@.take(low_shuffled.len() as int) =~= low_shuffled);
            assert(gene@.skip(low_shuffled.len() as int) =~= high_shuffled);
            assert(low_shuffled.len() == self.spec_low().len()) by {
                assert(low_shuffled.len() == low_shuffled.to_multiset().len());
                assert(self.spec_low().len() == self.spec_low().to_multiset().len());
            }
        }
        Chromo::new(gene, share_graph(&self.graph))
    }
}

/// What well-formedness guarantees of a builder, stated over its public
/// views: the shared graph is well formed and non-empty; the low and high
/// halves together hold every vertex exactly once (so they are disjoint
/// and their lengths sum to the vertex count); every low identifier lies
/// strictly below the median degree, every high one at or above it.
pub proof fn lemma_builder_wf(b: ChromoBuilder)
    requires
        b.wf(),
    ensures
        b.spec_graph().wf(),
        b.spec_graph().n() > 0,
        (b.spec_low() + b.spec_high()).to_multiset() == b.spec_graph().ids().to_multiset(),
        b.spec_low().len() + b.spec_high().len() == b.spec_graph().n(),
        forall|k: int|
            0 <= k < b.spec_low().len() ==> b.spec_graph().deg_of(#[trigger] b.spec_low()[k])
                < spec_median_degree(b.spec_graph()),
        forall|k: int|
            0 <= k < b.spec_high().len() ==> b.spec_graph().deg_of(#[trigger] b.spec_high()[k])
                >= spec_median_degree(b.spec_graph()),
{
    broadcast use vstd::seq_lib::group_to_multiset_ensures;

    let both = b.spec_low() + b.spec_high();
    assert(both.len() == both.to_multiset().len());
    assert(b.spec_graph().ids().len() == b.spec_graph().ids().to_multiset().len());
}

} // verus!
