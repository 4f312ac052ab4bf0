//! The generational orchestrator: owns the population and drives one
//! generation — initialize, select, cross, mutate, accept, reduce — and
//! reports the winner.

use std::rc::Rc;

use vstd::prelude::*;

use crate::genalg::chromo::{
    built_from, chromo_eqv, lemma_chromo_eqv_wf, phenes_of, Chromo, ChromoBuilder,
};
use crate::genalg::operators;
use crate::genalg::operators::{
    drawn_from, member_of, rank_total, sorted_by_phene, sorted_phenes, EvalMatrix,
};
use crate::genalg::rng::{rand_index, rand_ratio};
use crate::graph::{share_graph, VarLifetimeGraph};

verus! {

/// Every chromosome is well formed and shares the one conflict graph.
pub open spec fn population_wf(pop: Seq<Chromo>, g: VarLifetimeGraph) -> bool {
    forall|k: int|
        0 <= k < pop.len() ==> (#[trigger] pop[k]).wf() && pop[k].spec_graph() == g
}

/// Members drawn from a well-formed population are well formed themselves.
proof fn lemma_drawn_population_wf(r: Seq<Chromo>, pop: Seq<Chromo>, g: VarLifetimeGraph)
    requires
        population_wf(pop, g),
        drawn_from(r, pop),
    ensures
        population_wf(r, g),
{
    assert forall|k: int| 0 <= k < r.len() implies (#[trigger] r[k]).wf() && r[k].spec_graph()
        == g by {
        assert(member_of(r[k], pop));
        let j = choose|j: int| 0 <= j < pop.len() && chromo_eqv(r[k], #[trigger] pop[j]);
        lemma_chromo_eqv_wf(r[k], pop[j]);
    }
}

/// `c` is `o` with the genes at two loci exchanged (possibly the same
/// locus, a no-op swap) and the cached decode refreshed; the shared graph
/// is kept.
pub open spec fn swapped_member(c: Chromo, o: Chromo) -> bool {
    &&& c.spec_graph() == o.spec_graph()
    &&& exists|a: int, b: int|
        #![auto]
        0 <= a < o.spec_gene().len() && 0 <= b < o.spec_gene().len() && c.spec_gene()
            == o.spec_gene().update(a, o.spec_gene()[b]).update(b, o.spec_gene()[a])
}

/// What well-formedness guarantees of the orchestrator, stated over its
/// public views: the shared graph is well formed and non-empty; every
/// chromosome staged in the population, the selection pool or the
/// offspring buffer is well formed against that graph; both probability
/// pairs are proper ratios.
pub proof fn lemma_genalg_wf(a: GenAlg)
    requires
        a.wf(),
    ensures
        a.spec_graph().wf(),
        a.spec_graph().n() > 0,
        population_wf(a.spec_population(), a.spec_graph()),
        population_wf(a.spec_pool(), a.spec_graph()),
        population_wf(a.spec_next_gen(), a.spec_graph()),
        a.spec_builder().wf(),
        a.spec_builder().spec_graph() == a.spec_graph(),
        0 < a.spec_mutation_ratio().1,
        a.spec_mutation_ratio().0 <= a.spec_mutation_ratio().1,
        0 < a.spec_cross_ratio().1,
        a.spec_cross_ratio().0 <= a.spec_cross_ratio().1,
{
}

/// The genetic search over visitation orders. The population and its two
/// staging areas (selection pool and next-generation buffer) are owned
/// here; the conflict graph and the evaluation matrix are fixed for the
/// whole run.
pub struct GenAlg {
    pub population: Vec<Chromo>,
    pub selection_pool: Vec<Chromo>,
    pub next_gen: Vec<Chromo>,
    graph: Rc<VarLifetimeGraph>,
    eval_matrix: EvalMatrix,
    chromo_builder: ChromoBuilder,
    mutation_ratio: (u32, u32),
    cross_ratio: (u32, u32),
}

impl GenAlg {
    /// The shared conflict graph.
    pub closed spec fn spec_graph(self) -> VarLifetimeGraph {
        *self.graph
    }

    /// The current population.
    pub closed spec fn spec_population(self) -> Seq<Chromo> {
        self.population@
    }

    /// The candidates chosen for reproduction.
    pub closed spec fn spec_pool(self) -> Seq<Chromo> {
        self.selection_pool@
    }

    /// The freshly produced offspring.
    pub closed spec fn spec_next_gen(self) -> Seq<Chromo> {
        self.next_gen@
    }

    /// The chromosome builder: the graph's fixed median-degree split that
    /// shapes every freshly built random gene.
    pub closed spec fn spec_builder(self) -> ChromoBuilder {
        self.chromo_builder
    }

    /// Probability of mutating an offspring, as a rational pair.
    pub closed spec fn spec_mutation_ratio(self) -> (u32, u32) {
        self.mutation_ratio
    }

    /// Probability of letting a pool member reproduce, as a rational pair.
    pub closed spec fn spec_cross_ratio(self) -> (u32, u32) {
        self.cross_ratio
    }

    /// Well-formedness: a non-empty well-formed graph, every staged
    /// chromosome decoded against it, a matching evaluation matrix and
    /// builder, and both probabilities at most one.
    pub closed spec fn wf(self) -> bool {
        &&& self.spec_graph().wf()
        &&& self.spec_graph().n() > 0
        &&& population_wf(self.spec_population(), self.spec_graph())
        &&& population_wf(self.spec_pool(), self.spec_graph())
        &&& population_wf(self.spec_next_gen(), self.spec_graph())
        &&& self.eval_matrix.wf(self.spec_graph())
        &&& self.chromo_builder.wf()
        &&& self.chromo_builder.spec_graph() == self.spec_graph()
        &&& 0 < self.mutation_ratio.1
        &&& self.mutation_ratio.0 <= self.mutation_ratio.1
        &&& 0 < self.cross_ratio.1
        &&& self.cross_ratio.0 <= self.cross_ratio.1
    }

    /// Sets up a run: empty population and staging areas, the evaluation
    /// matrix built once from the graph.
    pub fn new(
        graph: Rc<VarLifetimeGraph>,
        chromo_builder: ChromoBuilder,
        mutation_ratio: (u32, u32),
        cross_ratio: (u32, u32),
    ) -> (r: GenAlg)
        requires
            (*graph).wf(),
            (*graph).n() > 0,
            chromo_builder.wf(),
            chromo_builder.spec_graph() == *graph,
            0 < mutation_ratio.1,
            mutation_ratio.0 <= mutation_ratio.1,
            0 < cross_ratio.1,
            cross_ratio.0 <= cross_ratio.1,
        ensures
            r.wf(),
            r.spec_graph() == *graph,
            r.spec_population().len() == 0,
            r.spec_pool().len() == 0,
            r.spec_next_gen().len() == 0,
            r.spec_builder() == chromo_builder,
            r.spec_mutation_ratio() == mutation_ratio,
            r.spec_cross_ratio() == cross_ratio,
    {
        let eval_matrix = EvalMatrix::new(&graph);
        GenAlg {
            population: Vec::new(),
            selection_pool: Vec::new(),
            next_gen: Vec::new(),
            eval_matrix,
            graph,
            chromo_builder,
            mutation_ratio,
            cross_ratio,
        }
    }

    /// Fills the population with freshly built random chromosomes; run
    /// start only. The staging areas are untouched.
    pub fn gen(&mut self, population_size: usize)
        requires
            old(self).wf(),
        ensures
            final(self).wf(),
            final(self).spec_graph() == old(self).spec_graph(),
            final(self).spec_population().len() == population_size,
            final(self).spec_pool() == old(self).spec_pool(),
            final(self).spec_next_gen() == old(self).spec_next_gen(),
            final(self).spec_builder() == old(self).spec_builder(),
            final(self).spec_mutation_ratio() == old(self).spec_mutation_ratio(),
            final(self).spec_cross_ratio() == old(self).spec_cross_ratio(),
            forall|k: int|
                0 <= k < population_size ==> built_from(
                    #[trigger] final(self).spec_population()[k],
                    old(self).spec_builder(),
                ),
    {
        let mut population: Vec<Chromo> = Vec::new();
        let mut i: usize = 0;
        while i < population_size
            invariant
                self.chromo_builder.wf(),
                i <= population_size,
                population@.len() == i,
                population_wf(population@, self.chromo_builder.spec_graph()),
                forall|k: int|
                    0 <= k < i ==> built_from(#[trigger] population@[k], self.chromo_builder),
            decreases population_size - i,
        {
            population.push(self.chromo_builder.build_rand_chromo());
            i = i + 1;
        }
        self.population = population;
    }

    /// Fills the selection pool by rank-based roulette over the current
    /// population. Population and offspring buffer are untouched.
    pub fn select(&mut self, target_size: usize)
        requires
            old(self).wf(),
            rank_total(old(self).spec_population().len() as int) <= usize::MAX,
        ensures
            final(self).wf(),
            final(self).spec_graph() == old(self).spec_graph(),
            final(self).spec_population() == old(self).spec_population(),
            final(self).spec_next_gen() == old(self).spec_next_gen(),
            final(self).spec_builder() == old(self).spec_builder(),
            final(self).spec_mutation_ratio() == old(self).spec_mutation_ratio(),
            final(self).spec_cross_ratio() == old(self).spec_cross_ratio(),
            drawn_from(final(self).spec_pool(), old(self).spec_population()),
            old(self).spec_population().len() == 0 ==> final(self).spec_pool().len() == 0,
            old(self).spec_population().len() == 1 ==> final(self).spec_pool().len() == 1,
            old(self).spec_population().len() >= 2 ==> final(self).spec_pool().len() == (
            if target_size < old(self).spec_population().len() {
                target_size as int
            } else {
                old(self).spec_population().len() as int
            }),
    {
        let pool = operators::select_ranking(self.population.as_slice(), target_size);
        proof {
            lemma_drawn_population_wf(pool@, self.population@, crate::graph::graph_of(&self.graph));
        }
        self.selection_pool = pool;
    }

    /// One reproduction round: each pool member mates, with the crossover
    /// probability, with a uniformly drawn pool member (itself allowed),
    /// and both children land in the next-generation buffer, which is
    /// rebuilt from scratch; the pool is emptied. An empty pool makes the
    /// whole step a no-op.
    pub fn cross(&mut self)
        requires
            old(self).wf(),
        ensures
            final(self).wf(),
            final(self).spec_graph() == old(self).spec_graph(),
            final(self).spec_population() == old(self).spec_population(),
            final(self).spec_pool().len() == 0,
            final(self).spec_builder() == old(self).spec_builder(),
            final(self).spec_mutation_ratio() == old(self).spec_mutation_ratio(),
            final(self).spec_cross_ratio() == old(self).spec_cross_ratio(),
            old(self).spec_pool().len() == 0 ==> final(self).spec_next_gen() == old(self).spec_next_gen(),
            old(self).spec_pool().len() > 0 ==> final(self).spec_next_gen().len() % 2 == 0,
            old(self).spec_pool().len() > 0 ==> final(self).spec_next_gen().len() <= 2 * old(self).spec_pool().len(),
            old(self).spec_pool().len() > 0 && old(self).spec_cross_ratio().0 == old(self).spec_cross_ratio().1 ==> final(self).spec_next_gen().len() == 2 * old(self).spec_pool().len(),
            old(self).spec_pool().len() > 0 && old(self).spec_cross_ratio().0 == 0 ==> final(self).spec_next_gen().len() == 0,
            forall|k: int|
                0 <= k < final(self).spec_next_gen().len() ==> (#[trigger] final(self).spec_next_gen()[k]).spec_gene().to_multiset() == old(self).spec_graph().ids().to_multiset(),
    {
        if self.selection_pool.len() == 0 {
            proof {
                assert forall|k: int|
                    0 <= k < self.next_gen@.len() implies (#[trigger] self.next_gen@[
                    k
                ]).spec_gene().to_multiset() == self.spec_graph().ids().to_multiset() by {
                    crate::genalg::chromo::lemma_chromo_wf(self.next_gen@[k]);
                    crate::genalg::chromo::lemma_valid_gene_multiset(
                        self.next_gen@[k].spec_graph(),
                        self.next_gen@[k].spec_gene(),
                    );
                }
            }
            return ;
        }

        let mut rng = rand::thread_rng();
        let pool_size = self.selection_pool.len();

        self.next_gen.clear();

        let mut i: usize = 0;
        while i < pool_size
            invariant
                old(self).wf(),
                self.graph == old(self).graph,
                self.population == old(self).population,
                self.selection_pool == old(self).selection_pool,
                self.eval_matrix == old(self).eval_matrix,
                self.chromo_builder == old(self).chromo_builder,
                self.mutation_ratio == old(self).mutation_ratio,
                self.cross_ratio == old(self).cross_ratio,
                self.spec_graph().wf(),
                self.spec_graph().n() > 0,
                pool_size == self.selection_pool@.len(),
                i <= pool_size,
                population_wf(self.selection_pool@, self.spec_graph()),
                self.eval_matrix.wf(self.spec_graph()),
                0 < self.cross_ratio.1,
                self.cross_ratio.0 <= self.cross_ratio.1,
                population_wf(self.next_gen@, self.spec_graph()),
                self.next_gen@.len() % 2 == 0,
                self.next_gen@.len() <= 2 * i,
                self.cross_ratio.0 == self.cross_ratio.1 ==> self.next_gen@.len() == 2 * i,
                self.cross_ratio.0 == 0 ==> self.next_gen@.len() == 0,
                forall|k: int|
                    0 <= k < self.next_gen@.len() ==> (#[trigger] self.next_gen@[
                    k
                ]).spec_gene().to_multiset() == self.spec_graph().ids().to_multiset(),
            decreases pool_size - i,
        {
            if rand_ratio(&mut rng, self.cross_ratio.0, self.cross_ratio.1) {
                let partner = rand_index(&mut rng, pool_size);
                proof {
                    assert(self.selection_pool@[i as int].wf());
                    assert(self.selection_pool@[partner as int].wf());
                    crate::genalg::chromo::lemma_chromo_wf(self.selection_pool@[i as int]);
                    crate::genalg::chromo::lemma_chromo_wf(self.selection_pool@[partner as int]);
                }
                let mut children = operators::cross(
                    (&self.selection_pool[i], &self.selection_pool[partner]),
                    share_graph(&self.graph),
                    &self.eval_matrix,
                );
                let ghost buffered = self.next_gen@;
                let child_b = children.pop().unwrap();
                let child_a = children.pop().unwrap();
                self.next_gen.push(child_a);
                self.next_gen.push(child_b);
                proof {
                    assert forall|k: int|
                        0 <= k < self.next_gen@.len() implies (#[trigger] self.next_gen@[
                        k
                    ]).spec_gene().to_multiset() == self.spec_graph().ids().to_multiset() by {
                        if k < buffered.len() {
                            assert(self.next_gen@[k] == buffered[k]);
                        }
                    }
                }
            }
            i = i + 1;
        }

        self.selection_pool.clear();
    }

    /// Mutates each buffered offspring independently with the mutation
    /// probability; a no-op on an empty buffer. Every offspring keeps its
    /// gene multiset, mutated or not.
    pub fn mutate(&mut self)
        requires
            old(self).wf(),
        ensures
            final(self).wf(),
            final(self).spec_graph() == old(self).spec_graph(),
            final(self).spec_population() == old(self).spec_population(),
            final(self).spec_pool() == old(self).spec_pool(),
            final(self).spec_next_gen().len() == old(self).spec_next_gen().len(),
            final(self).spec_builder() == old(self).spec_builder(),
            final(self).spec_mutation_ratio() == old(self).spec_mutation_ratio(),
            final(self).spec_cross_ratio() == old(self).spec_cross_ratio(),
            forall|k: int|
                #![auto]
                0 <= k < old(self).spec_next_gen().len() ==> final(self).spec_next_gen()[k].spec_gene().to_multiset() == old(self).spec_next_gen()[k].spec_gene().to_multiset(),
            forall|k: int|
                #![auto]
                0 <= k < old(self).spec_next_gen().len() ==> (final(self).spec_next_gen()[k]
                    == old(self).spec_next_gen()[k] || swapped_member(
                    final(self).spec_next_gen()[k],
                    old(self).spec_next_gen()[k],
                )),
    {
        if self.next_gen.len() == 0 {
            return ;
        }

        let mut rng = rand::thread_rng();
        let n = self.next_gen.len();
        let ghost orig = self.next_gen@;

        let mut i: usize = 0;
        while i < n
            invariant
                old(self).wf(),
                self.graph == old(self).graph,
                self.population == old(self).population,
                self.selection_pool == old(self).selection_pool,
                self.eval_matrix == old(self).eval_matrix,
                self.chromo_builder == old(self).chromo_builder,
                self.mutation_ratio == old(self).mutation_ratio,
                self.cross_ratio == old(self).cross_ratio,
                self.spec_graph().wf(),
                n == self.next_gen@.len(),
                orig.len() == n,
                i <= n,
                population_wf(self.next_gen@, self.spec_graph()),
                0 < self.mutation_ratio.1,
                self.mutation_ratio.0 <= self.mutation_ratio.1,
                forall|k: int|
                    0 <= k < n ==> (#[trigger] self.next_gen@[k]).spec_gene().to_multiset()
                        == orig[k].spec_gene().to_multiset(),
                forall|k: int|
                    #![auto]
                    0 <= k < i ==> (self.next_gen@[k] == orig[k] || swapped_member(
                        self.next_gen@[k],
                        orig[k],
                    )),
                forall|k: int|
                    i <= k < n ==> #[trigger] self.next_gen@[k] == orig[k],
            decreases n - i,
        {
            if rand_ratio(&mut rng, self.mutation_ratio.0, self.mutation_ratio.1) {
                let mut chromo = self.next_gen[i].clone();
                proof {
                    lemma_chromo_eqv_wf(chromo, self.next_gen@[i as int]);
                }
                let ghost g0 = chromo.spec_gene();
                operators::mutate(&mut chromo);
                let ghost g1 = chromo.spec_gene();
                let ghost gr1 = chromo.spec_graph();
                self.next_gen.set(i, chromo);
                proof {
                    assert(self.next_gen@[i as int].spec_gene() == g1);
                    assert(self.next_gen@[i as int].spec_graph() == gr1);
                    assert(g0 == orig[i as int].spec_gene());
                    assert(gr1 == orig[i as int].spec_graph());
                    assert(swapped_member(self.next_gen@[i as int], orig[i as int])) by {
                        let (a, b): (int, int) = choose|a: int, b: int|
                            #![auto]
                            0 <= a < g0.len() && 0 <= b < g0.len() && g1 == g0.update(
                                a,
                                g0[b],
                            ).update(b, g0[a]);
                        assert(0 <= a < g0.len() && 0 <= b < g0.len() && g1 == g0.update(
                            a,
                            g0[b],
                        ).update(b, g0[a]));
                    }
                }
            }
            i = i + 1;
        }
    }

    /// Merges the offspring buffer into the population and empties it.
    pub fn accept(&mut self)
        requires
            old(self).wf(),
        ensures
            final(self).wf(),
            final(self).spec_graph() == old(self).spec_graph(),
            final(self).spec_population() == old(self).spec_population() + old(self).spec_next_gen(),
            final(self).spec_pool() == old(self).spec_pool(),
            final(self).spec_next_gen().len() == 0,
            final(self).spec_builder() == old(self).spec_builder(),
            final(self).spec_mutation_ratio() == old(self).spec_mutation_ratio(),
            final(self).spec_cross_ratio() == old(self).spec_cross_ratio(),
    {
        let ghost old_pop = self.population@;
        let ghost old_next = self.next_gen@;
        self.population.append(&mut self.next_gen);
        proof {
            assert forall|k: int|
                0 <= k < self.population@.len() implies (#[trigger] self.population@[k]).wf()
                && self.population@[k].spec_graph() == *self.graph by {
                if k < old_pop.len() {
                    assert(self.population@[k] == old_pop[k]);
                } else {
                    assert(self.population@[k] == old_next[k - old_pop.len()]);
                }
            }
        }
    }

    /// Shrinks the population by elitist truncation: only the chromosomes
    /// of lowest color count survive.
    pub fn reduce(&mut self, target_size: usize)
        requires
            old(self).wf(),
        ensures
            final(self).wf(),
            final(self).spec_graph() == old(self).spec_graph(),
            final(self).spec_pool() == old(self).spec_pool(),
            final(self).spec_next_gen() == old(self).spec_next_gen(),
            final(self).spec_builder() == old(self).spec_builder(),
            final(self).spec_mutation_ratio() == old(self).spec_mutation_ratio(),
            final(self).spec_cross_ratio() == old(self).spec_cross_ratio(),
            drawn_from(final(self).spec_population(), old(self).spec_population()),
            sorted_by_phene(final(self).spec_population()),
            old(self).spec_population().len() == 0 ==> final(self).spec_population().len() == 0,
            old(self).spec_population().len() == 1 ==> final(self).spec_population().len() == 1,
            old(self).spec_population().len() >= 2 ==> final(self).spec_population().len() == (
            if target_size < old(self).spec_population().len() {
                target_size as int
            } else {
                old(self).spec_population().len() as int
            }),
            old(self).spec_population().len() >= 2 ==> phenes_of(final(self).spec_population())
                == sorted_phenes(old(self).spec_population()).take(
                final(self).spec_population().len() as int,
            ),
    {
        let survivors = operators::select_elite(self.population.as_slice(), target_size);
        proof {
            lemma_drawn_population_wf(survivors@, self.population@, crate::graph::graph_of(&self.graph));
        }
        self.population = survivors;
    }

    /// The population member of minimal color count — the first one, when
    /// several tie — or nothing on an empty population.
    pub fn pick_winner(&self) -> (r: Option<&Chromo>)
        ensures
            r is None <==> self.spec_population().len() == 0,
            r matches Some(c) ==> {
                &&& forall|k: int|
                    0 <= k < self.spec_population().len() ==> c.spec_phene() <= (
                    #[trigger] self.spec_population()[k]).spec_phene()
                &&& exists|i: int|
                    #![auto]
                    0 <= i < self.spec_population().len() && *c == self.spec_population()[i] && (
                    forall|k: int|
                        0 <= k < i ==> (#[trigger] self.spec_population()[k]).spec_phene()
                            > c.spec_phene())
            },
    {
        if self.population.len() == 0 {
            return None;
        }
        let mut best: usize = 0;
        let mut m: usize = 1;
        while m < self.population.len()
            invariant
                best < m <= self.population@.len() || (best == 0 && m <= self.population@.len()),
                best < self.population@.len(),
                forall|k: int|
                    0 <= k < m ==> self.population@[best as int].spec_phene() <= (
                    #[trigger] self.population@[k]).spec_phene(),
                forall|k: int|
                    0 <= k < best ==> (#[trigger] self.population@[k]).spec_phene()
                        > self.population@[best as int].spec_phene(),
            decreases self.population@.len() - m,
        {
            if self.population[m].phene() < self.population[best].phene() {
                best = m;
            }
            m = m + 1;
        }
        let c = &self.population[best];
        proof {
            let i = best as int;
            assert(*c == self.spec_population()[i]);
            assert(forall|k: int|
                0 <= k < i ==> (#[trigger] self.spec_population()[k]).spec_phene()
                    > c.spec_phene());
        }
        Some(c)
    }
}

} // verus!
